//! The board: its cells, the two players on it and the moves played so far.

use crate::direction::{next_op, on_grid, pos_view, prev_op, shift, Operation, Position};
use crate::request::{decode, Request};
use vstd::prelude::*;

verus! {

/// The magnitude of the score of a lost position. A board holds fewer cells
/// than this, so no count of cells reaches it.
pub const INF: i64 = 1_001_001_001_001_001_001;

/// What a cell holds: nothing, or the trail of the player with that id.
#[derive(Debug, Clone, Copy, PartialEq, Eq, Structural)]
pub enum Piece {
    Empty,
    Player(usize),
}

/// Why a move, an undo or the construction of a board was refused.
#[derive(Debug, Clone, Copy, PartialEq, Eq, Structural)]
pub enum BoardError {
    /// The target cell lies outside the grid.
    OutOfBounds,
    /// The target cell is not empty.
    Occupied,
    /// There is no move to undo.
    EmptyLog,
    /// The encoded position is malformed.
    InvalidRequest,
}

impl BoardError {
    /// What `message` returns for each error.
    pub open spec fn text(self) -> Seq<char> {
        match self {
            BoardError::OutOfBounds => "Don't sink into the wall!"@,
            BoardError::Occupied => "Not Empty!"@,
            BoardError::EmptyLog => "No log!"@,
            BoardError::InvalidRequest => "Invalid request!"@,
        }
    }

    /// A short text for the error.
    pub fn message(self) -> (s: &'static str)
        ensures
            s@ == self.text(),
    {
        match self {
            BoardError::OutOfBounds => "Don't sink into the wall!",
            BoardError::Occupied => "Not Empty!",
            BoardError::EmptyLog => "No log!",
            BoardError::InvalidRequest => "Invalid request!",
        }
    }
}

/// The id of the player who is not `id`.
pub open spec fn other(id: nat) -> nat {
    if id == 0 {
        1
    } else {
        0
    }
}

/// A board as a mathematical value.
///
/// `mover` is the cell of the player to move and `responder` that of the
/// other player; `active` is the id that the mover's next cell is stamped
/// with; `log` holds the directions played, oldest first.
pub struct BoardView {
    pub h: nat,
    pub w: nat,
    pub grid: Seq<Seq<Piece>>,
    pub mover: (int, int),
    pub responder: (int, int),
    pub active: nat,
    pub log: Seq<Operation>,
}

impl BoardView {
    /// Whether `p` is a cell of this board.
    pub open spec fn on_board(self, p: (int, int)) -> bool {
        on_grid(p, self.h as int, self.w as int)
    }

    /// What the cell `p` holds.
    pub open spec fn at(self, p: (int, int)) -> Piece {
        self.grid[p.0][p.1]
    }

    /// The grid with the cell `p` holding `piece`.
    pub open spec fn grid_with(self, p: (int, int), piece: Piece) -> Seq<Seq<Piece>> {
        self.grid.update(p.0, self.grid[p.0].update(p.1, piece))
    }

    /// The cell that the mover reaches by `op`.
    pub open spec fn target(self, op: Operation) -> (int, int) {
        shift(self.mover, op)
    }

    /// A move is legal where its target is an empty cell of the board.
    pub open spec fn legal(self, op: Operation) -> bool {
        self.on_board(self.target(op)) && self.at(self.target(op)) == Piece::Empty
    }

    /// What applying `op` answers: nothing to report for a legal move, else
    /// the reason, a target off the board coming before an occupied one.
    pub open spec fn verdict(self, op: Operation) -> Result<(), BoardError> {
        if !self.on_board(self.target(op)) {
            Err(BoardError::OutOfBounds)
        } else if self.at(self.target(op)) != Piece::Empty {
            Err(BoardError::Occupied)
        } else {
            Ok(())
        }
    }

    /// The board after the mover has played `op`: the target is stamped with
    /// the active id, the players swap roles, the id toggles and the
    /// direction is logged.
    pub open spec fn step(self, op: Operation) -> BoardView {
        BoardView {
            h: self.h,
            w: self.w,
            grid: self.grid_with(self.target(op), Piece::Player(self.active as usize)),
            mover: self.responder,
            responder: self.target(op),
            active: other(self.active),
            log: self.log.push(op),
        }
    }

    /// The cell from which the last move was played.
    pub open spec fn origin(self) -> (int, int) {
        shift(self.responder, self.log.last().opposite())
    }

    /// The board before its last move: the responder's cell is cleared, the
    /// players swap roles back, the id toggles back and the log loses its
    /// last entry.
    pub open spec fn unstep(self) -> BoardView {
        BoardView {
            h: self.h,
            w: self.w,
            grid: self.grid_with(self.responder, Piece::Empty),
            mover: self.origin(),
            responder: self.mover,
            active: other(self.active),
            log: self.log.drop_last(),
        }
    }

    /// The grid has `h` rows of `w` cells, fewer than `INF` cells in all,
    /// both players stand on it and every id is 0 or 1.
    pub open spec fn shaped(self) -> bool {
        &&& self.grid.len() == self.h
        &&& forall|i: int| 0 <= i < self.h ==> (#[trigger] self.grid[i]).len() == self.w
        &&& self.h * self.w < INF
        &&& self.on_board(self.mover)
        &&& self.on_board(self.responder)
        &&& self.active <= 1
        &&& forall|i: int, j: int|
            0 <= i < self.h && 0 <= j < self.w ==> match #[trigger] self.grid[i][j] {
                Piece::Empty => true,
                Piece::Player(k) => k <= 1,
            }
    }

    /// A board is well formed where it is shaped and every logged move can
    /// be taken back, one after the other, over shaped boards.
    pub open spec fn wf(self) -> bool
        decreases self.log.len(),
    {
        &&& self.shaped()
        &&& if self.log.len() > 0 {
            self.on_board(self.origin()) && self.unstep().wf()
        } else {
            true
        }
    }

    /// Each player stands on its own trail: the mover's cell holds the
    /// active id and the other player's cell the other id.
    pub open spec fn marked(self) -> bool {
        &&& self.at(self.mover) == Piece::Player(self.active as usize)
        &&& self.at(self.responder) == Piece::Player(other(self.active) as usize)
    }

    /// The candidate directions in the order in which they are tried: the
    /// fixed order up, down, right, left, with the direction played two
    /// moves ago exchanged with the first.
    pub open spec fn candidates(self) -> Seq<Operation> {
        if self.log.len() >= 2 {
            match self.log[self.log.len() - 2] {
                Operation::Up => seq![
                    Operation::Up,
                    Operation::Down,
                    Operation::Right,
                    Operation::Left,
                ],
                Operation::Down => seq![
                    Operation::Down,
                    Operation::Up,
                    Operation::Right,
                    Operation::Left,
                ],
                Operation::Right => seq![
                    Operation::Right,
                    Operation::Down,
                    Operation::Up,
                    Operation::Left,
                ],
                Operation::Left => seq![
                    Operation::Left,
                    Operation::Down,
                    Operation::Right,
                    Operation::Up,
                ],
            }
        } else {
            seq![Operation::Up, Operation::Down, Operation::Right, Operation::Left]
        }
    }

    /// The first `k` candidates that are legal, in their order.
    pub open spec fn legal_among(self, k: int) -> Seq<Operation>
        decreases k,
    {
        if k <= 0 {
            Seq::empty()
        } else if self.legal(self.candidates()[k - 1]) {
            self.legal_among(k - 1).push(self.candidates()[k - 1])
        } else {
            self.legal_among(k - 1)
        }
    }

    /// The legal moves of the mover, in the order of the candidates.
    pub open spec fn moves(self) -> Seq<Operation> {
        self.legal_among(4)
    }

    /// The character that stands for the cell `p`: `M` for the mover, `E`
    /// for the other player, `.` for an empty cell and the id for a trail.
    pub open spec fn glyph(self, p: (int, int)) -> char {
        if p == self.mover {
            'M'
        } else if p == self.responder {
            'E'
        } else {
            match self.at(p) {
                Piece::Empty => '.',
                Piece::Player(k) => if k == 0 {
                    '0'
                } else {
                    '1'
                },
            }
        }
    }

    /// The characters of the first `k` cells of row `i`.
    pub open spec fn row_text(self, i: int, k: int) -> Seq<char>
        decreases k,
    {
        if k <= 0 {
            Seq::empty()
        } else {
            self.row_text(i, k - 1).push(self.glyph((i, k - 1)))
        }
    }

    /// The first `k` rows as text, each row followed by a line feed.
    pub open spec fn rows_text(self, k: int) -> Seq<char>
        decreases k,
    {
        if k <= 0 {
            Seq::empty()
        } else {
            self.rows_text(k - 1) + self.row_text(k - 1, self.w as int).push('\n')
        }
    }

    /// The board as text, one line for each row.
    pub open spec fn render(self) -> Seq<char> {
        self.rows_text(self.h as int)
    }

    /// The side to move has lost where it has no legal move.
    pub open spec fn terminal(self) -> bool {
        self.moves().len() == 0
    }
}

/// The board of a fresh game: all cells empty but the two players' own.
pub open spec fn fresh_board(h: nat, w: nat, me: (int, int), opp: (int, int), n: nat) -> BoardView {
    let blank = BoardView {
        h,
        w,
        grid: Seq::new(h, |i: int| Seq::new(w, |j: int| Piece::Empty)),
        mover: me,
        responder: opp,
        active: n,
        log: Seq::empty(),
    };
    let first = BoardView { grid: blank.grid_with(me, Piece::Player(n as usize)), ..blank };
    BoardView { grid: first.grid_with(opp, Piece::Player(other(n) as usize)), ..first }
}

/// The game state: the grid, where the two players stand, whose id is
/// stamped next and the directions played so far.
pub struct Board {
    h: usize,
    w: usize,
    v: Vec<Vec<Piece>>,
    log: Vec<Operation>,
    me: Position,
    opp: Position,
    n: usize,
}

impl View for Board {
    type V = BoardView;

    closed spec fn view(&self) -> BoardView {
        BoardView {
            h: self.h as nat,
            w: self.w as nat,
            grid: Seq::new(self.v@.len(), |i: int| self.v@[i]@),
            mover: pos_view(self.me),
            responder: pos_view(self.opp),
            active: self.n as nat,
            log: self.log@,
        }
    }
}

/// A grid of `h` rows of `w` empty cells.
pub(crate) fn blank_grid(h: usize, w: usize) -> (v: Vec<Vec<Piece>>)
    ensures
        v@.len() == h,
        forall|i: int| 0 <= i < h ==> (#[trigger] v@[i])@.len() == w,
        forall|i: int, j: int| 0 <= i < h && 0 <= j < w ==> (#[trigger] v@[i]@[j]) == Piece::Empty,
{
    let mut v: Vec<Vec<Piece>> = Vec::new();
    let mut i: usize = 0;
    while i < h
        invariant
            i <= h,
            v@.len() == i,
            forall|a: int| 0 <= a < i ==> (#[trigger] v@[a])@.len() == w,
            forall|a: int, b: int| 0 <= a < i && 0 <= b < w ==> (#[trigger] v@[a]@[b]) == Piece::Empty,
        decreases h - i,
    {
        let mut row: Vec<Piece> = Vec::new();
        let mut j: usize = 0;
        while j < w
            invariant
                j <= w,
                row@.len() == j,
                forall|b: int| 0 <= b < j ==> (#[trigger] row@[b]) == Piece::Empty,
            decreases w - j,
        {
            row.push(Piece::Empty);
            j += 1;
        }
        v.push(row);
        i += 1;
    }
    v
}

impl Board {
    /// Whether the board is well formed. Every constructor returns a well
    /// formed board and every method keeps it so.
    pub open spec fn wf(&self) -> bool {
        self@.wf()
    }

    /// A fresh board of `h` rows and `w` columns with the mover on `me`,
    /// the other player on `opp` and `n` the mover's id.
    pub fn new(h: usize, w: usize, me: Position, opp: Position, n: usize) -> (b: Board)
        requires
            on_grid(pos_view(me), h as int, w as int),
            on_grid(pos_view(opp), h as int, w as int),
            n <= 1,
            h * w < INF,
        ensures
            b.wf(),
            b@ == fresh_board(h as nat, w as nat, pos_view(me), pos_view(opp), n as nat),
    {
        let mut v = blank_grid(h, w);
        assert(n <= 1 ==> (n ^ 1) == (if n == 0 { 1usize } else { 0usize })) by (bit_vector);
        v[me.0][me.1] = Piece::Player(n);
        v[opp.0][opp.1] = Piece::Player(n ^ 1);
        let b = Board { h, w, v, log: Vec::new(), me, opp, n };
        proof {
            let f = fresh_board(h as nat, w as nat, pos_view(me), pos_view(opp), n as nat);
            assert(b@.grid =~~= f.grid);
            assert(b@.log =~= f.log);
        }
        b
    }

    /// The number of rows.
    pub fn height(&self) -> (r: usize)
        ensures
            r == self@.h,
    {
        self.h
    }

    /// The number of columns.
    pub fn width(&self) -> (r: usize)
        ensures
            r == self@.w,
    {
        self.w
    }

    /// The cell of the player to move.
    pub fn mover(&self) -> (r: Position)
        ensures
            pos_view(r) == self@.mover,
    {
        self.me
    }

    /// The cell of the player who moved last.
    pub fn responder(&self) -> (r: Position)
        ensures
            pos_view(r) == self@.responder,
    {
        self.opp
    }

    /// The id that the mover's next cell is stamped with.
    pub fn active(&self) -> (r: usize)
        ensures
            r == self@.active,
    {
        self.n
    }

    /// The number of moves played and not taken back.
    pub fn moves_played(&self) -> (r: usize)
        ensures
            r == self@.log.len(),
    {
        self.log.len()
    }

    /// What the cell in row `i` and column `j` holds.
    pub fn piece(&self, i: usize, j: usize) -> (r: Piece)
        requires
            self.wf(),
            i < self@.h,
            j < self@.w,
        ensures
            r == self@.grid[i as int][j as int],
    {
        self.v[i][j]
    }

    /// The board that `req` encodes, with the machine to move. A malformed
    /// encoding is refused.
    pub fn from_request(req: Request) -> (r: Result<Board, BoardError>)
        ensures
            match r {
                Ok(b) => req.valid() && b.wf() && b@ == req.decoded(),
                Err(e) => !req.valid() && e == BoardError::InvalidRequest,
            },
    {
        let w = req.size.x;
        let h = req.size.y;
        let len = req.board.len();
        let cells = match h.checked_mul(w) {
            Some(c) => c,
            None => {
                return Err(BoardError::InvalidRequest);
            },
        };
        if len != cells || cells as u64 >= INF as u64 {
            return Err(BoardError::InvalidRequest);
        }
        if req.player_pos.y >= h || req.player_pos.x >= w || req.ai_pos.y >= h || req.ai_pos.x >= w {
            return Err(BoardError::InvalidRequest);
        }
        let mut v: Vec<Vec<Piece>> = Vec::new();
        let mut i: usize = 0;
        while i < h
            invariant
                i <= h,
                h == req.size.y,
                w == req.size.x,
                req.board@.len() == h * w,
                h * w <= usize::MAX,
                v@.len() == i,
                forall|a: int| 0 <= a < i ==> (#[trigger] v@[a])@.len() == w,
                forall|a: int, b: int|
                    0 <= a < i && 0 <= b < w ==> -1 <= #[trigger] req.board@[a * w + b] <= 1,
                forall|a: int, b: int|
                    0 <= a < i && 0 <= b < w ==> (#[trigger] v@[a]@[b]) == decode(
                        req.board@[a * w + b],
                    ),
            decreases h - i,
        {
            let mut row: Vec<Piece> = Vec::new();
            let mut j: usize = 0;
            while j < w
                invariant
                    i < h,
                    j <= w,
                    req.board@.len() == h * w,
                    h * w <= usize::MAX,
                    row@.len() == j,
                    forall|b: int| 0 <= b < j ==> -1 <= #[trigger] req.board@[i * w + b] <= 1,
                    forall|b: int|
                        0 <= b < j ==> (#[trigger] row@[b]) == decode(req.board@[i * w + b]),
                decreases w - j,
            {
                assert(0 <= i * w && i * w + j < h * w) by (nonlinear_arith)
                    requires
                        0 <= i < h,
                        0 <= j < w,
                ;
                let piece = match req.board[i * w + j] {
                    -1 => Piece::Empty,
                    0 => Piece::Player(0),
                    1 => Piece::Player(1),
                    _ => {
                        return Err(BoardError::InvalidRequest);
                    },
                };
                row.push(piece);
                j += 1;
            }
            v.push(row);
            i += 1;
        }
        let b = Board {
            h,
            w,
            v,
            log: Vec::new(),
            me: (req.ai_pos.y, req.ai_pos.x),
            opp: (req.player_pos.y, req.player_pos.x),
            n: 1,
        };
        proof {
            assert(b@.grid =~~= req.decoded().grid);
            assert(b@.log =~= req.decoded().log);
            assert forall|k: int| 0 <= k < req.board@.len() implies -1 <= #[trigger] req.board@[k]
                <= 1 by {
                let a = k / (w as int);
                let c = k % (w as int);
                assert(w > 0);
                assert(k == a * w + c && 0 <= c < w && 0 <= a < h) by (nonlinear_arith)
                    requires
                        a == k / (w as int),
                        c == k % (w as int),
                        0 <= k < h * w,
                        w > 0,
                ;
                assert(-1 <= req.board@[a * w + c] <= 1);
            }
        }
        Ok(b)
    }

    /// The board as text for a reader: one line for each row, `M` for
    /// the mover, `E` for the other player, `.` for an empty cell and the id
    /// for a trail.
    pub fn to_string(&self) -> (s: String)
        requires
            self.wf(),
        ensures
            s@ == self@.render(),
    {
        let mut s = String::new();
        let mut i: usize = 0;
        proof {
            reveal_strlit("M");
            reveal_strlit("E");
            reveal_strlit(".");
            reveal_strlit("0");
            reveal_strlit("1");
            reveal_strlit("\n");
        }
        while i < self.h
            invariant
                self.wf(),
                i <= self.h,
                s@ == self@.rows_text(i as int),
                "M"@ == seq!['M'],
                "E"@ == seq!['E'],
                "."@ == seq!['.'],
                "0"@ == seq!['0'],
                "1"@ == seq!['1'],
                "\n"@ == seq!['\n'],
            decreases self.h - i,
        {
            let ghost line_start = s@;
            let mut j: usize = 0;
            while j < self.w
                invariant
                    self.wf(),
                    i < self.h,
                    j <= self.w,
                    s@ == line_start + self@.row_text(i as int, j as int),
                    "M"@ == seq!['M'],
                    "E"@ == seq!['E'],
                    "."@ == seq!['.'],
                    "0"@ == seq!['0'],
                    "1"@ == seq!['1'],
                decreases self.w - j,
            {
                let ghost before = s@;
                assert(self@.grid[i as int].len() == self.w);
                if i == self.me.0 && j == self.me.1 {
                    s.append("M");
                } else if i == self.opp.0 && j == self.opp.1 {
                    s.append("E");
                } else {
                    match self.v[i][j] {
                        Piece::Empty => s.append("."),
                        Piece::Player(k) => {
                            if k == 0 {
                                s.append("0")
                            } else {
                                s.append("1")
                            }
                        },
                    }
                }
                assert(s@ == before.push(self@.glyph((i as int, j as int))));
                assert(s@ == line_start + self@.row_text(i as int, j as int + 1));
                j += 1;
            }
            s.append("\n");
            assert(s@ == line_start + self@.row_text(i as int, self.w as int).push('\n'));
            i += 1;
        }
        s
    }

    /// The four directions in the order in which they are tried.
    fn ordered_candidates(&self) -> (c: Vec<Operation>)
        ensures
            c@ == self@.candidates(),
    {
        let mut c: Vec<Operation> = Vec::new();
        let first = if self.log.len() >= 2 {
            self.log[self.log.len() - 2]
        } else {
            Operation::Up
        };
        match first {
            Operation::Up => {
                c.push(Operation::Up);
                c.push(Operation::Down);
                c.push(Operation::Right);
                c.push(Operation::Left);
            },
            Operation::Down => {
                c.push(Operation::Down);
                c.push(Operation::Up);
                c.push(Operation::Right);
                c.push(Operation::Left);
            },
            Operation::Right => {
                c.push(Operation::Right);
                c.push(Operation::Down);
                c.push(Operation::Up);
                c.push(Operation::Left);
            },
            Operation::Left => {
                c.push(Operation::Left);
                c.push(Operation::Down);
                c.push(Operation::Right);
                c.push(Operation::Up);
            },
        }
        assert(c@ =~= self@.candidates());
        c
    }

    /// Whether the mover may play `op`.
    pub fn is_legal(&self, op: Operation) -> (r: bool)
        requires
            self.wf(),
        ensures
            r == self@.legal(op),
    {
        match next_op(self.me, op, self.h, self.w) {
            Some((i, j)) => {
                assert(self@.grid[i as int].len() == self.w);
                self.v[i][j] == Piece::Empty
            },
            None => false,
        }
    }

    /// The legal moves of the mover, in the order in which the search tries
    /// them. Each leads to an empty cell of the board, each legal direction
    /// is listed, and none twice.
    pub fn enumerate(&self) -> (r: Vec<Operation>)
        requires
            self.wf(),
        ensures
            r@ == self@.moves(),
            forall|i: int| 0 <= i < r@.len() ==> self@.legal(#[trigger] r@[i]),
            forall|op: Operation| self@.legal(op) <==> r@.contains(op),
            r@.no_duplicates(),
            r@.len() <= 4,
    {
        let c = self.ordered_candidates();
        let mut r: Vec<Operation> = Vec::new();
        let mut k: usize = 0;
        while k < 4
            invariant
                self.wf(),
                k <= 4,
                c@ == self@.candidates(),
                c@.len() == 4,
                r@ == self@.legal_among(k as int),
            decreases 4 - k,
        {
            if self.is_legal(c[k]) {
                r.push(c[k]);
            }
            k += 1;
        }
        proof {
            moves_are_the_legal_ones(self@);
        }
        r
    }

    /// Plays `op` for the mover. An illegal move is refused and leaves the
    /// board as it was.
    pub fn operate(&mut self, op: Operation) -> (r: Result<(), BoardError>)
        requires
            old(self).wf(),
        ensures
            final(self).wf(),
            r == old(self)@.verdict(op),
            r is Ok ==> final(self)@ == old(self)@.step(op),
            r is Err ==> final(self)@ == old(self)@,
    {
        match next_op(self.me, op, self.h, self.w) {
            None => Err(BoardError::OutOfBounds),
            Some((i, j)) => {
                if self.v[i][j] != Piece::Empty {
                    Err(BoardError::Occupied)
                } else {
                    let n = self.n;
                    assert(n <= 1 ==> (n ^ 1) == (if n == 0 { 1usize } else { 0usize }))
                        by (bit_vector);
                    let me = self.opp;
                    self.v[i][j] = Piece::Player(self.n);
                    self.n ^= 1;
                    self.opp = (i, j);
                    self.me = me;
                    self.log.push(op);
                    proof {
                        let before = old(self)@;
                        assert(self@.grid =~~= before.step(op).grid);
                        assert(self@ == before.step(op));
                        apply_then_undo_restores(before, op);
                    }
                    Ok(())
                }
            },
        }
    }

    /// Takes the last move back. With no move to take back the board stays
    /// as it is.
    pub fn rollback(&mut self) -> (r: Result<(), BoardError>)
        requires
            old(self).wf(),
        ensures
            final(self).wf(),
            old(self)@.log.len() == 0 ==> r == Err::<(), BoardError>(BoardError::EmptyLog)
                && final(self)@ == old(self)@,
            old(self)@.log.len() > 0 ==> r == Ok::<(), BoardError>(()) && final(self)@ == old(
                self,
            )@.unstep(),
    {
        match self.log.pop() {
            None => Err(BoardError::EmptyLog),
            Some(op) => {
                match prev_op(self.opp, op, self.h, self.w) {
                    None => vstd::pervasive::unreached(),
                    Some((i, j)) => {
                        let n = self.n;
                        assert(n <= 1 ==> (n ^ 1) == (if n == 0 { 1usize } else { 0usize }))
                            by (bit_vector);
                        let (x, y) = self.opp;
                        self.v[x][y] = Piece::Empty;
                        let opp = self.me;
                        self.opp = opp;
                        self.me = (i, j);
                        self.n ^= 1;
                        proof {
                            let before = old(self)@;
                            assert(self@.grid =~~= before.unstep().grid);
                            assert(self@.log =~= before.unstep().log);
                            assert(self@ == before.unstep());
                        }
                        Ok(())
                    },
                }
            },
        }
    }
}

impl Clone for Board {
    /// A copy that shares nothing with this board.
    fn clone(&self) -> (r: Self)
        ensures
            r@ == self@,
    {
        let mut v: Vec<Vec<Piece>> = Vec::new();
        let mut i: usize = 0;
        while i < self.v.len()
            invariant
                i <= self.v.len(),
                v@.len() == i,
                forall|k: int| 0 <= k < i ==> (#[trigger] v@[k])@ == self.v@[k]@,
            decreases self.v.len() - i,
        {
            let row = self.v[i].clone();
            assert(row@ =~= self.v@[i as int]@);
            v.push(row);
            i += 1;
        }
        let log = self.log.clone();
        assert(log@ =~= self.log@);
        let r = Board { h: self.h, w: self.w, v, log, me: self.me, opp: self.opp, n: self.n };
        assert(r@.grid =~= self@.grid);
        r
    }
}

/// The first `k` candidates that are legal hold just the legal ones among
/// those `k`, each once.
proof fn legal_among_holds_the_legal(v: BoardView, k: int)
    requires
        0 <= k <= 4,
    ensures
        v.legal_among(k).len() <= k,
        forall|i: int|
            0 <= i < v.legal_among(k).len() ==> v.legal(#[trigger] v.legal_among(k)[i]) && exists|
                j: int,
            |
                0 <= j < k && v.candidates()[j] == v.legal_among(k)[i],
        forall|j: int|
            0 <= j < k && v.legal(#[trigger] v.candidates()[j]) ==> v.legal_among(k).contains(
                v.candidates()[j],
            ),
        v.legal_among(k).no_duplicates(),
    decreases k,
{
    let c = v.candidates();
    assert(c.len() == 4 && c.no_duplicates());
    if k > 0 {
        legal_among_holds_the_legal(v, k - 1);
        let before = v.legal_among(k - 1);
        let now = v.legal_among(k);
        if v.legal(c[k - 1]) {
            assert(now == before.push(c[k - 1]));
            assert(now[now.len() - 1] == c[k - 1]);
            assert forall|j: int| 0 <= j < k && v.legal(#[trigger] c[j]) implies now.contains(
                c[j],
            ) by {
                if j < k - 1 {
                    let i = choose|i: int| 0 <= i < before.len() && before[i] == c[j];
                    assert(now[i] == c[j]);
                }
            }
            assert forall|i: int| 0 <= i < now.len() implies v.legal(#[trigger] now[i]) && exists|
                j: int,
            |
                0 <= j < k && c[j] == now[i] by {
                if i < before.len() {
                    assert(now[i] == before[i]);
                    let j = choose|j: int| 0 <= j < k - 1 && c[j] == before[i];
                    assert(0 <= j < k && c[j] == now[i]);
                }
            }
            assert forall|a: int, b: int| 0 <= a < now.len() && 0 <= b < now.len() && a != b implies now[a]
                != now[b] by {
                if a < before.len() && b < before.len() {
                    assert(before[a] != before[b]);
                } else if a < before.len() {
                    assert(now[a] == before[a]);
                    let j = choose|j: int| 0 <= j < k - 1 && c[j] == before[a];
                    assert(c[j] != c[k - 1]);
                } else {
                    assert(now[b] == before[b]);
                    let j = choose|j: int| 0 <= j < k - 1 && c[j] == before[b];
                    assert(c[j] != c[k - 1]);
                }
            }
        } else {
            assert(now == before);
            assert forall|i: int| 0 <= i < now.len() implies v.legal(#[trigger] now[i]) && exists|
                j: int,
            |
                0 <= j < k && c[j] == now[i] by {
                let j = choose|j: int| 0 <= j < k - 1 && c[j] == before[i];
                assert(0 <= j < k && c[j] == now[i]);
            }
        }
    }
}

/// Every listed move is legal, every legal direction is listed, and none is
/// listed twice.
pub proof fn moves_are_the_legal_ones(v: BoardView)
    ensures
        forall|i: int| 0 <= i < v.moves().len() ==> v.legal(#[trigger] v.moves()[i]),
        forall|op: Operation| v.legal(op) <==> v.moves().contains(op),
        v.moves().no_duplicates(),
        v.moves().len() <= 4,
{
    legal_among_holds_the_legal(v, 4);
    let c = v.candidates();
    let m = v.moves();
    assert(c.len() == 4);
    assert forall|op: Operation| v.legal(op) implies m.contains(op) by {
        assert(c[0] == op || c[1] == op || c[2] == op || c[3] == op);
    }
}

/// A move changes one cell: its target, which was empty, holds the id that
/// was active. So a cell that is occupied stays occupied.
pub proof fn a_move_fills_only_its_target(v: BoardView, op: Operation, p: (int, int))
    requires
        v.shaped(),
        v.legal(op),
        v.on_board(p),
    ensures
        p == v.target(op) ==> v.at(p) == Piece::Empty && v.step(op).at(p) == Piece::Player(
            v.active as usize,
        ),
        p != v.target(op) ==> v.step(op).at(p) == v.at(p),
        v.at(p) != Piece::Empty ==> v.step(op).at(p) != Piece::Empty,
{
}

/// Taking a move back changes one cell: the one that the move had filled
/// is empty again.
pub proof fn an_undo_clears_only_its_cell(v: BoardView, p: (int, int))
    requires
        v.wf(),
        v.log.len() > 0,
        v.on_board(p),
    ensures
        p == v.responder ==> v.unstep().at(p) == Piece::Empty,
        p != v.responder ==> v.unstep().at(p) == v.at(p),
{
}

/// On a fresh board with the players on different cells each player
/// stands on its own trail.
pub proof fn fresh_players_stand_on_their_trails(
    h: nat,
    w: nat,
    me: (int, int),
    opp: (int, int),
    n: nat,
)
    requires
        on_grid(me, h as int, w as int),
        on_grid(opp, h as int, w as int),
        me != opp,
        n <= 1,
    ensures
        fresh_board(h, w, me, opp, n).marked(),
{
}

/// Where each player stands on its own trail, it does so after any move.
pub proof fn players_stand_on_their_trails(v: BoardView, op: Operation)
    requires
        v.shaped(),
        v.legal(op),
        v.marked(),
    ensures
        v.step(op).marked(),
{
    let t = v.target(op);
    assert(t != v.responder);
    a_move_fills_only_its_target(v, op, v.responder);
    a_move_fills_only_its_target(v, op, t);
}

/// Playing a legal move on a well formed board gives a well formed board,
/// and taking that move back restores the board: grid, both positions,
/// active id and log.
pub proof fn apply_then_undo_restores(v: BoardView, op: Operation)
    requires
        v.wf(),
        v.legal(op),
    ensures
        v.step(op).wf(),
        v.step(op).log.len() == v.log.len() + 1,
        v.step(op).unstep() == v,
{
    let s = v.step(op);
    let t = v.target(op);
    assert(s.log.last() == op);
    assert(s.origin() == v.mover);
    assert(s.log.drop_last() =~= v.log);
    assert(s.unstep().grid =~~= v.grid) by {
        assert forall|i: int| 0 <= i < v.grid.len() implies s.unstep().grid[i] =~= v.grid[i] by {}
    }
    assert(s.unstep() == v);
    assert(s.shaped());
}

} // verus!
