//! The evaluation of a position: how much of the empty board each player
//! would reach first.

use crate::board::{blank_grid, Board, BoardView, Piece, INF};
use crate::direction::{
    neighbours, neighbours_are_the_steps, next_pos, pos_view, positions_view, shift, Operation,
    Position,
};
use std::collections::VecDeque;
use vstd::prelude::*;

verus! {

impl BoardView {
    /// A cell that a player can still enter or pass: an empty cell of the
    /// board on which neither player stands.
    pub open spec fn open_cell(self, p: (int, int)) -> bool {
        self.on_board(p) && self.at(p) == Piece::Empty && p != self.mover && p != self.responder
    }

    /// Whether some neighbour of `p` is within `k` steps of `src`.
    pub open spec fn near(self, src: (int, int), p: (int, int), k: int) -> bool
        decreases k, 1int,
    {
        if k < 0 {
            false
        } else {
            ||| self.within(src, shift(p, Operation::Up), k)
            ||| self.within(src, shift(p, Operation::Down), k)
            ||| self.within(src, shift(p, Operation::Right), k)
            ||| self.within(src, shift(p, Operation::Left), k)
        }
    }

    /// Whether `p` is `src` itself or can be reached from `src` in at most
    /// `k` steps, each of them onto an open cell.
    pub open spec fn within(self, src: (int, int), p: (int, int), k: int) -> bool
        decreases k, 0int,
    {
        if k < 0 {
            false
        } else if k == 0 {
            p == src
        } else {
            self.within(src, p, k - 1) || (self.open_cell(p) && self.near(src, p, k - 1))
        }
    }

    /// An open cell belongs to the mover where the mover is at most as far
    /// from it as the other player.
    pub open spec fn mover_claims(self, p: (int, int)) -> bool {
        self.open_cell(p) && exists|k: int|
            0 <= k && #[trigger] self.within(self.mover, p, k) && !self.within(
                self.responder,
                p,
                k - 1,
            )
    }

    /// An open cell belongs to the other player where that player is
    /// strictly nearer to it than the mover.
    pub open spec fn responder_claims(self, p: (int, int)) -> bool {
        self.open_cell(p) && exists|k: int|
            0 <= k && #[trigger] self.within(self.responder, p, k) && !self.within(
                self.mover,
                p,
                k,
            )
    }

    /// The open cells that the mover reaches first or at the same time.
    pub open spec fn mover_territory(self) -> Set<(int, int)> {
        Set::new(|p: (int, int)| self.mover_claims(p))
    }

    /// The open cells that the other player reaches first.
    pub open spec fn responder_territory(self) -> Set<(int, int)> {
        Set::new(|p: (int, int)| self.responder_claims(p))
    }

    /// An open cell that both players reach in the same number of steps.
    pub open spec fn contested(self, p: (int, int)) -> bool {
        self.open_cell(p) && exists|k: int|
            0 <= k && #[trigger] self.within(self.mover, p, k) && self.within(self.responder, p, k)
                && !self.within(self.mover, p, k - 1) && !self.within(self.responder, p, k - 1)
    }

    /// The score of the position for the side to move: `-INF` where it has
    /// no legal move, else the number of cells that are the mover's, its own
    /// cell among them, less the number that are the other player's.
    pub open spec fn score(self) -> int {
        if self.terminal() {
            -INF
        } else {
            (1 + self.mover_territory().len()) - (1 + self.responder_territory().len())
        }
    }

    /// The same layout seen from the other side: the players exchange their
    /// roles and the active id toggles. No move is on record.
    pub open spec fn swapped(self) -> BoardView {
        BoardView {
            h: self.h,
            w: self.w,
            grid: self.grid,
            mover: self.responder,
            responder: self.mover,
            active: crate::board::other(self.active),
            log: Seq::empty(),
        }
    }
}

/// What is within `a` steps is within any larger number of steps.
pub proof fn within_grows(v: BoardView, src: (int, int), p: (int, int), a: int, b: int)
    requires
        v.within(src, p, a),
        a <= b,
    ensures
        v.within(src, p, b),
    decreases b - a,
{
    if a < b {
        within_grows(v, src, p, a, b - 1);
    }
}

/// What is within reach is the source itself or an open cell.
pub proof fn within_is_source_or_open(v: BoardView, src: (int, int), p: (int, int), k: int)
    requires
        v.within(src, p, k),
    ensures
        p == src || v.open_cell(p),
    decreases k,
{
    if k > 0 && !v.open_cell(p) {
        within_is_source_or_open(v, src, p, k - 1);
    }
}

/// One more step from a cell within reach onto an open cell stays within
/// reach of one more step.
pub proof fn within_extends(v: BoardView, src: (int, int), x: (int, int), op: Operation, k: int)
    requires
        v.within(src, x, k),
        v.open_cell(shift(x, op)),
    ensures
        v.within(src, shift(x, op), k + 1),
{
    let q = shift(x, op);
    assert(shift(q, op.opposite()) == x);
    assert(k >= 0);
    assert(v.near(src, q, k));
}

/// The cells of one row of a grid are finitely many.
proof fn row_is_finite(r: int, w: int)
    requires
        0 <= w,
    ensures
        Set::new(|p: (int, int)| p.0 == r && 0 <= p.1 < w).finite(),
    decreases w,
{
    let row = Set::new(|p: (int, int)| p.0 == r && 0 <= p.1 < w);
    if w == 0 {
        assert(row =~= Set::empty());
    } else {
        row_is_finite(r, w - 1);
        let shorter = Set::new(|p: (int, int)| p.0 == r && 0 <= p.1 < w - 1);
        assert(row =~= shorter.insert((r, w - 1)));
    }
}

/// The cells of a grid are finitely many.
proof fn grid_is_finite(h: int, w: int)
    requires
        0 <= h,
        0 <= w,
    ensures
        Set::new(|p: (int, int)| crate::direction::on_grid(p, h, w)).finite(),
    decreases h,
{
    let grid = Set::new(|p: (int, int)| crate::direction::on_grid(p, h, w));
    if h == 0 {
        assert(grid =~= Set::empty());
    } else {
        grid_is_finite(h - 1, w);
        row_is_finite(h - 1, w);
        let lower = Set::new(|p: (int, int)| crate::direction::on_grid(p, h - 1, w));
        let row = Set::new(|p: (int, int)| p.0 == h - 1 && 0 <= p.1 < w);
        assert(grid =~= lower.union(row));
    }
}

/// Each side's territory is finite and holds no more cells than the board.
/// So the score of a lost position, `-INF`, is no count of cells: where the
/// mover can move the score lies strictly between `-INF` and `INF`.
pub proof fn score_is_bounded(v: BoardView)
    requires
        v.shaped(),
    ensures
        v.mover_territory().finite(),
        v.responder_territory().finite(),
        v.mover_territory().len() <= v.h * v.w,
        v.responder_territory().len() <= v.h * v.w,
        v.terminal() ==> v.score() == -INF,
        !v.terminal() ==> -INF < v.score() < INF,
{
    let grid = Set::new(|p: (int, int)| crate::direction::on_grid(p, v.h as int, v.w as int));
    grid_is_finite(v.h as int, v.w as int);
    assert(v.mover_territory().subset_of(grid));
    assert(v.responder_territory().subset_of(grid));
    vstd::set_lib::lemma_set_subset_finite(grid, v.mover_territory());
    vstd::set_lib::lemma_set_subset_finite(grid, v.responder_territory());
    cells_fit_the_grid(v.mover_territory(), v.h as int, v.w as int);
    cells_fit_the_grid(v.responder_territory(), v.h as int, v.w as int);
}

/// The least number of steps in which a cell within reach is reached.
proof fn first_reach(v: BoardView, src: (int, int), p: (int, int), k: int) -> (least: int)
    requires
        v.within(src, p, k),
    ensures
        0 <= least <= k,
        v.within(src, p, least),
        !v.within(src, p, least - 1),
    decreases k,
{
    if k > 0 && v.within(src, p, k - 1) {
        first_reach(v, src, p, k - 1)
    } else {
        k
    }
}

/// What is within reach depends only on which cells are open.
pub proof fn reach_depends_on_open_cells(
    a: BoardView,
    b: BoardView,
    src: (int, int),
    p: (int, int),
    k: int,
)
    requires
        forall|q: (int, int)| a.open_cell(q) == b.open_cell(q),
    ensures
        a.within(src, p, k) == b.within(src, p, k),
    decreases k,
{
    if k > 0 {
        reach_depends_on_open_cells(a, b, src, shift(p, Operation::Up), k - 1);
        reach_depends_on_open_cells(a, b, src, shift(p, Operation::Down), k - 1);
        reach_depends_on_open_cells(a, b, src, shift(p, Operation::Right), k - 1);
        reach_depends_on_open_cells(a, b, src, shift(p, Operation::Left), k - 1);
        reach_depends_on_open_cells(a, b, src, p, k - 1);
        assert(a.open_cell(p) == b.open_cell(p));
        assert(a.near(src, p, k - 1) == b.near(src, p, k - 1));
    }
}

/// What is within reach does not depend on whose turn it is.
proof fn swapped_reach_is_the_same(v: BoardView, src: (int, int), p: (int, int), k: int)
    ensures
        v.swapped().within(src, p, k) == v.within(src, p, k),
{
    assert forall|q: (int, int)| v.swapped().open_cell(q) == v.open_cell(q) by {}
    reach_depends_on_open_cells(v.swapped(), v, src, p, k);
}

/// Two boards of the same layout: the same grid, the same players on the
/// same cells and the same active id. Their logs may differ.
pub open spec fn same_layout(a: BoardView, b: BoardView) -> bool {
    &&& a.h == b.h
    &&& a.w == b.w
    &&& a.grid == b.grid
    &&& a.mover == b.mover
    &&& a.responder == b.responder
    &&& a.active == b.active
}

/// The score depends on the layout alone, not on the moves that led to it.
pub proof fn score_depends_on_the_layout(a: BoardView, b: BoardView)
    requires
        same_layout(a, b),
    ensures
        a.terminal() == b.terminal(),
        a.score() == b.score(),
{
    crate::board::moves_are_the_legal_ones(a);
    crate::board::moves_are_the_legal_ones(b);
    assert(a.terminal() == b.terminal()) by {
        if a.moves().len() > 0 {
            assert(a.legal(a.moves()[0]));
            assert(b.legal(a.moves()[0]));
            assert(b.moves().contains(a.moves()[0]));
        }
        if b.moves().len() > 0 {
            assert(b.legal(b.moves()[0]));
            assert(a.legal(b.moves()[0]));
            assert(a.moves().contains(b.moves()[0]));
        }
    }
    assert forall|q: (int, int)| a.open_cell(q) == b.open_cell(q) by {}
    assert forall|p: (int, int)| a.mover_claims(p) == b.mover_claims(p) by {
        if a.mover_claims(p) {
            let k = choose|k: int|
                0 <= k && #[trigger] a.within(a.mover, p, k) && !a.within(a.responder, p, k - 1);
            reach_depends_on_open_cells(a, b, a.mover, p, k);
            reach_depends_on_open_cells(a, b, a.responder, p, k - 1);
            assert(b.within(b.mover, p, k));
        }
        if b.mover_claims(p) {
            let k = choose|k: int|
                0 <= k && #[trigger] b.within(b.mover, p, k) && !b.within(b.responder, p, k - 1);
            reach_depends_on_open_cells(a, b, a.mover, p, k);
            reach_depends_on_open_cells(a, b, a.responder, p, k - 1);
            assert(a.within(a.mover, p, k));
        }
    }
    assert forall|p: (int, int)| a.responder_claims(p) == b.responder_claims(p) by {
        if a.responder_claims(p) {
            let k = choose|k: int|
                0 <= k && #[trigger] a.within(a.responder, p, k) && !a.within(a.mover, p, k);
            reach_depends_on_open_cells(a, b, a.mover, p, k);
            reach_depends_on_open_cells(a, b, a.responder, p, k);
            assert(b.within(b.responder, p, k));
        }
        if b.responder_claims(p) {
            let k = choose|k: int|
                0 <= k && #[trigger] b.within(b.responder, p, k) && !b.within(b.mover, p, k);
            reach_depends_on_open_cells(a, b, a.mover, p, k);
            reach_depends_on_open_cells(a, b, a.responder, p, k);
            assert(a.within(a.responder, p, k));
        }
    }
    assert(a.mover_territory() =~= b.mover_territory());
    assert(a.responder_territory() =~= b.responder_territory());
}

/// The mover's territory is what would be the other player's territory if
/// that player were to move, together with the cells that both reach in the
/// same number of steps.
proof fn ties_go_to_the_mover(v: BoardView)
    ensures
        v.mover_territory() == v.swapped().responder_territory().union(
            Set::new(|p: (int, int)| v.contested(p)),
        ),
        v.swapped().responder_territory().disjoint(Set::new(|p: (int, int)| v.contested(p))),
{
    let s = v.swapped();
    let ties = Set::new(|p: (int, int)| v.contested(p));
    assert forall|p: (int, int)| v.mover_claims(p) <==> (s.responder_claims(p) || v.contested(
        p,
    )) by {
        assert(s.open_cell(p) == v.open_cell(p));
        if v.mover_claims(p) {
            let k = choose|k: int|
                0 <= k && #[trigger] v.within(v.mover, p, k) && !v.within(v.responder, p, k - 1);
            let least = first_reach(v, v.mover, p, k);
            if v.within(v.responder, p, least - 1) {
                within_grows(v, v.responder, p, least - 1, k - 1);
            }
            if v.within(v.responder, p, least) {
                assert(v.contested(p));
            } else {
                swapped_reach_is_the_same(v, v.mover, p, least);
                swapped_reach_is_the_same(v, v.responder, p, least);
                assert(s.within(s.responder, p, least) && !s.within(s.mover, p, least));
            }
        }
        if s.responder_claims(p) {
            let k = choose|k: int|
                0 <= k && #[trigger] s.within(s.responder, p, k) && !s.within(s.mover, p, k);
            swapped_reach_is_the_same(v, v.mover, p, k);
            swapped_reach_is_the_same(v, v.responder, p, k);
            if v.within(v.responder, p, k - 1) {
                within_grows(v, v.responder, p, k - 1, k);
            }
            assert(v.within(v.mover, p, k) && !v.within(v.responder, p, k - 1));
        }
        if v.contested(p) {
            let k = choose|k: int|
                0 <= k && #[trigger] v.within(v.mover, p, k) && v.within(v.responder, p, k)
                    && !v.within(v.mover, p, k - 1) && !v.within(v.responder, p, k - 1);
            assert(v.within(v.mover, p, k) && !v.within(v.responder, p, k - 1));
        }
    }
    assert forall|p: (int, int)| !(s.responder_claims(p) && v.contested(p)) by {
        if s.responder_claims(p) && v.contested(p) {
            let a = choose|k: int|
                0 <= k && #[trigger] s.within(s.responder, p, k) && !s.within(s.mover, p, k);
            let b = choose|k: int|
                0 <= k && #[trigger] v.within(v.mover, p, k) && v.within(v.responder, p, k)
                    && !v.within(v.mover, p, k - 1) && !v.within(v.responder, p, k - 1);
            swapped_reach_is_the_same(v, v.mover, p, a);
            swapped_reach_is_the_same(v, v.responder, p, a);
            if a <= b - 1 {
                within_grows(v, v.mover, p, a, b - 1);
            } else {
                within_grows(v, v.responder, p, b, a);
            }
        }
    }
    assert(v.mover_territory() =~= s.responder_territory().union(ties));
}

/// An open cell is contested whichever side is to move.
proof fn contested_on_both_sides(v: BoardView, p: (int, int))
    ensures
        v.swapped().contested(p) == v.contested(p),
{
    let s = v.swapped();
    assert(s.open_cell(p) == v.open_cell(p));
    if v.contested(p) {
        let k = choose|k: int|
            0 <= k && #[trigger] v.within(v.mover, p, k) && v.within(v.responder, p, k)
                && !v.within(v.mover, p, k - 1) && !v.within(v.responder, p, k - 1);
        swapped_reach_is_the_same(v, v.mover, p, k);
        swapped_reach_is_the_same(v, v.responder, p, k);
        swapped_reach_is_the_same(v, v.mover, p, k - 1);
        swapped_reach_is_the_same(v, v.responder, p, k - 1);
        assert(s.within(s.mover, p, k));
    }
    if s.contested(p) {
        let k = choose|k: int|
            0 <= k && #[trigger] s.within(s.mover, p, k) && s.within(s.responder, p, k)
                && !s.within(s.mover, p, k - 1) && !s.within(s.responder, p, k - 1);
        swapped_reach_is_the_same(v, v.mover, p, k);
        swapped_reach_is_the_same(v, v.responder, p, k);
        swapped_reach_is_the_same(v, v.mover, p, k - 1);
        swapped_reach_is_the_same(v, v.responder, p, k - 1);
        assert(v.within(v.mover, p, k));
    }
}

/// Where both sides can move, the scores of a layout for the one side and
/// for the other add up to twice the number of contested cells: each side
/// counts those cells as its own when it is to move.
pub proof fn scores_of_both_sides_differ_by_the_ties(v: BoardView)
    requires
        v.shaped(),
        !v.terminal(),
        !v.swapped().terminal(),
    ensures
        Set::new(|p: (int, int)| v.contested(p)).finite(),
        v.score() + v.swapped().score() == 2 * Set::new(|p: (int, int)| v.contested(p)).len(),
{
    let s = v.swapped();
    let ties = Set::new(|p: (int, int)| v.contested(p));
    let other_ties = Set::new(|p: (int, int)| s.contested(p));
    score_is_bounded(v);
    score_is_bounded(s);
    ties_go_to_the_mover(v);
    ties_go_to_the_mover(s);
    assert(other_ties =~= ties) by {
        assert forall|p: (int, int)| s.contested(p) == v.contested(p) by {
            contested_on_both_sides(v, p);
        }
    }
    assert(ties.subset_of(v.mover_territory()));
    vstd::set_lib::lemma_set_subset_finite(v.mover_territory(), ties);
    assert(s.swapped().responder_territory() =~= v.responder_territory()) by {
        let back = s.swapped();
        assert forall|p: (int, int)| back.responder_claims(p) == v.responder_claims(p) by {
            assert(back.open_cell(p) == v.open_cell(p));
            if back.responder_claims(p) {
                let k = choose|k: int|
                    0 <= k && #[trigger] back.within(back.responder, p, k) && !back.within(
                        back.mover,
                        p,
                        k,
                    );
                swapped_reach_is_the_same(s, v.mover, p, k);
                swapped_reach_is_the_same(s, v.responder, p, k);
                swapped_reach_is_the_same(v, v.mover, p, k);
                swapped_reach_is_the_same(v, v.responder, p, k);
                assert(v.within(v.responder, p, k));
            }
            if v.responder_claims(p) {
                let k = choose|k: int|
                    0 <= k && #[trigger] v.within(v.responder, p, k) && !v.within(v.mover, p, k);
                swapped_reach_is_the_same(s, v.mover, p, k);
                swapped_reach_is_the_same(s, v.responder, p, k);
                swapped_reach_is_the_same(v, v.mover, p, k);
                swapped_reach_is_the_same(v, v.responder, p, k);
                assert(back.within(back.responder, p, k));
            }
        }
    }
    vstd::set_lib::lemma_set_disjoint_lens(s.responder_territory(), ties);
    vstd::set_lib::lemma_set_disjoint_lens(v.responder_territory(), ties);
}

/// Seen from the other side a layout scores the negative, where both sides
/// can move and no open cell is equally far from both players.
pub proof fn swapping_sides_negates_the_score(v: BoardView)
    requires
        v.shaped(),
        !v.terminal(),
        !v.swapped().terminal(),
        forall|p: (int, int)| !v.contested(p),
    ensures
        v.swapped().score() == -v.score(),
{
    scores_of_both_sides_differ_by_the_ties(v);
    assert(Set::new(|p: (int, int)| v.contested(p)) =~= Set::empty());
}

/// A cell that a flood fill has claimed: for which side, and after how many
/// steps from that side's own cell.
struct Entry {
    pos: (int, int),
    mine: bool,
    layer: int,
}

/// A flood fill in progress. `order` lists the claimed cells as they were
/// queued, the two players' own cells first; the entries before `head` have
/// left the queue. `mine` and `theirs` hold the open cells claimed for the
/// mover and for the other player.
struct Trace {
    order: Seq<Entry>,
    head: int,
    mine: Set<(int, int)>,
    theirs: Set<(int, int)>,
}

/// The cell from which the side of `e` started.
spec fn source(v: BoardView, e: Entry) -> (int, int) {
    if e.mine {
        v.mover
    } else {
        v.responder
    }
}

/// The cell from which the other side started.
spec fn rival(v: BoardView, e: Entry) -> (int, int) {
    if e.mine {
        v.responder
    } else {
        v.mover
    }
}

/// The entry names the nearest side and its distance: the mover wins a tie.
spec fn exact(v: BoardView, e: Entry) -> bool {
    &&& v.within(source(v, e), e.pos, e.layer)
    &&& !v.within(source(v, e), e.pos, e.layer - 1)
    &&& !v.within(
        rival(v, e),
        e.pos,
        if e.mine {
            e.layer - 1
        } else {
            e.layer
        },
    )
}

/// The queue order: by layer, and within a layer the mover's cells first.
spec fn no_later(a_layer: int, a_mine: bool, b_layer: int, b_mine: bool) -> bool {
    a_layer < b_layer || (a_layer == b_layer && (a_mine || !b_mine))
}

impl Trace {
    /// Whether the cell `p` is claimed, the players' own cells among them.
    spec fn claimed(self, p: (int, int)) -> bool {
        exists|i: int| 0 <= i < self.order.len() && (#[trigger] self.order[i]).pos == p
    }

    /// Every open neighbour of `p` is claimed.
    spec fn spread(self, v: BoardView, p: (int, int)) -> bool {
        forall|op: Operation| v.open_cell(#[trigger] shift(p, op)) ==> self.claimed(shift(p, op))
    }

    /// Every open cell within `k` steps of either player is claimed.
    spec fn layer_done(self, v: BoardView, k: int) -> bool {
        forall|p: (int, int)|
            #[trigger] v.open_cell(p) && (v.within(v.mover, p, k) || v.within(v.responder, p, k))
                ==> self.claimed(p)
    }

    /// What holds of a flood fill at every moment.
    ///
    /// The list starts with the two players' cells. Every later entry is an
    /// open cell with its nearest side and its distance. The list is in
    /// queue order. Around each entry that has left the queue every open
    /// cell is claimed. While the queue is not empty, no entry lies beyond
    /// the layer after the front's own, and every open cell within the
    /// front's distance of a player is claimed. `mine` and `theirs` hold the
    /// cells of the later entries by side.
    spec fn inv(self, v: BoardView) -> bool {
        let n = self.order.len() as int;
        &&& n >= 2
        &&& self.order[0] == (Entry { pos: v.mover, mine: true, layer: 0 })
        &&& self.order[1] == (Entry { pos: v.responder, mine: false, layer: 0 })
        &&& 0 <= self.head <= n
        &&& forall|i: int|
            2 <= i < n ==> v.open_cell((#[trigger] self.order[i]).pos) && exact(v, self.order[i])
                && self.order[i].layer >= 1
        &&& forall|i: int, j: int|
            0 <= i < j < n ==> no_later(
                (#[trigger] self.order[i]).layer,
                self.order[i].mine,
                (#[trigger] self.order[j]).layer,
                self.order[j].mine,
            )
        &&& forall|i: int| 0 <= i < self.head ==> self.spread(v, (#[trigger] self.order[i]).pos)
        &&& self.head < n ==> {
            &&& forall|j: int|
                0 <= j < n ==> no_later(
                    (#[trigger] self.order[j]).layer,
                    self.order[j].mine,
                    self.order[self.head].layer + 1,
                    self.order[self.head].mine,
                )
            &&& self.layer_done(v, self.order[self.head].layer)
        }
        &&& self.mine.finite()
        &&& self.theirs.finite()
        &&& forall|i: int|
            2 <= i < n ==> if (#[trigger] self.order[i]).mine {
                self.mine.contains(self.order[i].pos)
            } else {
                self.theirs.contains(self.order[i].pos)
            }
        &&& forall|p: (int, int)| #[trigger]
            self.mine.contains(p) ==> exists|i: int|
                2 <= i < n && (#[trigger] self.order[i]).pos == p && self.order[i].mine
        &&& forall|p: (int, int)| #[trigger]
            self.theirs.contains(p) ==> exists|i: int|
                2 <= i < n && (#[trigger] self.order[i]).pos == p && !self.order[i].mine
        &&& n == 2 + self.mine.len() + self.theirs.len()
    }

    /// The fill before its first step: only the players' own cells are
    /// claimed.
    spec fn start(v: BoardView) -> Trace {
        Trace {
            order: seq![
                Entry { pos: v.mover, mine: true, layer: 0 },
                Entry { pos: v.responder, mine: false, layer: 0 },
            ],
            head: 0,
            mine: Set::empty(),
            theirs: Set::empty(),
        }
    }

    /// The fill after the front of the queue has claimed its neighbour in
    /// direction `op`.
    spec fn claim(self, op: Operation) -> Trace {
        let x = self.order[self.head];
        let q = shift(x.pos, op);
        Trace {
            order: self.order.push(Entry { pos: q, mine: x.mine, layer: x.layer + 1 }),
            head: self.head,
            mine: if x.mine {
                self.mine.insert(q)
            } else {
                self.mine
            },
            theirs: if x.mine {
                self.theirs
            } else {
                self.theirs.insert(q)
            },
        }
    }

    /// The fill after the front of the queue has left it.
    spec fn advance(self) -> Trace {
        Trace { head: self.head + 1, ..self }
    }
}

/// A fill is in order before its first step.
proof fn start_inv(v: BoardView)
    requires
        v.shaped(),
    ensures
        Trace::start(v).inv(v),
{
    let t = Trace::start(v);
    assert(t.order.len() == 2);
    assert forall|p: (int, int)|
        #[trigger] v.open_cell(p) && (v.within(v.mover, p, 0) || v.within(v.responder, p, 0))
        implies t.claimed(p) by {}
    assert(t.layer_done(v, 0));
}

/// A longer list of claims still claims what the shorter one did.
proof fn claimed_stays(t: Trace, u: Trace, p: (int, int))
    requires
        t.claimed(p),
        t.order.len() <= u.order.len(),
        forall|i: int| 0 <= i < t.order.len() ==> #[trigger] u.order[i] == t.order[i],
    ensures
        u.claimed(p),
{
    let i = choose|i: int| 0 <= i < t.order.len() && (#[trigger] t.order[i]).pos == p;
    assert(u.order[i].pos == p);
}

/// An entry that comes strictly before the front in the queue order has
/// left the queue.
proof fn earlier_has_left(v: BoardView, t: Trace, i: int, bound: int)
    requires
        t.inv(v),
        0 <= i < t.order.len(),
        0 <= bound < t.order.len(),
        !no_later(
            t.order[bound].layer,
            t.order[bound].mine,
            t.order[i].layer,
            t.order[i].mine,
        ),
    ensures
        i < bound,
{
}

/// While the other player's cell is at the front, an open cell beside a
/// cell that the mover reaches in as many steps as the front's layer is
/// already claimed.
proof fn mover_came_first(v: BoardView, t: Trace, q: (int, int), op: Operation)
    requires
        t.inv(v),
        t.head < t.order.len(),
        !t.order[t.head].mine,
        v.open_cell(q),
        v.within(v.mover, shift(q, op), t.order[t.head].layer),
        !v.within(v.responder, q, t.order[t.head].layer),
    ensures
        t.claimed(q),
{
    let k = t.order[t.head].layer;
    let y = shift(q, op);
    assert(shift(y, op.opposite()) == q);
    within_is_source_or_open(v, v.mover, y, k);
    if y == v.mover {
        assert(t.order[0].mine);
        assert(0 < t.head);
        assert(t.spread(v, t.order[0].pos));
    } else {
        assert(v.open_cell(y));
        assert(t.claimed(y));
        let i = choose|i: int| 0 <= i < t.order.len() && (#[trigger] t.order[i]).pos == y;
        assert(i >= 2);
        let l = t.order[i].layer;
        assert(exact(v, t.order[i]));
        if t.order[i].mine {
            if l - 1 >= k {
                within_grows(v, v.mover, y, k, l - 1);
            }
            earlier_has_left(v, t, i, t.head);
            assert(t.spread(v, t.order[i].pos));
        } else {
            if l >= k {
                within_grows(v, v.mover, y, k, l);
            }
            within_extends(v, v.responder, y, op.opposite(), l);
            within_grows(v, v.responder, q, l + 1, k);
        }
    }
}

/// A fill stays in order when the front of the queue claims an open cell
/// beside it that nobody has claimed.
proof fn claim_keeps_inv(v: BoardView, t: Trace, op: Operation)
    requires
        v.shaped(),
        t.inv(v),
        t.head < t.order.len(),
        v.open_cell(shift(t.order[t.head].pos, op)),
        !t.claimed(shift(t.order[t.head].pos, op)),
    ensures
        t.claim(op).inv(v),
{
    let u = t.claim(op);
    let x = t.order[t.head];
    let q = shift(x.pos, op);
    let k = x.layer;
    let e = Entry { pos: q, mine: x.mine, layer: k + 1 };
    let n = t.order.len() as int;
    assert(u.order.len() == n + 1);
    assert(u.order[n] == e);
    assert forall|i: int| 0 <= i < n implies #[trigger] u.order[i] == t.order[i] by {}
    assert(k >= 0);
    // the front is within reach of its own side
    assert(v.within(source(v, x), x.pos, k)) by {
        if t.head >= 2 {
            assert(exact(v, t.order[t.head]));
        }
    }
    within_extends(v, source(v, x), x.pos, op, k);
    assert(!v.within(v.mover, q, k) && !v.within(v.responder, q, k));
    if !x.mine && v.within(v.mover, q, k + 1) {
        assert(v.near(v.mover, q, k));
        if v.within(v.mover, shift(q, Operation::Up), k) {
            mover_came_first(v, t, q, Operation::Up);
        } else if v.within(v.mover, shift(q, Operation::Down), k) {
            mover_came_first(v, t, q, Operation::Down);
        } else if v.within(v.mover, shift(q, Operation::Right), k) {
            mover_came_first(v, t, q, Operation::Right);
        } else {
            mover_came_first(v, t, q, Operation::Left);
        }
    }
    assert(exact(v, e));
    assert forall|p: (int, int)| t.claimed(p) implies u.claimed(p) by {
        claimed_stays(t, u, p);
    }
    assert forall|i: int| 0 <= i < u.head implies u.spread(v, (#[trigger] u.order[i]).pos) by {
        assert(t.spread(v, t.order[i].pos));
    }
    assert(u.layer_done(v, u.order[u.head].layer)) by {
        assert(t.layer_done(v, k));
    }
    assert forall|p: (int, int)| #[trigger] u.mine.contains(p) implies exists|i: int|
        2 <= i < n + 1 && (#[trigger] u.order[i]).pos == p && u.order[i].mine by {
        if t.mine.contains(p) {
            let i = choose|i: int| 2 <= i < n && (#[trigger] t.order[i]).pos == p && t.order[i].mine;
            assert(u.order[i].pos == p);
        } else {
            assert(u.order[n].pos == p);
        }
    }
    assert forall|p: (int, int)| #[trigger] u.theirs.contains(p) implies exists|i: int|
        2 <= i < n + 1 && (#[trigger] u.order[i]).pos == p && !u.order[i].mine by {
        if t.theirs.contains(p) {
            let i = choose|i: int|
                2 <= i < n && (#[trigger] t.order[i]).pos == p && !t.order[i].mine;
            assert(u.order[i].pos == p);
        } else {
            assert(u.order[n].pos == p);
        }
    }
    assert(!t.mine.contains(q) && !t.theirs.contains(q));
}

/// Once the fill moves on to the next layer, an open cell beside a cell of
/// the layer just finished is claimed.
proof fn beside_finished_layer(
    v: BoardView,
    t: Trace,
    src: (int, int),
    p: (int, int),
    op: Operation,
)
    requires
        t.inv(v),
        t.head + 1 < t.order.len(),
        t.spread(v, t.order[t.head].pos),
        t.order[t.head + 1].layer == t.order[t.head].layer + 1,
        src == v.mover || src == v.responder,
        v.open_cell(p),
        v.within(src, shift(p, op), t.order[t.head].layer),
    ensures
        t.claimed(p),
{
    let k = t.order[t.head].layer;
    let y = shift(p, op);
    assert(shift(y, op.opposite()) == p);
    within_is_source_or_open(v, src, y, k);
    if v.open_cell(y) {
        assert(t.claimed(y));
        let i = choose|i: int| 0 <= i < t.order.len() && (#[trigger] t.order[i]).pos == y;
        assert(i >= 2);
        let l = t.order[i].layer;
        assert(exact(v, t.order[i]));
        if l - 1 >= k {
            within_grows(v, src, y, k, l - 1);
        }
        earlier_has_left(v, t, i, t.head + 1);
        assert(t.spread(v, t.order[i].pos));
    } else {
        let i: int = if src == v.mover {
            0
        } else {
            1
        };
        assert(t.order[i].pos == y);
        earlier_has_left(v, t, i, t.head + 1);
        assert(t.spread(v, t.order[i].pos));
    }
}

/// A fill stays in order when the front leaves the queue with every open
/// cell around it claimed.
proof fn advance_keeps_inv(v: BoardView, t: Trace)
    requires
        t.inv(v),
        t.head < t.order.len(),
        t.spread(v, t.order[t.head].pos),
    ensures
        t.advance().inv(v),
{
    let u = t.advance();
    let n = t.order.len() as int;
    let k = t.order[t.head].layer;
    assert forall|p: (int, int)| t.claimed(p) implies u.claimed(p) by {
        claimed_stays(t, u, p);
    }
    assert forall|i: int| 0 <= i < u.head implies u.spread(v, (#[trigger] u.order[i]).pos) by {
        assert(t.spread(v, t.order[i].pos));
    }
    if u.head < n {
        let k2 = t.order[u.head].layer;
        assert(k <= k2 <= k + 1);
        assert forall|p: (int, int)|
            #[trigger] v.open_cell(p) && (v.within(v.mover, p, k2) || v.within(
                v.responder,
                p,
                k2,
            )) implies u.claimed(p) by {
            let src = if v.within(v.mover, p, k2) {
                v.mover
            } else {
                v.responder
            };
            if v.within(src, p, k) {
                assert(t.layer_done(v, k));
            } else {
                assert(k2 == k + 1);
                assert(v.near(src, p, k));
                if v.within(src, shift(p, Operation::Up), k) {
                    beside_finished_layer(v, t, src, p, Operation::Up);
                } else if v.within(src, shift(p, Operation::Down), k) {
                    beside_finished_layer(v, t, src, p, Operation::Down);
                } else if v.within(src, shift(p, Operation::Right), k) {
                    beside_finished_layer(v, t, src, p, Operation::Right);
                } else {
                    beside_finished_layer(v, t, src, p, Operation::Left);
                }
            }
        }
    }
}

/// When the queue is empty, every open cell within reach of a player is
/// claimed.
proof fn all_reached(v: BoardView, t: Trace, src: (int, int), p: (int, int), k: int)
    requires
        t.inv(v),
        t.head == t.order.len(),
        src == v.mover || src == v.responder,
        v.open_cell(p),
        v.within(src, p, k),
    ensures
        t.claimed(p),
    decreases k,
{
    if k > 0 {
        if v.within(src, p, k - 1) {
            all_reached(v, t, src, p, k - 1);
        } else {
            assert(v.near(src, p, k - 1));
            let op = if v.within(src, shift(p, Operation::Up), k - 1) {
                Operation::Up
            } else if v.within(src, shift(p, Operation::Down), k - 1) {
                Operation::Down
            } else if v.within(src, shift(p, Operation::Right), k - 1) {
                Operation::Right
            } else {
                Operation::Left
            };
            let y = shift(p, op);
            assert(shift(y, op.opposite()) == p);
            within_is_source_or_open(v, src, y, k - 1);
            if v.open_cell(y) {
                all_reached(v, t, src, y, k - 1);
                let i = choose|i: int| 0 <= i < t.order.len() && (#[trigger] t.order[i]).pos == y;
                assert(t.spread(v, t.order[i].pos));
            } else {
                let i: int = if src == v.mover {
                    0
                } else {
                    1
                };
                assert(t.spread(v, t.order[i].pos));
            }
        }
    }
}

/// When the queue is empty, the cells claimed for each side are that side's
/// territory.
proof fn finished_fill_is_territory(v: BoardView, t: Trace)
    requires
        t.inv(v),
        t.head == t.order.len(),
    ensures
        t.mine == v.mover_territory(),
        t.theirs == v.responder_territory(),
{
    let n = t.order.len() as int;
    assert forall|p: (int, int)| t.mine.contains(p) <==> v.mover_claims(p) by {
        if t.mine.contains(p) {
            let i = choose|i: int| 2 <= i < n && (#[trigger] t.order[i]).pos == p && t.order[i].mine;
            assert(exact(v, t.order[i]));
        }
        if v.mover_claims(p) {
            let k = choose|k: int|
                0 <= k && #[trigger] v.within(v.mover, p, k) && !v.within(v.responder, p, k - 1);
            all_reached(v, t, v.mover, p, k);
            let i = choose|i: int| 0 <= i < n && (#[trigger] t.order[i]).pos == p;
            assert(i >= 2);
            assert(exact(v, t.order[i]));
            if !t.order[i].mine {
                let l = t.order[i].layer;
                if l >= k {
                    within_grows(v, v.mover, p, k, l);
                }
                within_grows(v, v.responder, p, l, k - 1);
            }
        }
    }
    assert forall|p: (int, int)| t.theirs.contains(p) <==> v.responder_claims(p) by {
        if t.theirs.contains(p) {
            let i = choose|i: int|
                2 <= i < n && (#[trigger] t.order[i]).pos == p && !t.order[i].mine;
            assert(exact(v, t.order[i]));
        }
        if v.responder_claims(p) {
            let k = choose|k: int|
                0 <= k && #[trigger] v.within(v.responder, p, k) && !v.within(v.mover, p, k);
            all_reached(v, t, v.responder, p, k);
            let i = choose|i: int| 0 <= i < n && (#[trigger] t.order[i]).pos == p;
            assert(i >= 2);
            assert(exact(v, t.order[i]));
            if t.order[i].mine {
                let l = t.order[i].layer;
                if l - 1 >= k {
                    within_grows(v, v.responder, p, k, l - 1);
                }
                within_grows(v, v.mover, p, l, k);
            }
        }
    }
    assert(t.mine =~= v.mover_territory());
    assert(t.theirs =~= v.responder_territory());
}

/// A finite set of cells of a grid holds no more cells than the grid.
pub proof fn cells_fit_the_grid(s: Set<(int, int)>, h: int, w: int)
    requires
        s.finite(),
        0 <= h,
        0 <= w,
        forall|p: (int, int)| s.contains(p) ==> crate::direction::on_grid(p, h, w),
    ensures
        s.len() <= h * w,
{
    let flat = |p: (int, int)| p.0 * w + p.1;
    let image = s.map(flat);
    assert(vstd::relations::injective_on(flat, s)) by {
        assert forall|a: (int, int), b: (int, int)|
            s.contains(a) && s.contains(b) && #[trigger] flat(a) == #[trigger] flat(b) implies a
            == b by {
            assert(a.0 == b.0 && a.1 == b.1) by (nonlinear_arith)
                requires
                    a.0 * w + a.1 == b.0 * w + b.1,
                    0 <= a.1 < w,
                    0 <= b.1 < w,
            ;
        }
    }
    vstd::set_lib::lemma_map_size(s, image, flat);
    assert(0 <= h * w) by (nonlinear_arith)
        requires
            0 <= h,
            0 <= w,
    ;
    vstd::set_lib::lemma_int_range(0, h * w);
    assert(image.subset_of(vstd::set_lib::set_int_range(0, h * w))) by {
        assert forall|x: int| image.contains(x) implies 0 <= x < h * w by {
            let p = choose|p: (int, int)| s.contains(p) && flat(p) == x;
            assert(0 <= p.0 * w + p.1 < h * w) by (nonlinear_arith)
                requires
                    0 <= p.0 < h,
                    0 <= p.1 < w,
            ;
        }
    }
    vstd::set_lib::lemma_len_subset(image, vstd::set_lib::set_int_range(0, h * w));
}

/// Neither side has claimed more cells than the board holds.
proof fn claims_fit_the_board(v: BoardView, t: Trace)
    requires
        v.shaped(),
        t.inv(v),
    ensures
        t.mine.len() <= v.h * v.w,
        t.theirs.len() <= v.h * v.w,
        t.order.len() <= 2 + 2 * (v.h * v.w),
{
    let n = t.order.len() as int;
    assert forall|p: (int, int)| t.mine.contains(p) implies crate::direction::on_grid(
        p,
        v.h as int,
        v.w as int,
    ) by {
        let i = choose|i: int| 2 <= i < n && (#[trigger] t.order[i]).pos == p && t.order[i].mine;
        assert(v.open_cell(t.order[i].pos));
    }
    assert forall|p: (int, int)| t.theirs.contains(p) implies crate::direction::on_grid(
        p,
        v.h as int,
        v.w as int,
    ) by {
        let i = choose|i: int| 2 <= i < n && (#[trigger] t.order[i]).pos == p && !t.order[i].mine;
        assert(v.open_cell(t.order[i].pos));
    }
    cells_fit_the_grid(t.mine, v.h as int, v.w as int);
    cells_fit_the_grid(t.theirs, v.h as int, v.w as int);
}

/// The queue holds the entries from `from` on, each with the id of its side.
spec fn queue_holds(queue: Seq<(Position, usize)>, t: Trace, from: int, n: usize) -> bool {
    &&& queue.len() == t.order.len() - from
    &&& forall|i: int|
        0 <= i < queue.len() ==> pos_view((#[trigger] queue[i]).0) == t.order[from + i].pos && (
        queue[i].1 == n) == t.order[from + i].mine
}

/// A cell is marked just where it is claimed.
spec fn marks_hold(marks: Seq<Vec<Piece>>, t: Trace, v: BoardView) -> bool {
    &&& marks.len() == v.h
    &&& forall|i: int| 0 <= i < v.h ==> (#[trigger] marks[i])@.len() == v.w
    &&& forall|i: int, j: int|
        0 <= i < v.h && 0 <= j < v.w ==> ((#[trigger] marks[i]@[j]) != Piece::Empty <==> t.claimed(
            (i, j),
        ))
}

impl Board {
    /// The score of the position for the side to move: `-INF` where it has
    /// no legal move, else the cells that a flood fill from both players
    /// gives to the mover less those it gives to the other player.
    pub fn calc_score(&self) -> (r: i64)
        requires
            self.wf(),
        ensures
            r == self@.score(),
            self@.terminal() ==> r == -INF,
            !self@.terminal() ==> -INF < r < INF,
    {
        proof {
            score_is_bounded(self@);
        }
        if self.enumerate().len() == 0 {
            return -INF;
        }
        let h = self.height();
        let w = self.width();
        let me = self.mover();
        let opp = self.responder();
        let n = self.active();
        assert(n <= 1 ==> (n ^ 1) != n) by (bit_vector);
        let ghost v = self@;
        let ghost mut t = Trace::start(v);

        let mut bfs = blank_grid(h, w);
        bfs[me.0][me.1] = Piece::Player(n);
        bfs[opp.0][opp.1] = Piece::Player(n ^ 1);

        let mut queue: VecDeque<(Position, usize)> = VecDeque::new();
        queue.push_back((me, n));
        queue.push_back((opp, n ^ 1));

        let mut me_cnt: i64 = 1;
        let mut opp_cnt: i64 = 1;
        proof {
            start_inv(v);
            assert forall|i: int, j: int| 0 <= i < v.h && 0 <= j < v.w implies ((
            #[trigger] bfs@[i]@[j]) != Piece::Empty <==> t.claimed((i, j))) by {
                if (i, j) == v.mover {
                    assert(t.order[0].pos == (i, j));
                }
                if (i, j) == v.responder {
                    assert(t.order[1].pos == (i, j));
                }
            }
        }

        loop
            invariant
                self.wf(),
                v == self@,
                h == v.h,
                w == v.w,
                n == v.active,
                t.inv(v),
                queue_holds(queue@, t, t.head, n),
                marks_hold(bfs@, t, v),
                me_cnt == 1 + t.mine.len(),
                opp_cnt == 1 + t.theirs.len(),
            ensures
                t.inv(v),
                t.head == t.order.len(),
                me_cnt == 1 + t.mine.len(),
                opp_cnt == 1 + t.theirs.len(),
            decreases 2 * (2 + 2 * (v.h * v.w)) - t.order.len() - t.head,
        {
            let (now, p) = match queue.pop_front() {
                Some(front) => front,
                None => {
                    break;
                },
            };
            let nb = next_pos(now, h, w);
            let ghost at_front = t.order[t.head];
            let ghost head = t.head;
            let ghost claims = t.order.len();
            proof {
                claims_fit_the_board(v, t);
                neighbours_are_the_steps(pos_view(now), h as int, w as int);
            }
            let mut idx: usize = 0;
            while idx < nb.len()
                invariant
                    self.wf(),
                    v == self@,
                    h == v.h,
                    w == v.w,
                    n == v.active,
                    t.inv(v),
                    t.head == head,
                    claims <= t.order.len(),
                    t.head < t.order.len(),
                    t.order[t.head] == at_front,
                    at_front.pos == pos_view(now),
                    at_front.mine == (p == n),
                    queue_holds(queue@, t, t.head + 1, n),
                    marks_hold(bfs@, t, v),
                    me_cnt == 1 + t.mine.len(),
                    opp_cnt == 1 + t.theirs.len(),
                    idx <= nb@.len(),
                    positions_view(nb@) == neighbours(pos_view(now), h as int, w as int),
                    forall|a: int|
                        0 <= a < nb@.len() ==> v.on_board(#[trigger] positions_view(nb@)[a])
                            && exists|op: Operation|
                            positions_view(nb@)[a] == shift(pos_view(now), op),
                    forall|a: int|
                        0 <= a < idx && v.open_cell(#[trigger] positions_view(nb@)[a])
                            ==> t.claimed(positions_view(nb@)[a]),
                decreases nb@.len() - idx,
            {
                let (i, j) = nb[idx];
                let ghost q = (i as int, j as int);
                assert(positions_view(nb@)[idx as int] == q);
                assert(v.on_board(q));
                idx += 1;
                if bfs[i][j] != Piece::Empty || self.piece(i, j) != Piece::Empty {
                    continue;
                }
                proof {
                    let op = choose|op: Operation| q == shift(pos_view(now), op);
                    assert(!t.claimed(q));
                    assert(q != v.mover) by {
                        if q == v.mover {
                            assert(t.order[0].pos == q);
                        }
                    }
                    assert(q != v.responder) by {
                        if q == v.responder {
                            assert(t.order[1].pos == q);
                        }
                    }
                    assert(v.open_cell(q));
                    claim_keeps_inv(v, t, op);
                    let u = t.claim(op);
                    assert forall|c: (int, int)| u.claimed(c) <==> (t.claimed(c) || c == q) by {
                        if t.claimed(c) {
                            claimed_stays(t, u, c);
                        }
                        if c == q {
                            assert(u.order[t.order.len() as int].pos == q);
                        }
                        if u.claimed(c) && c != q {
                            let a = choose|a: int|
                                0 <= a < u.order.len() && (#[trigger] u.order[a]).pos == c;
                            assert(t.order[a].pos == c);
                        }
                    }
                    t = u;
                    claims_fit_the_board(v, t);
                }
                if p == n {
                    me_cnt += 1;
                } else {
                    opp_cnt += 1;
                }
                bfs[i][j] = Piece::Player(p);
                queue.push_back(((i, j), p));
            }
            proof {
                assert(t.spread(v, at_front.pos)) by {
                    assert forall|op: Operation|
                        v.open_cell(#[trigger] shift(at_front.pos, op)) implies t.claimed(
                        shift(at_front.pos, op),
                    ) by {
                        let c = shift(at_front.pos, op);
                        assert(positions_view(nb@).contains(c));
                        let a = choose|a: int|
                            0 <= a < positions_view(nb@).len() && positions_view(nb@)[a] == c;
                        assert(v.open_cell(positions_view(nb@)[a]));
                    }
                }
                advance_keeps_inv(v, t);
                t = t.advance();
                claims_fit_the_board(v, t);
            }
        }
        proof {
            finished_fill_is_territory(v, t);
            claims_fit_the_board(v, t);
        }
        me_cnt - opp_cnt
    }
}

} // verus!
