//! Starting a game, taking turns at it and answering an encoded position.

use crate::board::{fresh_board, Board, BoardError, BoardView, INF};
use crate::direction::{on_grid, pos_view, Operation, Position};
use crate::request::Request;
use crate::search::DEPTH;
use rand::rngs::ThreadRng;
use rand::Rng;
use vstd::prelude::*;

verus! {

/// rand's handle to the random number generator of the current thread.
#[verifier::external_type_specification]
#[verifier::external_body]
pub struct ExThreadRng(ThreadRng);

/// A handle to the random number generator of the current thread.
///
/// Trusted: `ThreadRng::default()` of rand. Nothing is claimed of the
/// handle. On its first use in a thread rand seeds the generator from the
/// operating system and panics where the system has no randomness to give.
#[verifier::external_body]
fn thread_rng() -> (rng: ThreadRng) {
    ThreadRng::default()
}

/// A random number from `low` up to but not including `high`.
///
/// Trusted: `Rng::gen_range` of rand on the range `low..high`. It panics on
/// an empty range, which `requires` leaves out, and returns a value of the
/// range; which one is not said.
#[verifier::external_body]
fn random_below(rng: &mut ThreadRng, low: usize, high: usize) -> (r: usize)
    requires
        low < high,
    ensures
        low <= r < high,
{
    rng.gen_range(low..high)
}

/// Whose turn it is in a game of a human, with id 0, against the machine.
#[derive(Debug, Clone, Copy, PartialEq, Eq, Structural)]
pub enum Turn {
    /// The human is to move.
    Human,
    /// The machine is to move.
    Machine,
    /// The side to move cannot move and has lost.
    Over,
}

/// What the console does next in a game of a human against the machine.
#[derive(Debug, Clone, Copy, PartialEq, Eq, Structural)]
pub enum Step {
    /// It is the human's turn and no key has come: ask for one.
    Ask,
    /// The key stands for no move: say so and ask again.
    Unknown,
    /// The human's move was refused: say so and ask again.
    Refused(BoardError),
    /// This move was played, by the human or by the machine: show the
    /// board.
    Moved(Operation),
    /// The player with this id cannot move and has lost: the game is over.
    Lost(usize),
}

/// The depth to which the machine searches in a console game.
pub const CONSOLE_DEPTH: usize = 15;

/// A game can start on a grid of fewer than `INF` cells with the two
/// players on different cells of it.
pub open spec fn can_start(h: usize, w: usize, me: Position, opp: Position) -> bool {
    &&& on_grid(pos_view(me), h as int, w as int)
    &&& on_grid(pos_view(opp), h as int, w as int)
    &&& me != opp
    &&& h * w < INF
}

/// The move that a key stands for: `w` up, `s` down, `d` right, `a` left.
pub open spec fn key_meaning(key: char) -> Option<Operation> {
    if key == 'w' {
        Some(Operation::Up)
    } else if key == 's' {
        Some(Operation::Down)
    } else if key == 'd' {
        Some(Operation::Right)
    } else if key == 'a' {
        Some(Operation::Left)
    } else {
        None
    }
}

/// The move that a key stands for, or `None` for any other key.
pub fn key_move(key: char) -> (r: Option<Operation>)
    ensures
        r == key_meaning(key),
{
    match key {
        'w' => Some(Operation::Up),
        's' => Some(Operation::Down),
        'd' => Some(Operation::Right),
        'a' => Some(Operation::Left),
        _ => None,
    }
}

impl BoardView {
    /// Whose turn it is: nobody's where the side to move has lost, else the
    /// human's where the active id is 0.
    pub open spec fn turn(self) -> Turn {
        if self.terminal() {
            Turn::Over
        } else if self.active == 0 {
            Turn::Human
        } else {
            Turn::Machine
        }
    }
}

impl BoardView {
    /// What the console does next, given the key that the human typed, if
    /// any. A lost game is over whatever was typed; the machine moves
    /// without a key; the human's key is read, and its move is tried.
    pub open spec fn console_step(self, key: Option<char>) -> Step {
        match self.turn() {
            Turn::Over => Step::Lost(self.active as usize),
            Turn::Machine => Step::Moved(self.best_move(CONSOLE_DEPTH as nat).unwrap()),
            Turn::Human => match key {
                None => Step::Ask,
                Some(c) => match key_meaning(c) {
                    None => Step::Unknown,
                    Some(op) => match self.verdict(op) {
                        Ok(_) => Step::Moved(op),
                        Err(e) => Step::Refused(e),
                    },
                },
            },
        }
    }

    /// The board after that step: changed by the move where one was played.
    pub open spec fn console_next(self, key: Option<char>) -> BoardView {
        match self.console_step(key) {
            Step::Moved(op) => self.step(op),
            _ => self,
        }
    }
}

/// One step of a console game of a human, with id 0, against the machine:
/// from the board and the key that the human typed, if any, to the board
/// after the step and what the console does next.
pub fn cui(board: &mut Board, key: Option<char>) -> (s: Step)
    requires
        old(board).wf(),
    ensures
        final(board).wf(),
        s == old(board)@.console_step(key),
        final(board)@ == old(board)@.console_next(key),
{
    match board.turn() {
        Turn::Over => Step::Lost(board.active()),
        Turn::Machine => {
            match board.min_max(CONSOLE_DEPTH) {
                Some(op) => {
                    board.operate(op).unwrap();
                    Step::Moved(op)
                },
                None => vstd::pervasive::unreached(),
            }
        },
        Turn::Human => {
            match key {
                None => Step::Ask,
                Some(c) => {
                    match key_move(c) {
                        None => Step::Unknown,
                        Some(op) => {
                            match board.operate(op) {
                                Ok(_) => Step::Moved(op),
                                Err(e) => Step::Refused(e),
                            }
                        },
                    }
                },
            }
        },
    }
}

impl Board {
    /// A fresh board with the mover, whose id is 0, on `me` and the other
    /// player on `opp`, or `None` where no game can start so.
    pub fn start(h: usize, w: usize, me: Position, opp: Position) -> (r: Option<Board>)
        ensures
            match r {
                Some(b) => can_start(h, w, me, opp) && b.wf() && b@ == fresh_board(
                    h as nat,
                    w as nat,
                    pos_view(me),
                    pos_view(opp),
                    0,
                ),
                None => !can_start(h, w, me, opp),
            },
    {
        if me.0 >= h || me.1 >= w || opp.0 >= h || opp.1 >= w {
            return None;
        }
        if me.0 == opp.0 && me.1 == opp.1 {
            return None;
        }
        assert(h * w <= u128::MAX) by (nonlinear_arith)
            requires
                h <= u64::MAX,
                w <= u64::MAX,
        ;
        if (h as u128) * (w as u128) >= INF as u128 {
            return None;
        }
        Some(Board::new(h, w, me, opp, 0))
    }

    /// A fresh board of random size, from 7 to 15 rows and columns, with
    /// the two players on random cells off the border, or `None` where both
    /// fell on the same cell.
    pub fn random_start() -> (r: Option<Board>)
        ensures
            r matches Some(b) ==> {
                &&& b.wf()
                &&& 7 <= b@.h <= 15
                &&& 7 <= b@.w <= 15
                &&& 1 <= b@.mover.0 <= b@.h - 2
                &&& 1 <= b@.mover.1 <= b@.w - 2
                &&& 1 <= b@.responder.0 <= b@.h - 2
                &&& 1 <= b@.responder.1 <= b@.w - 2
                &&& b@.mover != b@.responder
                &&& b@ == fresh_board(b@.h, b@.w, b@.mover, b@.responder, 0)
            },
    {
        let mut rng = thread_rng();
        let h = random_below(&mut rng, 7, 16);
        let w = random_below(&mut rng, 7, 16);
        let me = (random_below(&mut rng, 1, h - 1), random_below(&mut rng, 1, w - 1));
        let opp = (random_below(&mut rng, 1, h - 1), random_below(&mut rng, 1, w - 1));
        Board::start(h, w, me, opp)
    }

    /// Whose turn it is.
    pub fn turn(&self) -> (t: Turn)
        requires
            self.wf(),
        ensures
            t == self@.turn(),
    {
        if self.enumerate().len() == 0 {
            Turn::Over
        } else if self.active() == 0 {
            Turn::Human
        } else {
            Turn::Machine
        }
    }
}

/// The machine's answer to an encoded position after a search of `DEPTH`
/// plies: its move, or `None` where it has lost. A malformed encoding is
/// refused.
pub fn ai_response(req: Request) -> (r: Result<Option<Operation>, BoardError>)
    ensures
        match r {
            Ok(m) => req.valid() && m == req.decoded().best_move(DEPTH as nat),
            Err(e) => !req.valid() && e == BoardError::InvalidRequest,
        },
{
    match Board::from_request(req) {
        Ok(board) => Ok(board.min_max(DEPTH)),
        Err(e) => Err(e),
    }
}

} // verus!
