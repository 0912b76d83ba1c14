//! A position as a collaborator sends it: the size of the grid, where the
//! two players stand and one number for each cell.

use crate::board::{BoardView, Piece, INF};
use vstd::prelude::*;

verus! {

/// A column `x` and a row `y`.
#[derive(Debug, Clone)]
pub struct Point {
    pub x: usize,
    pub y: usize,
}

/// An encoded position. `size` gives the width as `x` and the height as
/// `y`; `board` lists the cells row by row, -1 for an empty cell and 0 or 1
/// for the trail of that player.
#[derive(Debug, Clone)]
pub struct Request {
    pub size: Point,
    pub player_pos: Point,
    pub ai_pos: Point,
    pub board: Vec<isize>,
}

/// The cell that a well formed code stands for.
pub open spec fn decode(code: isize) -> Piece {
    if code == 0 {
        Piece::Player(0)
    } else if code == 1 {
        Piece::Player(1)
    } else {
        Piece::Empty
    }
}

impl Request {
    /// An encoding is valid where the list has one code for each cell, each
    /// of them -1, 0 or 1, the grid has fewer than `INF` cells and both
    /// players stand on it.
    pub open spec fn valid(&self) -> bool {
        &&& self.board@.len() == self.size.y * self.size.x
        &&& self.size.y * self.size.x < INF
        &&& self.player_pos.y < self.size.y
        &&& self.player_pos.x < self.size.x
        &&& self.ai_pos.y < self.size.y
        &&& self.ai_pos.x < self.size.x
        &&& forall|k: int| 0 <= k < self.board@.len() ==> -1 <= #[trigger] self.board@[k] <= 1
    }

    /// The board that a valid encoding stands for: the machine is to move
    /// with id 1, the requesting player moved last, and nothing is logged.
    pub open spec fn decoded(&self) -> BoardView {
        BoardView {
            h: self.size.y as nat,
            w: self.size.x as nat,
            grid: Seq::new(
                self.size.y as nat,
                |i: int|
                    Seq::new(self.size.x as nat, |j: int| decode(self.board@[i * self.size.x + j])),
            ),
            mover: (self.ai_pos.y as int, self.ai_pos.x as int),
            responder: (self.player_pos.y as int, self.player_pos.x as int),
            active: 1,
            log: Seq::empty(),
        }
    }
}

} // verus!
