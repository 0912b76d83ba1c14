//! The four directions and the cells they lead to.

use vstd::prelude::*;

verus! {

/// A cell of the grid as (row, column).
pub type Position = (usize, usize);

/// One step on the grid. `Up` lowers the row, `Left` lowers the column.
#[derive(Debug, Clone, Copy, PartialEq, Eq, Structural)]
pub enum Operation {
    Up,
    Down,
    Right,
    Left,
}

impl Operation {
    /// The direction that undoes a step in this one.
    pub open spec fn opposite(self) -> Operation {
        match self {
            Operation::Up => Operation::Down,
            Operation::Down => Operation::Up,
            Operation::Right => Operation::Left,
            Operation::Left => Operation::Right,
        }
    }

    /// The change of row that one step makes.
    pub open spec fn row_delta(self) -> int {
        match self {
            Operation::Up => -1,
            Operation::Down => 1,
            Operation::Right => 0,
            Operation::Left => 0,
        }
    }

    /// The change of column that one step makes.
    pub open spec fn col_delta(self) -> int {
        match self {
            Operation::Up => 0,
            Operation::Down => 0,
            Operation::Right => 1,
            Operation::Left => -1,
        }
    }

    /// The direction that undoes a step in this one.
    pub fn reversed(self) -> (r: Operation)
        ensures
            r == self.opposite(),
    {
        match self {
            Operation::Up => Operation::Down,
            Operation::Down => Operation::Up,
            Operation::Right => Operation::Left,
            Operation::Left => Operation::Right,
        }
    }
}

/// The cell one step from `p` in direction `op`, on an unbounded grid.
pub open spec fn shift(p: (int, int), op: Operation) -> (int, int) {
    (p.0 + op.row_delta(), p.1 + op.col_delta())
}

/// Whether `p` lies on a grid of `h` rows and `w` columns.
pub open spec fn on_grid(p: (int, int), h: int, w: int) -> bool {
    0 <= p.0 < h && 0 <= p.1 < w
}

/// A position read as a pair of mathematical integers.
pub open spec fn pos_view(p: Position) -> (int, int) {
    (p.0 as int, p.1 as int)
}

/// What `next_op` returns: the shifted cell where it is on the grid.
pub open spec fn step_from(p: (int, int), op: Operation, h: int, w: int) -> Option<(int, int)> {
    if on_grid(shift(p, op), h, w) {
        Some(shift(p, op))
    } else {
        None
    }
}

/// The cell one step from `p` in direction `op` where it is on the grid,
/// as a sequence of one or no cell.
pub open spec fn neighbour(p: (int, int), op: Operation, h: int, w: int) -> Seq<(int, int)> {
    if on_grid(shift(p, op), h, w) {
        seq![shift(p, op)]
    } else {
        Seq::empty()
    }
}

/// The neighbours of `p` on the grid, in the order down, up, right, left.
pub open spec fn neighbours(p: (int, int), h: int, w: int) -> Seq<(int, int)> {
    neighbour(p, Operation::Down, h, w) + neighbour(p, Operation::Up, h, w) + neighbour(
        p,
        Operation::Right,
        h,
        w,
    ) + neighbour(p, Operation::Left, h, w)
}

/// A sequence of positions read as pairs of mathematical integers.
pub open spec fn positions_view(s: Seq<Position>) -> Seq<(int, int)> {
    s.map_values(|p: Position| pos_view(p))
}

/// The neighbours of a cell are the cells one step from it that lie on the
/// grid: each neighbour is such a cell, and each such cell is a neighbour.
pub proof fn neighbours_are_the_steps(p: (int, int), h: int, w: int)
    ensures
        forall|a: int|
            0 <= a < neighbours(p, h, w).len() ==> on_grid(#[trigger] neighbours(p, h, w)[a], h, w)
                && exists|op: Operation| neighbours(p, h, w)[a] == shift(p, op),
        forall|op: Operation|
            on_grid(#[trigger] shift(p, op), h, w) ==> neighbours(p, h, w).contains(shift(p, op)),
{
    let d = neighbour(p, Operation::Down, h, w);
    let u = neighbour(p, Operation::Up, h, w);
    let r = neighbour(p, Operation::Right, h, w);
    let l = neighbour(p, Operation::Left, h, w);
    let all = neighbours(p, h, w);
    assert(all == d + u + r + l);
    assert forall|a: int| 0 <= a < all.len() implies on_grid(#[trigger] all[a], h, w) && exists|
        op: Operation,
    |
        all[a] == shift(p, op) by {
        if a < d.len() {
            assert(all[a] == shift(p, Operation::Down));
        } else if a < d.len() + u.len() {
            assert(all[a] == shift(p, Operation::Up));
        } else if a < d.len() + u.len() + r.len() {
            assert(all[a] == shift(p, Operation::Right));
        } else {
            assert(all[a] == shift(p, Operation::Left));
        }
    }
    assert forall|op: Operation| on_grid(#[trigger] shift(p, op), h, w) implies all.contains(
        shift(p, op),
    ) by {
        match op {
            Operation::Down => {
                assert(all[0] == shift(p, op));
            },
            Operation::Up => {
                assert(all[d.len() as int] == shift(p, op));
            },
            Operation::Right => {
                assert(all[(d.len() + u.len()) as int] == shift(p, op));
            },
            Operation::Left => {
                assert(all[(d.len() + u.len() + r.len()) as int] == shift(p, op));
            },
        }
    }
}

/// The cell one step from `pos` in direction `op`, or `None` where that
/// step leaves the grid of `h` rows and `w` columns.
pub fn next_op(pos: Position, op: Operation, h: usize, w: usize) -> (r: Option<Position>)
    ensures
        step_from(pos_view(pos), op, h as int, w as int) == match r {
            Some(q) => Some(pos_view(q)),
            None => None,
        },
{
    let (i, j) = pos;
    match op {
        Operation::Up => {
            if 0 < i && i - 1 < h && j < w {
                Some((i - 1, j))
            } else {
                None
            }
        },
        Operation::Down => {
            if i < usize::MAX && i + 1 < h && j < w {
                Some((i + 1, j))
            } else {
                None
            }
        },
        Operation::Right => {
            if i < h && j < usize::MAX && j + 1 < w {
                Some((i, j + 1))
            } else {
                None
            }
        },
        Operation::Left => {
            if i < h && 0 < j && j - 1 < w {
                Some((i, j - 1))
            } else {
                None
            }
        },
    }
}

/// The cell from which a step in direction `op` arrives at `pos`, or `None`
/// where that cell is off the grid.
pub fn prev_op(pos: Position, op: Operation, h: usize, w: usize) -> (r: Option<Position>)
    ensures
        step_from(pos_view(pos), op.opposite(), h as int, w as int) == match r {
            Some(q) => Some(pos_view(q)),
            None => None,
        },
{
    next_op(pos, op.reversed(), h, w)
}

/// The neighbours of `pos` on the grid, in the order down, up, right, left.
pub fn next_pos(pos: Position, h: usize, w: usize) -> (r: Vec<Position>)
    ensures
        positions_view(r@) == neighbours(pos_view(pos), h as int, w as int),
{
    let mut r: Vec<Position> = Vec::new();
    let ghost p = pos_view(pos);
    let ghost (hh, ww) = (h as int, w as int);
    if let Some(q) = next_op(pos, Operation::Down, h, w) {
        r.push(q);
    }
    assert(positions_view(r@) =~= neighbours(p, hh, ww).take(r@.len() as int));
    if let Some(q) = next_op(pos, Operation::Up, h, w) {
        r.push(q);
    }
    assert(positions_view(r@) =~= neighbours(p, hh, ww).take(r@.len() as int));
    if let Some(q) = next_op(pos, Operation::Right, h, w) {
        r.push(q);
    }
    assert(positions_view(r@) =~= neighbours(p, hh, ww).take(r@.len() as int));
    if let Some(q) = next_op(pos, Operation::Left, h, w) {
        r.push(q);
    }
    assert(positions_view(r@) =~= neighbours(p, hh, ww));
    r
}

} // verus!
