//! The search: depth-bounded negamax with alpha-beta pruning below the root,
//! and the choice of the best root move.

use crate::board::{apply_then_undo_restores, moves_are_the_legal_ones, Board, BoardView, INF};
use crate::direction::Operation;
use crate::territory::{same_layout, score_depends_on_the_layout, score_is_bounded};
use rayon::iter::{IntoParallelRefIterator, ParallelIterator};
use vstd::prelude::*;

verus! {

/// The depth to which a position is searched where the caller names none.
pub const DEPTH: usize = 10;

/// The greater of two values.
pub open spec fn higher(a: int, b: int) -> int {
    if a >= b {
        a
    } else {
        b
    }
}

impl BoardView {
    /// The value of playing `op` for the side to move where the position
    /// after it is searched `plies` deep in full: what the opponent then
    /// has, negated.
    pub open spec fn branch(self, op: Operation, plies: nat) -> int
        decreases plies, 1int, 0int,
    {
        -self.step(op).negamax(plies)
    }

    /// The best value among the first `k` legal moves.
    pub open spec fn best_branch(self, plies: nat, k: int) -> int
        decreases plies, 2int, k,
    {
        if k <= 1 {
            self.branch(self.moves()[0], plies)
        } else {
            higher(self.best_branch(plies, k - 1), self.branch(self.moves()[k - 1], plies))
        }
    }

    /// The value of the position for the side to move by full-width
    /// negamax: the score at depth 0 or where no move is left, else the best
    /// value among all legal moves.
    pub open spec fn negamax(self, depth: nat) -> int
        decreases depth, 0int, 0int,
    {
        if depth == 0 || self.terminal() {
            self.score()
        } else {
            self.best_branch((depth - 1) as nat, self.moves().len() as int)
        }
    }

    /// What the pruned search returns for the moves from the `i`-th on, with
    /// `alpha` the best value so far and `plies` the depth below each move:
    /// it stops at the first value above `beta`.
    pub open spec fn alpha_beta_from(self, plies: nat, i: int, alpha: int, beta: int) -> int
        decreases plies, 1int, self.moves().len() - i,
    {
        if i < 0 || i >= self.moves().len() {
            alpha
        } else {
            let value = -self.step(self.moves()[i]).alpha_beta(plies, -beta, -alpha);
            let best = higher(alpha, value);
            if best > beta {
                best
            } else {
                self.alpha_beta_from(plies, i + 1, best, beta)
            }
        }
    }

    /// What the pruned search returns for the window from `alpha` to
    /// `beta`: the score at depth 0 or where no move is left, else the best
    /// value found before the search stops.
    pub open spec fn alpha_beta(self, depth: nat, alpha: int, beta: int) -> int
        decreases depth, 0int, 0int,
    {
        if depth == 0 || self.terminal() {
            self.score()
        } else {
            self.alpha_beta_from((depth - 1) as nat, 0, alpha, beta)
        }
    }

    /// The values of the legal moves in their order, each by full-width
    /// negamax `plies` deep below the move.
    pub open spec fn branch_values(self, plies: nat) -> Seq<int> {
        Seq::new(self.moves().len(), |i: int| self.branch(self.moves()[i], plies))
    }

    /// The value of playing `op` as the pruned search finds it with the
    /// full window, `plies` deep below the move.
    pub open spec fn pruned_branch(self, op: Operation, plies: nat) -> int {
        -self.step(op).alpha_beta(plies, -INF as int, INF as int)
    }

    /// The values of the legal moves in their order as the pruned search
    /// finds them.
    pub open spec fn pruned_values(self, plies: nat) -> Seq<int> {
        Seq::new(self.moves().len(), |i: int| self.pruned_branch(self.moves()[i], plies))
    }

    /// The move picked by the values of the legal moves: none where the
    /// side to move has lost, else the move of the highest value, the later
    /// one in the order of the moves among equals.
    pub open spec fn choice(self, values: Seq<int>) -> Option<Operation> {
        if self.terminal() {
            None
        } else {
            Some(self.moves()[last_best(values, self.moves().len() as int)])
        }
    }

    /// The move that full-width negamax picks in a search of `depth` plies,
    /// at least one.
    pub open spec fn best_move(self, depth: nat) -> Option<Operation> {
        self.choice(self.branch_values((depth - 1) as nat))
    }

    /// The move that the search with pruning below the root picks in a
    /// search of `depth` plies, at least one.
    pub open spec fn pruned_move(self, depth: nat) -> Option<Operation> {
        self.choice(self.pruned_values((depth - 1) as nat))
    }
}

/// The index of the highest among the first `k` values, the later one of
/// two equal values.
pub open spec fn last_best(values: Seq<int>, k: int) -> int
    decreases k,
{
    if k <= 1 {
        0
    } else if values[k - 1] >= values[last_best(values, k - 1)] {
        k - 1
    } else {
        last_best(values, k - 1)
    }
}

/// The value of a position lies between `-INF` and `INF`.
pub proof fn negamax_is_bounded(v: BoardView, depth: nat)
    requires
        v.wf(),
    ensures
        -INF <= v.negamax(depth) <= INF,
    decreases depth, 1int, 0int,
{
    score_is_bounded(v);
    if depth > 0 && !v.terminal() {
        best_branch_is_bounded(v, (depth - 1) as nat, v.moves().len() as int);
    }
}

proof fn best_branch_is_bounded(v: BoardView, plies: nat, k: int)
    requires
        v.wf(),
        1 <= k <= v.moves().len(),
    ensures
        -INF <= v.best_branch(plies, k) <= INF,
    decreases plies + 1, 0int, k,
{
    moves_are_the_legal_ones(v);
    let op = v.moves()[k - 1];
    assert(v.legal(op));
    apply_then_undo_restores(v, op);
    negamax_is_bounded(v.step(op), plies);
    assert(v.branch(op, plies) == -v.step(op).negamax(plies));
    if k > 1 {
        best_branch_is_bounded(v, plies, k - 1);
    }
}

/// The best of a window's lower end and the first `k` branches.
spec fn running_best(v: BoardView, plies: nat, base: int, k: int) -> int {
    if k <= 0 {
        base
    } else {
        higher(base, v.best_branch(plies, k))
    }
}

proof fn running_best_grows(v: BoardView, plies: nat, base: int, i: int, j: int)
    requires
        0 <= i <= j,
    ensures
        running_best(v, plies, base, i) <= running_best(v, plies, base, j),
    decreases j - i,
{
    if i < j {
        running_best_grows(v, plies, base, i, j - 1);
    }
}

/// Pruning changes no value that matters: where the full-width value lies
/// within the window, the pruned search returns it; where it lies at or
/// below the window, the pruned search returns no more than `alpha`; where
/// it lies at or above, no less than `beta`.
pub proof fn pruning_keeps_the_value(v: BoardView, depth: nat, alpha: int, beta: int)
    requires
        v.wf(),
        alpha <= beta,
    ensures
        alpha <= v.negamax(depth) <= beta ==> v.alpha_beta(depth, alpha, beta) == v.negamax(depth),
        v.negamax(depth) <= alpha ==> v.alpha_beta(depth, alpha, beta) <= alpha,
        v.negamax(depth) >= beta ==> v.alpha_beta(depth, alpha, beta) >= beta,
    decreases depth, 1int, 0int,
{
    if depth > 0 && !v.terminal() {
        pruning_keeps_the_rest(v, (depth - 1) as nat, 0, alpha, alpha, beta);
    }
}

proof fn pruning_keeps_the_rest(
    v: BoardView,
    plies: nat,
    i: int,
    best: int,
    alpha: int,
    beta: int,
)
    requires
        v.wf(),
        0 <= i <= v.moves().len(),
        best <= beta,
        running_best(v, plies, alpha, i) <= beta ==> best == running_best(v, plies, alpha, i),
        running_best(v, plies, alpha, i) >= beta ==> best >= beta,
    ensures
        ({
            let all = running_best(v, plies, alpha, v.moves().len() as int);
            let r = v.alpha_beta_from(plies, i, best, beta);
            &&& all <= beta ==> r == all
            &&& all >= beta ==> r >= beta
        }),
    decreases plies + 1, 0int, v.moves().len() - i,
{
    let n = v.moves().len() as int;
    if i < n {
        moves_are_the_legal_ones(v);
        let op = v.moves()[i];
        assert(v.legal(op));
        apply_then_undo_restores(v, op);
        let child = v.step(op);
        pruning_keeps_the_value(child, plies, -beta, -best);
        let value = -child.alpha_beta(plies, -beta, -best);
        let next = higher(best, value);
        assert(v.branch(op, plies) == -child.negamax(plies));
        assert(running_best(v, plies, alpha, i + 1) == higher(
            running_best(v, plies, alpha, i),
            v.branch(op, plies),
        ));
        if next > beta {
            running_best_grows(v, plies, alpha, i + 1, n);
        } else {
            pruning_keeps_the_rest(v, plies, i + 1, next, alpha, beta);
        }
    }
}

/// A search with the full window returns the full-width negamax value.
pub proof fn full_window_is_negamax(v: BoardView, depth: nat)
    requires
        v.wf(),
    ensures
        v.alpha_beta(depth, -INF as int, INF as int) == v.negamax(depth),
{
    negamax_is_bounded(v, depth);
    pruning_keeps_the_value(v, depth, -INF as int, INF as int);
}

/// The best value among the first `k` moves is the value of one of them,
/// and none of them has a higher value.
proof fn best_branch_is_the_highest(v: BoardView, plies: nat, k: int)
    requires
        1 <= k <= v.moves().len(),
    ensures
        forall|j: int|
            0 <= j < k ==> v.branch(#[trigger] v.moves()[j], plies) <= v.best_branch(plies, k),
        exists|j: int|
            0 <= j < k && v.branch(#[trigger] v.moves()[j], plies) == v.best_branch(plies, k),
    decreases k,
{
    if k > 1 {
        best_branch_is_the_highest(v, plies, k - 1);
        let j = choose|j: int|
            0 <= j < k - 1 && v.branch(#[trigger] v.moves()[j], plies) == v.best_branch(
                plies,
                k - 1,
            );
        if v.best_branch(plies, k) == v.best_branch(plies, k - 1) {
            assert(v.branch(v.moves()[j], plies) == v.best_branch(plies, k));
        } else {
            assert(v.branch(v.moves()[k - 1], plies) == v.best_branch(plies, k));
        }
    } else {
        assert(v.branch(v.moves()[0], plies) == v.best_branch(plies, k));
    }
}

/// The order in which the moves are tried changes no value: the full-width
/// value of a position depends on the layout alone, not on the moves that
/// led to it.
pub proof fn value_depends_on_the_layout(a: BoardView, b: BoardView, depth: nat)
    requires
        same_layout(a, b),
    ensures
        a.negamax(depth) == b.negamax(depth),
    decreases depth,
{
    score_depends_on_the_layout(a, b);
    if depth > 0 && !a.terminal() {
        let plies = (depth - 1) as nat;
        moves_are_the_legal_ones(a);
        moves_are_the_legal_ones(b);
        let na = a.moves().len() as int;
        let nb = b.moves().len() as int;
        best_branch_is_the_highest(a, plies, na);
        best_branch_is_the_highest(b, plies, nb);
        assert forall|op: Operation| a.legal(op) implies a.branch(op, plies) == b.branch(
            op,
            plies,
        ) by {
            assert(a.step(op).grid == b.step(op).grid);
            value_depends_on_the_layout(a.step(op), b.step(op), plies);
        }
        let ja = choose|j: int|
            0 <= j < na && a.branch(#[trigger] a.moves()[j], plies) == a.best_branch(plies, na);
        let jb = choose|j: int|
            0 <= j < nb && b.branch(#[trigger] b.moves()[j], plies) == b.best_branch(plies, nb);
        assert(a.legal(a.moves()[ja]) && b.legal(a.moves()[ja]));
        assert(b.moves().contains(a.moves()[ja]));
        let ia = choose|i: int| 0 <= i < nb && b.moves()[i] == a.moves()[ja];
        assert(b.branch(b.moves()[ia], plies) <= b.best_branch(plies, nb));
        assert(b.legal(b.moves()[jb]) && a.legal(b.moves()[jb]));
        assert(a.moves().contains(b.moves()[jb]));
        let ib = choose|i: int| 0 <= i < na && a.moves()[i] == b.moves()[jb];
        assert(a.branch(a.moves()[ib], plies) <= a.best_branch(plies, na));
    }
}

/// The pruned search finds for each move the value that full-width negamax
/// gives it. So the move chosen with pruning is the move chosen without: for
/// any depth, pruning changes how much is searched and not what is chosen.
pub proof fn pruned_choice_is_the_full_width_choice(v: BoardView, depth: nat)
    requires
        v.wf(),
        depth >= 1,
    ensures
        v.pruned_values((depth - 1) as nat) == v.branch_values((depth - 1) as nat),
        v.pruned_move(depth) == v.best_move(depth),
{
    let plies = (depth - 1) as nat;
    moves_are_the_legal_ones(v);
    assert forall|i: int| 0 <= i < v.moves().len() implies v.pruned_values(plies)[i]
        == v.branch_values(plies)[i] by {
        let op = v.moves()[i];
        assert(v.legal(op));
        apply_then_undo_restores(v, op);
        full_window_is_negamax(v.step(op), plies);
    }
    assert(v.pruned_values(plies) =~= v.branch_values(plies));
}

/// The chosen move is legal and no legal move has a higher value.
pub proof fn best_move_is_best(v: BoardView, depth: nat)
    requires
        v.wf(),
        depth >= 1,
    ensures
        v.best_move(depth) is None <==> v.terminal(),
        v.best_move(depth) matches Some(m) ==> v.legal(m) && forall|op: Operation|
            v.legal(op) ==> v.branch(op, (depth - 1) as nat) <= v.branch(m, (depth - 1) as nat),
{
    moves_are_the_legal_ones(v);
    if !v.terminal() {
        let n = v.moves().len() as int;
        let plies = (depth - 1) as nat;
        let values = v.branch_values(plies);
        last_best_is_best(values, n);
        let m = v.moves()[last_best(values, n)];
        assert forall|op: Operation| v.legal(op) implies v.branch(op, plies) <= v.branch(
            m,
            plies,
        ) by {
            assert(v.moves().contains(op));
            let j = choose|j: int| 0 <= j < n && v.moves()[j] == op;
            assert(values[j] <= values[last_best(values, n)]);
        }
    }
}

/// The index picked is one of the first `k` and no value among them is
/// higher than the one picked.
pub proof fn last_best_is_best(values: Seq<int>, k: int)
    requires
        1 <= k <= values.len(),
    ensures
        0 <= last_best(values, k) < k,
        forall|j: int| 0 <= j < k ==> #[trigger] values[j] <= values[last_best(values, k)],
    decreases k,
{
    if k > 1 {
        last_best_is_best(values, k - 1);
    }
}

impl Board {
    /// The value of the position for the side to move, searched `depth`
    /// plies deep within the window from `alpha` to `beta`: the full-width
    /// negamax value where that lies within the window. The board is the
    /// same after the search as before.
    pub fn min_max_sub(&mut self, depth: usize, alpha: i64, beta: i64) -> (r: i64)
        requires
            old(self).wf(),
            -INF <= alpha <= INF,
            -INF <= beta <= INF,
        ensures
            final(self).wf(),
            final(self)@ == old(self)@,
            r == old(self)@.alpha_beta(depth as nat, alpha as int, beta as int),
            -INF <= r <= INF,
            alpha <= old(self)@.negamax(depth as nat) <= beta ==> r == old(self)@.negamax(
                depth as nat,
            ),
        decreases depth,
    {
        proof {
            if alpha <= beta {
                pruning_keeps_the_value(self@, depth as nat, alpha as int, beta as int);
            }
        }
        let moves = self.enumerate();
        if depth == 0 || moves.len() == 0 {
            return self.calc_score();
        }
        let ghost v = self@;
        let mut best = alpha;
        let mut i: usize = 0;
        while i < moves.len()
            invariant
                self.wf(),
                self@ == v,
                v == old(self)@,
                moves@ == v.moves(),
                depth > 0,
                i <= moves@.len(),
                -INF <= best <= INF,
                -INF <= beta <= INF,
                forall|j: int| 0 <= j < moves@.len() ==> v.legal(#[trigger] moves@[j]),
                v.alpha_beta_from((depth - 1) as nat, i as int, best as int, beta as int)
                    == v.alpha_beta(depth as nat, alpha as int, beta as int),
                alpha <= v.negamax(depth as nat) <= beta ==> v.alpha_beta(
                    depth as nat,
                    alpha as int,
                    beta as int,
                ) == v.negamax(depth as nat),
            decreases moves@.len() - i,
        {
            let op = moves[i];
            proof {
                apply_then_undo_restores(v, op);
            }
            self.operate(op).unwrap();
            let score = -self.min_max_sub(depth - 1, -beta, -best);
            self.rollback().unwrap();
            if score > best {
                best = score;
            }
            if best > beta {
                return best;
            }
            i += 1;
        }
        best
    }

    /// The value of playing the legal move `op` in a search of `depth`
    /// plies, this move among them, made on a copy of the board.
    pub fn branch_value(&self, op: Operation, depth: usize) -> (r: i64)
        requires
            self.wf(),
            self@.legal(op),
            depth >= 1,
        ensures
            r == self@.pruned_branch(op, (depth - 1) as nat),
            r == self@.branch(op, (depth - 1) as nat),
    {
        let mut state = self.clone();
        proof {
            apply_then_undo_restores(self@, op);
            full_window_is_negamax(self@.step(op), (depth - 1) as nat);
        }
        state.operate(op).unwrap();
        -state.min_max_sub(depth - 1, -INF, INF)
    }

    /// The move to play after a search of `depth` plies, or `None` where the
    /// side to move has no legal move and so has lost. Each root move is
    /// searched on a copy of the board, all of them side by side. The move
    /// is the one that full-width negamax picks: legal, of the highest
    /// value, and the later one in the order of the moves among equals.
    pub fn min_max(&self, depth: usize) -> (r: Option<Operation>)
        requires
            self.wf(),
            depth >= 1,
        ensures
            r == self@.pruned_move(depth as nat),
            r == self@.best_move(depth as nat),
            r is None <==> self@.terminal(),
            r matches Some(m) ==> self@.legal(m) && forall|op: Operation|
                self@.legal(op) ==> self@.branch(op, (depth - 1) as nat) <= self@.branch(
                    m,
                    (depth - 1) as nat,
                ),
    {
        let moves = self.enumerate();
        let ghost values_of = self@.branch_values((depth - 1) as nat);
        proof {
            best_move_is_best(self@, depth as nat);
            pruned_choice_is_the_full_width_choice(self@, depth as nat);
        }
        if moves.len() == 0 {
            return None;
        }
        let values = branch_values(self, &moves, depth);
        let mut best: usize = 0;
        let mut k: usize = 1;
        while k < moves.len()
            invariant
                1 <= k <= moves@.len(),
                values@.len() == moves@.len(),
                values_of.len() == moves@.len(),
                forall|j: int| 0 <= j < moves@.len() ==> #[trigger] values@[j] == values_of[j],
                best == last_best(values_of, k as int),
                0 <= best < k,
            decreases moves@.len() - k,
        {
            if values[k] >= values[best] {
                best = k;
            }
            k += 1;
        }
        Some(moves[best])
    }
}

/// The values of the root moves, each searched on its own copy of the
/// board, side by side on rayon's thread pool.
///
/// Trusted: rayon's `par_iter().map(..).collect()` on a `Vec` calls the
/// closure once for each item and returns the results in the order of the
/// items. The closure calls `branch_value`, whose contract gives each
/// result. rayon starts its pool of threads on first use and panics where
/// the system lets it start none.
#[verifier::external_body]
fn branch_values(board: &Board, moves: &Vec<Operation>, depth: usize) -> (values: Vec<i64>)
    requires
        board.wf(),
        depth >= 1,
        forall|j: int| 0 <= j < moves@.len() ==> board@.legal(#[trigger] moves@[j]),
    ensures
        values@.len() == moves@.len(),
        forall|j: int|
            0 <= j < moves@.len() ==> #[trigger] values@[j] == board@.branch(
                moves@[j],
                (depth - 1) as nat,
            ),
{
    moves.par_iter().map(|op| board.branch_value(*op, depth)).collect()
}

} // verus!
