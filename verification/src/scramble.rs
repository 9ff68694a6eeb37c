//! The random solvable-instance generator: a bounded random walk of
//! legal slides away from the goal board.

use vstd::prelude::*;
use crate::direction::Direction;
use crate::state::{
    board_ok, has_value, is_goal, lemma_div_below, lemma_replay_snoc, manhattan, State,
    StateModel, MAX_SIDE,
};

verus! {

/// The model of the solved board on an R x C grid: value `i` at index
/// `i`, the slot at the top-left corner, no moves taken.
pub open spec fn goal_model(rows: int, cols: int) -> StateModel {
    let board = Seq::new((rows * cols) as nat, |i: int| i as usize);
    StateModel {
        board,
        rows,
        cols,
        slot: 0,
        moves: Seq::<Direction>::empty(),
        cost: manhattan(board, cols),
    }
}

/// The solved board is well-formed and is the goal arrangement, so a
/// state that replays from it is solvable by construction.
pub proof fn lemma_goal_model_is_goal(rows: int, cols: int)
    requires
        1 <= rows <= MAX_SIDE,
        1 <= cols <= MAX_SIDE,
    ensures
        goal_model(rows, cols).wf(),
        is_goal(goal_model(rows, cols).board),
{
    let g = goal_model(rows, cols);
    assert(rows * cols >= 1) by (nonlinear_arith)
        requires
            rows >= 1,
            cols >= 1,
    ;
    assert(rows * cols <= 65025) by (nonlinear_arith)
        requires
            1 <= rows <= 255,
            1 <= cols <= 255,
    ;
    assert forall|v: int| 0 <= v < g.board.len() implies #[trigger] has_value(g.board, v) by {
        assert(g.board[v] == v);
    }
    crate::state::lemma_final_iff_zero_cost(StateModel { cost: manhattan(g.board, cols), ..g });
}

/// Relies on rand::random_range: a uniform draw from `0..n`, which is
/// non-empty for `n >= 1`, yields a value below `n`.
#[verifier::external_body]
fn random_below(n: usize) -> (r: usize)
    requires
        n >= 1,
    ensures
        r < n,
{
    rand::random_range(0..n)
}

/// Whether direction `d` may be taken when `forbidden` names the slide
/// that would undo the previous one.
fn dir_allowed(forbidden: Option<Direction>, d: Direction) -> (r: bool)
    ensures
        r == match forbidden {
            Option::Some(f) => d != f,
            Option::None => true,
        },
{
    match forbidden {
        Option::Some(f) => !(d == f),
        Option::None => true,
    }
}

impl State {
    /// Produces a random solvable instance: starting from the goal
    /// board, performs `amount` random legal slides, at each step
    /// excluding the slide that would undo the previous one. The result
    /// is reachable from the goal by construction, and its move path
    /// records the scramble.
    ///
    /// Degenerate grids cannot always continue such a walk: on a single
    /// row or column the walk is forced into a corner, so `amount` must
    /// stay below the longer side there.
    pub fn generate_random(rows: usize, cols: usize, amount: usize) -> (r: State)
        requires
            1 <= rows <= MAX_SIDE,
            1 <= cols <= MAX_SIDE,
            amount > 0 ==> (rows >= 2 && cols >= 2) || (rows == 1 && amount < cols) || (cols
                == 1 && amount < rows),
        ensures
            r@.wf(),
            r@.rows == rows,
            r@.cols == cols,
            r@.moves.len() == amount,
            goal_model(rows as int, cols as int).replay(r@.moves) == Some(r@),
            forall|k: int|
                1 <= k < r@.moves.len() ==> r@.moves[k] != (#[trigger] r@.moves[k
                    - 1]).spec_opposite(),
            amount == 0 ==> r@ == goal_model(rows as int, cols as int),
    {
        proof {
            assert(rows * cols <= MAX_SIDE * MAX_SIDE) by (nonlinear_arith)
                requires
                    1 <= rows <= MAX_SIDE,
                    1 <= cols <= MAX_SIDE,
            ;
            assert(rows * cols >= 1) by (nonlinear_arith)
                requires
                    rows >= 1,
                    cols >= 1,
            ;
        }
        let n = rows * cols;
        let mut board: Vec<usize> = Vec::new();
        let mut i: usize = 0;
        while i < n
            invariant
                0 <= i <= n,
                board@.len() == i,
                forall|k: int| 0 <= k < i ==> (#[trigger] board@[k]) == k,
            decreases n - i,
        {
            board.push(i);
            i = i + 1;
        }
        proof {
            assert forall|v: int| 0 <= v < board@.len() implies #[trigger] has_value(
                board@,
                v,
            ) by {
                assert(board@[v] == v);
            }
            assert(board_ok(board@, rows as int, cols as int));
        }
        let mut a = State::new(board, rows, cols);
        proof {
            assert(a@.board[0] == 0);
            assert(a@.slot == 0);
            assert(a@.board =~= goal_model(rows as int, cols as int).board);
            assert(a@ =~= goal_model(rows as int, cols as int));
        }
        let ghost g = goal_model(rows as int, cols as int);
        let mut t: usize = 0;
        while t < amount
            invariant
                1 <= rows <= MAX_SIDE,
                1 <= cols <= MAX_SIDE,
                n == rows * cols,
                amount > 0 ==> (rows >= 2 && cols >= 2) || (rows == 1 && amount < cols) || (
                cols == 1 && amount < rows),
                0 <= t <= amount,
                g == goal_model(rows as int, cols as int),
                a@.wf(),
                a@.rows == rows,
                a@.cols == cols,
                a@.moves.len() == t,
                g.replay(a@.moves) == Some(a@),
                forall|k: int|
                    1 <= k < t ==> a@.moves[k] != (#[trigger] a@.moves[k
                        - 1]).spec_opposite(),
                rows == 1 && amount > 0 ==> a@.slot == t && (t > 0 ==> a@.moves.last()
                    == Direction::Right),
                cols == 1 && amount > 0 ==> a@.slot == t && (t > 0 ==> a@.moves.last()
                    == Direction::Down),
                t == 0 ==> a@ == g,
            decreases amount - t,
        {
            let forbidden: Option<Direction> = if a.moves.len() > 0 {
                let lastd = a.moves[a.moves.len() - 1];
                Some(lastd.opposite())
            } else {
                None
            };
            let mut candidates: Vec<Direction> = Vec::new();
            if a.can_move(Direction::Up) && dir_allowed(forbidden, Direction::Up) {
                candidates.push(Direction::Up);
            }
            if a.can_move(Direction::Down) && dir_allowed(forbidden, Direction::Down) {
                candidates.push(Direction::Down);
            }
            if a.can_move(Direction::Left) && dir_allowed(forbidden, Direction::Left) {
                candidates.push(Direction::Left);
            }
            if a.can_move(Direction::Right) && dir_allowed(forbidden, Direction::Right) {
                candidates.push(Direction::Right);
            }
            proof {
                lemma_div_below(a@.slot, cols as int, rows as int);
                if rows >= 2 && cols >= 2 {
                    assert(a@.can(Direction::Up) || a@.can(Direction::Down));
                    assert(a@.can(Direction::Left) || a@.can(Direction::Right));
                    assert(candidates@.len() >= 1);
                } else if rows == 1 {
                    assert(a@.slot_row() == 0 && a@.slot_col() == a@.slot) by {
                        lemma_div_below(a@.slot, cols as int, 1);
                        vstd::arithmetic::div_mod::lemma_fundamental_div_mod(
                            a@.slot,
                            cols as int,
                        );
                    }
                    assert(a@.can(Direction::Right));
                    assert(candidates@.len() >= 1);
                    assert(forall|k: int|
                        0 <= k < candidates@.len() ==> (#[trigger] candidates@[k])
                            == Direction::Right);
                    assert(a@.target(Direction::Right) == a@.slot + 1) by {
                        assert((a@.slot_row() + Direction::Right.spec_row_delta()) * (
                        cols as int) == 0 * (cols as int));
                        assert(0 * (cols as int) == 0) by (nonlinear_arith);
                    }
                } else {
                    assert(a@.slot_col() == 0 && a@.slot_row() == a@.slot) by {
                        vstd::arithmetic::div_mod::lemma_fundamental_div_mod(a@.slot, 1);
                        vstd::arithmetic::div_mod::lemma_mod_bound(a@.slot, 1);
                    }
                    assert(a@.can(Direction::Down));
                    assert(candidates@.len() >= 1);
                    assert(forall|k: int|
                        0 <= k < candidates@.len() ==> (#[trigger] candidates@[k])
                            == Direction::Down);
                    assert(a@.target(Direction::Down) == a@.slot + 1) by {
                        assert((a@.slot_row() + 1) * (cols as int) == a@.slot_row() + 1)
                            by (nonlinear_arith)
                            requires
                                cols as int == 1,
                        ;
                    }
                }
            }
            let pick = random_below(candidates.len());
            let d = candidates[pick];
            let next = match a.make_move(d) {
                Option::Some(s) => s,
                Option::None => {
                    proof {
                        assert(false);
                    }
                    a
                },
            };
            proof {
                lemma_replay_snoc(g, a@.moves, a@, d);
                assert(next@.moves == a@.moves.push(d));
            }
            a = next;
            t = t + 1;
        }
        a
    }
}

} // verus!
