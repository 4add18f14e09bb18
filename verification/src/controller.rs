//! Controllers: map a side and a board to a chosen move.  A uniformly
//! random controller and the search-driven controller with iterative
//! deepening over a node-visit budget.

use vstd::prelude::*;

use crate::ai::max_search;
use crate::ai::tree_nodes;
use crate::evaluator::Evaluator;
use crate::evaluator::SCORE_LIMIT;
use crate::game::Board;
use crate::rules::{cell_index, dest_allowed, friend_at, has_any_move, on_board, BoardModel, Side};

verus! {

/// Chooses a move for a side on a board: any returned move is legal for
/// that side, and each implementation states exactly when it returns one.
pub trait Controller: Sized {
    /// When this controller reaches a decision: `decide` returns `Some`
    /// on exactly these boards and sides.  A side without a legal move
    /// never gets one; a budgeted controller may in addition fail on a
    /// position whose search does not fit its budget.
    spec fn succeeds(&self, m: BoardModel, side: Side) -> bool;

    /// The chosen move, as origin and destination.
    fn decide(&self, side: Side, board: &Board) -> (r: Option<((i32, i32), (i32, i32))>)
        requires
            board.wf(),
        ensures
            r matches Some(s) ==> on_board(s.0) && friend_at(board@.grid, side, s.0)
                && dest_allowed(board@, s.0, s.1),
            r is Some <==> self.succeeds(board@, side),
            r is Some ==> has_any_move(board@, side),
    ;
}

/// Relies on rand's `Rng::gen_range` over `0..n` with the thread-local
/// generator: a uniformly sampled index strictly below `n`; it panics only
/// on an empty range, which `n >= 1` rules out.
#[verifier::external_body]
fn random_below(n: usize) -> (r: usize)
    requires
        n >= 1,
    ensures
        r < n,
{
    rand::Rng::gen_range(&mut rand::thread_rng(), 0..n)
}

/// Plays a uniformly random legal move: a random origin among those with
/// at least one legal destination, then a random destination of it.
#[derive(Debug, Clone, Copy, PartialEq, Eq, Structural)]
pub struct RandomController {}

impl RandomController {
    /// A random controller.
    pub fn new() -> RandomController {
        RandomController {  }
    }
}

impl Controller for RandomController {
    /// A random controller reaches a decision exactly when the side has a
    /// legal move at all, whatever the random draws.
    open spec fn succeeds(&self, m: BoardModel, side: Side) -> bool {
        has_any_move(m, side)
    }

    fn decide(&self, side: Side, board: &Board) -> (r: Option<((i32, i32), (i32, i32))>) {
        // Each entry pairs an origin with one of its legal destinations,
        // witnessing that the origin has a move at all.
        let mut froms: Vec<((i32, i32), (i32, i32))> = Vec::new();
        let mut i: usize = 0;
        while i < 90
            invariant
                board.wf(),
                i <= 90,
                forall|k: int|
                    #![trigger froms@[k]]
                    0 <= k < froms@.len() ==> (on_board(froms@[k].0) && friend_at(
                        board@.grid,
                        side,
                        froms@[k].0,
                    ) && dest_allowed(board@, froms@[k].0, froms@[k].1)),
                froms@.len() == 0 ==> forall|f: (i32, i32), t: (i32, i32)|
                    (on_board(f) && cell_index(f) < i && friend_at(board@.grid, side, f)
                        && #[trigger] dest_allowed(board@, f, t)) ==> false,
            decreases 90 - i,
        {
            proof {
                vstd::arithmetic::div_mod::lemma_fundamental_div_mod(i as int, 10);
            }
            let pos = ((i / 10) as i32, (i % 10) as i32);
            proof {
                assert(cell_index(pos) == i);
                assert(on_board(pos));
            }
            if board.has_friend_at(side, pos) {
                let possible_moves = board.all_possible_moves(pos);
                if possible_moves.len() > 0 {
                    proof {
                        assert(possible_moves@.contains(possible_moves@[0]));
                    }
                    let witness = possible_moves[0];
                    let ghost froms0 = froms@;
                    froms.push((pos, witness));
                    proof {
                        assert forall|k: int|
                            #![trigger froms@[k]]
                            0 <= k < froms@.len() implies (on_board(froms@[k].0) && friend_at(
                            board@.grid,
                            side,
                            froms@[k].0,
                        ) && dest_allowed(board@, froms@[k].0, froms@[k].1)) by {
                            if k < froms0.len() {
                                assert(froms@[k] == froms0[k]);
                            } else {
                                assert(froms@[k] == (pos, witness));
                            }
                        }
                    }
                } else {
                    proof {
                        assert forall|f: (i32, i32), t: (i32, i32)|
                            (on_board(f) && cell_index(f) < i + 1 && friend_at(
                                board@.grid,
                                side,
                                f,
                            ) && #[trigger] dest_allowed(board@, f, t)) implies froms@.len()
                            > 0 by {
                            if froms@.len() == 0 && cell_index(f) == i {
                                assert(f =~= pos);
                                assert(possible_moves@.contains(t));
                            }
                        }
                    }
                }
            } else {
                proof {
                    assert forall|f: (i32, i32), t: (i32, i32)|
                        (on_board(f) && cell_index(f) < i + 1 && friend_at(board@.grid, side, f)
                            && #[trigger] dest_allowed(board@, f, t)) implies froms@.len() > 0 by {
                        if froms@.len() == 0 && cell_index(f) == i {
                            assert(f =~= pos);
                        }
                    }
                }
            }
            i = i + 1;
        }
        if froms.len() == 0 {
            proof {
                assert(!has_any_move(board@, side)) by {
                    if has_any_move(board@, side) {
                        let (f, t) = choose|f: (i32, i32), t: (i32, i32)|
                            on_board(f) && friend_at(board@.grid, side, f)
                                && #[trigger] dest_allowed(board@, f, t);
                        assert(0 <= cell_index(f) < 90);
                        assert(false);
                    }
                }
            }
            None
        } else {
            let fidx = random_below(froms.len());
            let from = froms[fidx].0;
            let tos = board.all_possible_moves(from);
            proof {
                assert(tos@.contains(froms@[fidx as int].1));
            }
            let tidx = random_below(tos.len());
            let to = tos[tidx];
            proof {
                assert(tos@.contains(tos@[tidx as int]));
                assert(has_any_move(board@, side)) by {
                    assert(dest_allowed(board@, from, tos@[tidx as int]));
                }
            }
            Some((from, to))
        }
    }
}

/// The search-driven controller: runs the alpha-beta engine with
/// iterative deepening under a hard node-visit budget and plays the best
/// move of the deepest search that completed.
pub struct AIController<EvaluatorT> where EvaluatorT: Evaluator {
    pub evaluator: EvaluatorT,
    pub max_node_count: u32,
}

impl<EvaluatorT> AIController<EvaluatorT> where EvaluatorT: Evaluator {
    /// A controller searching with `evaluator` under a ceiling of
    /// `max_node_count` visited nodes per deepening iteration.
    pub fn new(evaluator: EvaluatorT, max_node_count: u32) -> (r: AIController<EvaluatorT>)
        ensures
            r.evaluator == evaluator,
            r.max_node_count == max_node_count,
    {
        AIController { evaluator, max_node_count }
    }

    /// The effective node-visit ceiling: one below the counter's range at
    /// most, so that the counter can always step past it.
    pub open spec fn spec_budget(&self) -> int {
        if self.max_node_count == u32::MAX {
            u32::MAX - 1
        } else {
            self.max_node_count as int
        }
    }
}

impl<EvaluatorT> Controller for AIController<EvaluatorT> where EvaluatorT: Evaluator {
    /// The search-driven controller reaches a decision exactly when the
    /// position is not yet terminal, the side has a legal move, and the
    /// depth-one search — which visits one node per legal move plus one —
    /// fits the node-visit ceiling.
    open spec fn succeeds(&self, m: BoardModel, side: Side) -> bool {
        &&& !m.finished
        &&& has_any_move(m, side)
        &&& tree_nodes(m, side, 1) <= self.spec_budget() + 1
    }

    fn decide(&self, side: Side, board: &Board) -> (r: Option<((i32, i32), (i32, i32))>) {
        let ghost m = board@;
        let cap = if self.max_node_count == u32::MAX {
            u32::MAX - 1
        } else {
            self.max_node_count
        };
        let mut mboard = board.clone();
        let mut count: u32 = 0;
        let first = max_search(
            1,
            &mut count,
            cap,
            &mut mboard,
            side,
            &self.evaluator,
            i64::MIN,
            i64::MAX,
        );
        proof {
            assert(i64::MAX > SCORE_LIMIT);
            assert(first is Some <==> tree_nodes(m, side, 1) <= self.spec_budget() + 1);
        }
        match first {
            None => None,
            Some(d0) => match d0.step {
                None => {
                    proof {
                        // A missing step means the position was terminal or
                        // the side had no move: either way no decision is
                        // owed.
                        if !m.finished && has_any_move(m, side) {
                            assert(d0.step is Some);
                        }
                    }
                    None
                },
                Some(first_step) => {
                    proof {
                        assert(has_any_move(m, side)) by {
                            assert(dest_allowed(m, first_step.0, first_step.1));
                        }
                        assert(!m.finished);
                    }
                    let mut best = first_step;
                    let mut depth: u32 = 2;
                    while depth < 100
                        invariant
                            board.wf(),
                            cap < u32::MAX,
                            2 <= depth <= 100,
                            on_board(best.0),
                            friend_at(board@.grid, side, best.0),
                            dest_allowed(board@, best.0, best.1),
                            !board@.finished,
                            has_any_move(board@, side),
                            tree_nodes(board@, side, 1) <= self.spec_budget() + 1,
                        decreases 100 - depth,
                    {
                        let mut deeper_board = board.clone();
                        let mut deeper_count: u32 = 0;
                        let deeper = max_search(
                            depth,
                            &mut deeper_count,
                            cap,
                            &mut deeper_board,
                            side,
                            &self.evaluator,
                            i64::MIN,
                            i64::MAX,
                        );
                        match deeper {
                            Some(d) => {
                                match d.step {
                                    Some(s) => {
                                        best = s;
                                    },
                                    None => {},
                                }
                                depth = depth + 1;
                            },
                            None => {
                                break;
                            },
                        }
                    }
                    Some(best)
                },
            },
        }
    }
}

} // verus!
