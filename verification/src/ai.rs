//! The adversarial search engine: a full-width minimax value as the
//! specification, and the executable alpha-beta search proved against it —
//! pruning never changes the returned value, it only skips work.

use vstd::prelude::*;

use crate::evaluator::{Evaluator, SCORE_LIMIT};
use crate::game::Board;
use crate::laws::lemma_apply_undo_round_trip;
use crate::rules::{
    apply_model, cell_index, dest_allowed, friend_at, has_any_move, index_pos, lemma_dest_on_board,
    lemma_index_pos_inverse, lemma_index_pos_on_board, on_board, BoardModel, Side,
};

verus! {

/// What a search node returns: the move that achieved the best score seen
/// (absent at leaves and when the side has no legal move), and the score.
#[derive(Debug, Clone, Copy)]
pub struct AIDecision {
    pub step: Option<((i32, i32), (i32, i32))>,
    pub score: i64,
}

/// Folds two optional scores, keeping the larger (when `maximize`) or the
/// smaller; `None` acts as the identity.
pub open spec fn opt_fold(maximize: bool, a: Option<int>, b: Option<int>) -> Option<int> {
    match b {
        None => a,
        Some(y) => match a {
            None => b,
            Some(x) => if maximize {
                if x >= y {
                    a
                } else {
                    b
                }
            } else {
                if x <= y {
                    a
                } else {
                    b
                }
            },
        },
    }
}

/// The full-width (unpruned) minimax value of a position, scored from
/// `persp`'s point of view, with `mover` to move: at depth zero or on a
/// terminal position the evaluator's score; otherwise the best — maximum
/// when `mover == persp`, minimum otherwise — over all of `mover`'s legal
/// moves of the value one level deeper; the evaluator's score directly
/// when `mover` has no legal move.
pub open spec fn search_value<E: Evaluator>(
    e: E,
    persp: Side,
    mover: Side,
    m: BoardModel,
    depth: nat,
) -> int
    decreases depth, 3int, 0int,
{
    if depth == 0 || m.finished {
        e.score_spec(persp, m)
    } else {
        match search_cells(e, persp, mover, m, depth, 0) {
            Some(v) => v,
            None => e.score_spec(persp, m),
        }
    }
}

/// The minimax fold over the moves of `mover`'s pieces standing on cells
/// with flat index at least `i`; `None` when there are none.
pub open spec fn search_cells<E: Evaluator>(
    e: E,
    persp: Side,
    mover: Side,
    m: BoardModel,
    depth: nat,
    i: int,
) -> Option<int>
    decreases depth, 2int, 90 - i,
{
    if !(0 <= i < 90) || depth == 0 {
        None
    } else {
        opt_fold(
            mover == persp,
            if friend_at(m.grid, mover, index_pos(i)) {
                search_tos(e, persp, mover, m, depth, index_pos(i), 0)
            } else {
                None
            },
            search_cells(e, persp, mover, m, depth, i + 1),
        )
    }
}

/// The minimax fold over the moves of the piece at `from` whose
/// destination has flat index at least `j`; `None` when there are none.
pub open spec fn search_tos<E: Evaluator>(
    e: E,
    persp: Side,
    mover: Side,
    m: BoardModel,
    depth: nat,
    from: (i32, i32),
    j: int,
) -> Option<int>
    decreases depth, 1int, 90 - j,
{
    if !(0 <= j < 90) || depth == 0 {
        None
    } else {
        opt_fold(
            mover == persp,
            if dest_allowed(m, from, index_pos(j)) {
                Some(search_child(e, persp, mover, m, depth, from, index_pos(j)))
            } else {
                None
            },
            search_tos(e, persp, mover, m, depth, from, j + 1),
        )
    }
}

/// What one move contributes to a minimax node: the value of the position
/// after the move, one level shallower, with the other camp to move.
pub open spec fn search_child<E: Evaluator>(
    e: E,
    persp: Side,
    mover: Side,
    m: BoardModel,
    depth: nat,
    from: (i32, i32),
    to: (i32, i32),
) -> int
    decreases depth, 0int, 0int,
{
    if depth == 0 {
        0
    } else {
        search_value(e, persp, mover.spec_other(), apply_model(m, from, to), (depth - 1) as nat)
    }
}

/// The full-width minimax value with `side` both moving and scoring: what
/// `max_search` computes.
pub open spec fn max_value<E: Evaluator>(e: E, side: Side, m: BoardModel, depth: nat) -> int {
    search_value(e, side, side, m, depth)
}

/// The full-width minimax value with `side` scoring and the opponent
/// moving: what `min_search` computes.
pub open spec fn min_value<E: Evaluator>(e: E, side: Side, m: BoardModel, depth: nat) -> int {
    search_value(e, side, side.spec_other(), m, depth)
}

/// The number of nodes a full-width (unpruned) search of this position to
/// this depth visits: one for the node itself, plus, below a non-leaf,
/// the nodes of the subtree after each legal move of `mover`.  The
/// executable search visits at most this many nodes — pruning and the
/// budget cutoff only ever skip some — which is what lets its contract
/// promise a result whenever the budget covers the full-width count.
pub open spec fn tree_nodes(m: BoardModel, mover: Side, depth: nat) -> int
    decreases depth, 3int, 0int,
{
    1 + if depth == 0 || m.finished {
        0int
    } else {
        node_sum_cells(m, mover, depth, 0)
    }
}

/// The full-width node counts summed over the moves of `mover`'s pieces
/// standing on cells with flat index at least `i`.
pub open spec fn node_sum_cells(m: BoardModel, mover: Side, depth: nat, i: int) -> int
    decreases depth, 2int, 90 - i,
{
    if !(0 <= i < 90) || depth == 0 {
        0
    } else {
        (if friend_at(m.grid, mover, index_pos(i)) {
            node_sum_tos(m, mover, depth, index_pos(i), 0)
        } else {
            0int
        }) + node_sum_cells(m, mover, depth, i + 1)
    }
}

/// The full-width node counts summed over the moves of the piece at
/// `from` whose destination has flat index at least `j`.
pub open spec fn node_sum_tos(
    m: BoardModel,
    mover: Side,
    depth: nat,
    from: (i32, i32),
    j: int,
) -> int
    decreases depth, 1int, 90 - j,
{
    if !(0 <= j < 90) || depth == 0 {
        0
    } else {
        (if dest_allowed(m, from, index_pos(j)) {
            tree_nodes(apply_model(m, from, index_pos(j)), mover.spec_other(), (depth - 1) as nat)
        } else {
            0int
        }) + node_sum_tos(m, mover, depth, from, j + 1)
    }
}

/// A full-width search visits at least its own node.
pub proof fn lemma_tree_nodes_pos(m: BoardModel, mover: Side, depth: nat)
    ensures
        tree_nodes(m, mover, depth) >= 1,
    decreases depth, 3int, 0int,
{
    if depth > 0 && !m.finished {
        lemma_node_sum_cells_nonneg(m, mover, depth, 0);
    }
}

proof fn lemma_node_sum_cells_nonneg(m: BoardModel, mover: Side, depth: nat, i: int)
    ensures
        node_sum_cells(m, mover, depth, i) >= 0,
    decreases depth, 2int, 90 - i,
{
    if 0 <= i < 90 && depth > 0 {
        if friend_at(m.grid, mover, index_pos(i)) {
            lemma_node_sum_tos_nonneg(m, mover, depth, index_pos(i), 0);
        }
        lemma_node_sum_cells_nonneg(m, mover, depth, i + 1);
    }
}

proof fn lemma_node_sum_tos_nonneg(m: BoardModel, mover: Side, depth: nat, from: (i32, i32), j: int)
    ensures
        node_sum_tos(m, mover, depth, from, j) >= 0,
    decreases depth, 1int, 90 - j,
{
    if 0 <= j < 90 && depth > 0 {
        if dest_allowed(m, from, index_pos(j)) {
            lemma_tree_nodes_pos(
                apply_model(m, from, index_pos(j)),
                mover.spec_other(),
                (depth - 1) as nat,
            );
        }
        lemma_node_sum_tos_nonneg(m, mover, depth, from, j + 1);
    }
}

/// The suffix sums over destinations shrink as the start index grows.
proof fn lemma_node_sum_tos_mono(
    m: BoardModel,
    mover: Side,
    depth: nat,
    from: (i32, i32),
    j: int,
    j2: int,
)
    requires
        0 <= j <= j2,
    ensures
        node_sum_tos(m, mover, depth, from, j) >= node_sum_tos(m, mover, depth, from, j2),
    decreases j2 - j,
{
    if j < j2 {
        if j < 90 && depth > 0 && dest_allowed(m, from, index_pos(j)) {
            lemma_tree_nodes_pos(
                apply_model(m, from, index_pos(j)),
                mover.spec_other(),
                (depth - 1) as nat,
            );
        }
        lemma_node_sum_tos_mono(m, mover, depth, from, j + 1, j2);
    }
}

/// Over a stretch of indexes holding no legal destination, the suffix
/// sums over destinations do not change.
proof fn lemma_node_sum_tos_skip(
    m: BoardModel,
    mover: Side,
    depth: nat,
    from: (i32, i32),
    j: int,
    j2: int,
)
    requires
        0 <= j <= j2,
        forall|jj: int| j <= jj < j2 ==> !dest_allowed(m, from, #[trigger] index_pos(jj)),
    ensures
        node_sum_tos(m, mover, depth, from, j) == node_sum_tos(m, mover, depth, from, j2),
    decreases j2 - j,
{
    if j < j2 {
        lemma_node_sum_tos_skip(m, mover, depth, from, j + 1, j2);
    }
}

/// Minimax values stay within the common score bound.
pub proof fn lemma_search_value_in_range<E: Evaluator>(
    e: E,
    persp: Side,
    mover: Side,
    m: BoardModel,
    depth: nat,
)
    ensures
        -SCORE_LIMIT <= search_value(e, persp, mover, m, depth) <= SCORE_LIMIT,
    decreases depth, 3int, 0int,
{
    if depth == 0 || m.finished {
        e.lemma_score_in_range(persp, m);
    } else {
        match search_cells(e, persp, mover, m, depth, 0) {
            Some(v) => lemma_search_cells_in_range(e, persp, mover, m, depth, 0),
            None => e.lemma_score_in_range(persp, m),
        }
    }
}

proof fn lemma_search_cells_in_range<E: Evaluator>(
    e: E,
    persp: Side,
    mover: Side,
    m: BoardModel,
    depth: nat,
    i: int,
)
    ensures
        search_cells(e, persp, mover, m, depth, i) matches Some(v) ==> -SCORE_LIMIT <= v
            <= SCORE_LIMIT,
    decreases depth, 2int, 90 - i,
{
    if 0 <= i < 90 && depth > 0 {
        if friend_at(m.grid, mover, index_pos(i)) {
            lemma_search_tos_in_range(e, persp, mover, m, depth, index_pos(i), 0);
        }
        lemma_search_cells_in_range(e, persp, mover, m, depth, i + 1);
    }
}

proof fn lemma_search_tos_in_range<E: Evaluator>(
    e: E,
    persp: Side,
    mover: Side,
    m: BoardModel,
    depth: nat,
    from: (i32, i32),
    j: int,
)
    ensures
        search_tos(e, persp, mover, m, depth, from, j) matches Some(v) ==> -SCORE_LIMIT <= v
            <= SCORE_LIMIT,
    decreases depth, 1int, 90 - j,
{
    if 0 <= j < 90 && depth > 0 {
        let to = index_pos(j);
        let here = if dest_allowed(m, from, to) {
            Some(search_child(e, persp, mover, m, depth, from, to))
        } else {
            None
        };
        let rest = search_tos(e, persp, mover, m, depth, from, j + 1);
        assert(search_tos(e, persp, mover, m, depth, from, j) == opt_fold(
            mover == persp,
            here,
            rest,
        ));
        if dest_allowed(m, from, to) {
            lemma_search_value_in_range(
                e,
                persp,
                mover.spec_other(),
                apply_model(m, from, to),
                (depth - 1) as nat,
            );
            assert(-SCORE_LIMIT <= search_child(e, persp, mover, m, depth, from, to)
                <= SCORE_LIMIT);
        }
        lemma_search_tos_in_range(e, persp, mover, m, depth, from, j + 1);
        assert(rest matches Some(v) ==> -SCORE_LIMIT <= v <= SCORE_LIMIT);
    }
}

/// Every legal destination of `from` with index at least `j` is covered
/// by the fold: it is `Some`, at least that move's contribution at a
/// maximizing node, and at most it at a minimizing node.
proof fn lemma_search_tos_covers<E: Evaluator>(
    e: E,
    persp: Side,
    mover: Side,
    m: BoardModel,
    depth: nat,
    from: (i32, i32),
    j: int,
    to: (i32, i32),
)
    requires
        depth >= 1,
        0 <= j <= cell_index(to) < 90,
        dest_allowed(m, from, to),
    ensures
        search_tos(e, persp, mover, m, depth, from, j) is Some,
        mover == persp ==> search_tos(e, persp, mover, m, depth, from, j)->Some_0 >= search_child(
            e,
            persp,
            mover,
            m,
            depth,
            from,
            to,
        ),
        mover != persp ==> search_tos(e, persp, mover, m, depth, from, j)->Some_0 <= search_child(
            e,
            persp,
            mover,
            m,
            depth,
            from,
            to,
        ),
    decreases 90 - j,
{
    lemma_dest_on_board(m.grid, from, to);
    if j == cell_index(to) {
        lemma_index_pos_inverse(to);
    } else {
        lemma_search_tos_covers(e, persp, mover, m, depth, from, j + 1, to);
    }
}

/// A `Some` fold over destinations is achieved by some legal move.
proof fn lemma_search_tos_achieves<E: Evaluator>(
    e: E,
    persp: Side,
    mover: Side,
    m: BoardModel,
    depth: nat,
    from: (i32, i32),
    j: int,
)
    requires
        depth >= 1,
        search_tos(e, persp, mover, m, depth, from, j) is Some,
    ensures
        exists|t: (i32, i32)| #[trigger] dest_allowed(m, from, t) && search_tos(
            e,
            persp,
            mover,
            m,
            depth,
            from,
            j,
        )->Some_0 == search_child(e, persp, mover, m, depth, from, t),
    decreases 90 - j,
{
    let here = if dest_allowed(m, from, index_pos(j)) {
        Some(search_child(e, persp, mover, m, depth, from, index_pos(j)))
    } else {
        None
    };
    let rest = search_tos(e, persp, mover, m, depth, from, j + 1);
    if rest is Some {
        lemma_search_tos_achieves(e, persp, mover, m, depth, from, j + 1);
    }
    let v = search_tos(e, persp, mover, m, depth, from, j)->Some_0;
    if here matches Some(x) && v == x {
        assert(dest_allowed(m, from, index_pos(j)) && v == search_child(
            e,
            persp,
            mover,
            m,
            depth,
            from,
            index_pos(j),
        ));
    }
}

/// Every legal move of `mover` from a cell with index at least `i` is
/// covered by the fold: it is `Some`, at least that move's contribution
/// at a maximizing node, and at most it at a minimizing node.
proof fn lemma_search_cells_covers<E: Evaluator>(
    e: E,
    persp: Side,
    mover: Side,
    m: BoardModel,
    depth: nat,
    i: int,
    f: (i32, i32),
    t: (i32, i32),
)
    requires
        depth >= 1,
        0 <= i <= cell_index(f) < 90,
        on_board(f),
        friend_at(m.grid, mover, f),
        dest_allowed(m, f, t),
    ensures
        search_cells(e, persp, mover, m, depth, i) is Some,
        mover == persp ==> search_cells(e, persp, mover, m, depth, i)->Some_0 >= search_child(
            e,
            persp,
            mover,
            m,
            depth,
            f,
            t,
        ),
        mover != persp ==> search_cells(e, persp, mover, m, depth, i)->Some_0 <= search_child(
            e,
            persp,
            mover,
            m,
            depth,
            f,
            t,
        ),
    decreases 90 - i,
{
    if i == cell_index(f) {
        lemma_index_pos_inverse(f);
        lemma_search_tos_covers(e, persp, mover, m, depth, f, 0, t);
    } else {
        lemma_search_cells_covers(e, persp, mover, m, depth, i + 1, f, t);
    }
}

/// A `Some` fold over cells is achieved by some legal move of `mover`.
proof fn lemma_search_cells_achieves<E: Evaluator>(
    e: E,
    persp: Side,
    mover: Side,
    m: BoardModel,
    depth: nat,
    i: int,
)
    requires
        depth >= 1,
        search_cells(e, persp, mover, m, depth, i) is Some,
    ensures
        exists|f: (i32, i32), t: (i32, i32)|
            on_board(f) && friend_at(m.grid, mover, f) && #[trigger] dest_allowed(m, f, t)
                && search_cells(e, persp, mover, m, depth, i)->Some_0 == search_child(
                e,
                persp,
                mover,
                m,
                depth,
                f,
                t,
            ),
    decreases 90 - i,
{
    let from = index_pos(i);
    let here = if friend_at(m.grid, mover, from) {
        search_tos(e, persp, mover, m, depth, from, 0)
    } else {
        None
    };
    let rest = search_cells(e, persp, mover, m, depth, i + 1);
    if rest is Some {
        lemma_search_cells_achieves(e, persp, mover, m, depth, i + 1);
    }
    let v = search_cells(e, persp, mover, m, depth, i)->Some_0;
    if here matches Some(x) && v == x {
        lemma_search_tos_achieves(e, persp, mover, m, depth, from, 0);
        let t = choose|t: (i32, i32)| #[trigger] dest_allowed(m, from, t) && search_tos(
            e,
            persp,
            mover,
            m,
            depth,
            from,
            0,
        )->Some_0 == search_child(e, persp, mover, m, depth, from, t);
        assert(on_board(from)) by {
            vstd::arithmetic::div_mod::lemma_fundamental_div_mod(i, 10);
        }
        assert(on_board(from) && friend_at(m.grid, mover, from) && dest_allowed(m, from, t) && v
            == search_child(e, persp, mover, m, depth, from, t));
    }
}

/// The count abbreviation the search loops carry: the full-width node
/// counts of the moves of all cells scanned so far.
spec fn counted_cells(m: BoardModel, mover: Side, depth: nat, fi: int) -> int {
    node_sum_cells(m, mover, depth, 0) - node_sum_cells(m, mover, depth, fi)
}

/// The count abbreviation for the cell being scanned: the full-width node
/// counts of the destinations already explored, `moves` being the sorted
/// legal destinations and `mi` the next one.
spec fn counted_tos(
    m: BoardModel,
    mover: Side,
    depth: nat,
    from: (i32, i32),
    moves: Seq<(i32, i32)>,
    mi: int,
) -> int {
    node_sum_tos(m, mover, depth, from, 0) - if mi < moves.len() {
        node_sum_tos(m, mover, depth, from, cell_index(moves[mi]))
    } else {
        0int
    }
}

/// A legal destination whose flat index is known appears in the generated
/// move list at some position carrying that index.
proof fn lemma_legal_index_in_moves(
    m: BoardModel,
    from: (i32, i32),
    moves: Seq<(i32, i32)>,
    jj: int,
)
    requires
        forall|t: (i32, i32)| #[trigger] moves.contains(t) <==> dest_allowed(m, from, t),
        0 <= jj < 90,
        dest_allowed(m, from, index_pos(jj)),
    ensures
        exists|k: int| 0 <= k < moves.len() && cell_index(#[trigger] moves[k]) == jj,
{
    lemma_index_pos_on_board(jj);
    assert(moves.contains(index_pos(jj)));
    let k = choose|k: int| 0 <= k < moves.len() && moves[k] == index_pos(jj);
    assert(cell_index(moves[k]) == jj);
}

/// The maximizing node of the alpha-beta search: `side` is to move and is
/// also the scored perspective.  The returned score is fail-soft correct
/// against the full-width minimax value `max_value`: exact when it lies
/// strictly inside the window, an upper bound on the true value when it
/// fails low, a lower bound when it fails high, and the returned step
/// attains that exact score.  `None` reports that the node-visit ceiling
/// was exceeded, which can only happen when even the full-width node
/// count would not fit the budget; conversely a budget covering the
/// full-width count guarantees a result.  The board is always handed back
/// exactly as it was.
pub fn max_search<EvaluatorT: Evaluator>(
    depth: u32,
    current_node_count: &mut u32,
    max_node_count: u32,
    board: &mut Board,
    side: Side,
    evaluator: &EvaluatorT,
    alpha: i64,
    beta: i64,
) -> (r: Option<AIDecision>)
    requires
        old(board).wf(),
        max_node_count < u32::MAX,
        alpha < beta,
    ensures
        final(board)@ == old(board)@,
        final(board).wf(),
        *final(current_node_count) >= *old(current_node_count),
        *final(current_node_count) <= *old(current_node_count) + tree_nodes(
            old(board)@,
            side,
            depth as nat,
        ),
        *old(current_node_count) <= max_node_count ==> *final(current_node_count)
            <= max_node_count + 1,
        *old(current_node_count) > max_node_count ==> r is None && *final(current_node_count)
            == *old(current_node_count),
        r is None ==> *final(current_node_count) > max_node_count,
        r is None ==> *old(current_node_count) + tree_nodes(old(board)@, side, depth as nat)
            > max_node_count + 1,
        *old(current_node_count) + tree_nodes(old(board)@, side, depth as nat) <= max_node_count
            + 1 ==> r is Some,
        (*old(current_node_count) <= max_node_count && (depth == 0 || old(board)@.finished)) ==> (
        r matches Some(d) && d.step is None && d.score == evaluator.score_spec(side, old(board)@)
            && *final(current_node_count) == *old(current_node_count) + 1),
        (depth == 1 && beta > SCORE_LIMIT && r is Some) ==> *old(current_node_count) + tree_nodes(
            old(board)@,
            side,
            depth as nat,
        ) <= max_node_count + 1,
        r matches Some(d) ==> {
            &&& -SCORE_LIMIT <= d.score <= SCORE_LIMIT
            &&& (d.score <= alpha ==> max_value(*evaluator, side, old(board)@, depth as nat)
                <= d.score)
            &&& (d.score >= beta ==> max_value(*evaluator, side, old(board)@, depth as nat)
                >= d.score)
            &&& (alpha < d.score < beta ==> d.score == max_value(
                *evaluator,
                side,
                old(board)@,
                depth as nat,
            ))
            &&& (d.step matches Some(s) ==> on_board(s.0) && friend_at(
                old(board)@.grid,
                side,
                s.0,
            ) && dest_allowed(old(board)@, s.0, s.1))
            &&& (d.step matches Some(s) ==> (alpha < d.score < beta ==> search_child(
                *evaluator,
                side,
                side,
                old(board)@,
                depth as nat,
                s.0,
                s.1,
            ) == d.score))
            &&& ((depth > 0 && !old(board)@.finished && has_any_move(old(board)@, side))
                ==> d.step is Some)
        },
    decreases depth,
{
    let ghost m = board@;
    let ghost e = *evaluator;
    let ghost dn = depth as nat;
    if *current_node_count > max_node_count {
        proof {
            lemma_tree_nodes_pos(m, side, dn);
        }
        return None;
    }
    *current_node_count = *current_node_count + 1;
    if depth == 0 || board.finished() {
        proof {
            lemma_tree_nodes_pos(m, side, dn);
        }
        let score = evaluator.evaluate(side, board);
        return Some(AIDecision { step: None, score });
    }
    let mut score: i64 = i64::MIN;
    let mut step: Option<((i32, i32), (i32, i32))> = None;
    let mut cur_alpha: i64 = alpha;
    let mut done = false;
    let mut fi: usize = 0;
    while fi < 90 && !done
        invariant
            board.wf(),
            board@ == m,
            m == old(board)@,
            e == *evaluator,
            dn == depth as nat,
            !m.finished,
            depth >= 1,
            max_node_count < u32::MAX,
            alpha < beta,
            fi <= 90,
            *old(current_node_count) <= max_node_count,
            *current_node_count >= *old(current_node_count) + 1,
            *current_node_count <= max_node_count + 1,
            *current_node_count <= *old(current_node_count) + 1 + counted_cells(
                m,
                side,
                dn,
                fi as int,
            ),
            (depth == 1 && beta > SCORE_LIMIT) ==> (!done && *current_node_count == *old(
                current_node_count,
            ) + 1 + counted_cells(m, side, dn, fi as int)),
            cur_alpha == if score > alpha {
                score as int
            } else {
                alpha as int
            },
            score == i64::MIN || -SCORE_LIMIT <= score <= SCORE_LIMIT,
            done ==> score >= beta,
            !done ==> score < beta,
            score == i64::MIN ==> step is None,
            score > i64::MIN ==> (step matches Some(s) && on_board(s.0) && friend_at(
                m.grid,
                side,
                s.0,
            ) && dest_allowed(m, s.0, s.1)),
            (!done && score > alpha) ==> (step matches Some(s) && search_child(
                e,
                side,
                side,
                m,
                dn,
                s.0,
                s.1,
            ) == score),
            score > alpha ==> exists|f: (i32, i32), t: (i32, i32)|
                on_board(f) && friend_at(m.grid, side, f) && #[trigger] dest_allowed(m, f, t)
                    && search_child(e, side, side, m, dn, f, t) >= score,
            !done ==> forall|f: (i32, i32), t: (i32, i32)|
                (on_board(f) && cell_index(f) < fi && friend_at(m.grid, side, f)
                    && #[trigger] dest_allowed(m, f, t)) ==> (score > i64::MIN && search_child(
                    e,
                    side,
                    side,
                    m,
                    dn,
                    f,
                    t,
                ) <= score),
        decreases 90 - fi,
    {
        proof {
            vstd::arithmetic::div_mod::lemma_fundamental_div_mod(fi as int, 10);
        }
        let from = ((fi / 10) as i32, (fi % 10) as i32);
        proof {
            assert(cell_index(from) == fi);
            assert(on_board(from));
        }
        if board.has_friend_at(side, from) {
            let moves = board.all_possible_moves(from);
            proof {
                // Nothing of this cell is explored yet: the legal
                // destinations all sit at or beyond the first move's index.
                if moves@.len() > 0 {
                    let j0 = cell_index(moves@[0]);
                    assert(moves@.contains(moves@[0]));
                    lemma_dest_on_board(m.grid, from, moves@[0]);
                    assert forall|jj: int| 0 <= jj < j0 implies !dest_allowed(
                        m,
                        from,
                        #[trigger] index_pos(jj),
                    ) by {
                        if dest_allowed(m, from, index_pos(jj)) {
                            lemma_legal_index_in_moves(m, from, moves@, jj);
                            let k = choose|k: int|
                                0 <= k < moves@.len() && cell_index(#[trigger] moves@[k]) == jj;
                            assert(false);
                        }
                    }
                    lemma_node_sum_tos_skip(m, side, dn, from, 0, j0);
                    assert(counted_tos(m, side, dn, from, moves@, 0) == 0);
                } else {
                    assert forall|jj: int| 0 <= jj < 90 implies !dest_allowed(
                        m,
                        from,
                        #[trigger] index_pos(jj),
                    ) by {
                        if dest_allowed(m, from, index_pos(jj)) {
                            lemma_index_pos_on_board(jj);
                            assert(moves@.contains(index_pos(jj)));
                        }
                    }
                    lemma_node_sum_tos_skip(m, side, dn, from, 0, 90);
                    assert(counted_tos(m, side, dn, from, moves@, 0) == 0);
                }
            }
            let mut mi: usize = 0;
            while mi < moves.len() && !done
                invariant
                    board.wf(),
                    board@ == m,
                    m == old(board)@,
                    e == *evaluator,
                    dn == depth as nat,
                    !m.finished,
                    depth >= 1,
                    max_node_count < u32::MAX,
                    alpha < beta,
                    on_board(from),
                    cell_index(from) == fi < 90,
                    friend_at(m.grid, side, from),
                    mi <= moves@.len(),
                    forall|t: (i32, i32)| #[trigger] moves@.contains(t) <==> dest_allowed(
                        m,
                        from,
                        t,
                    ),
                    forall|k1: int, k2: int|
                        0 <= k1 < k2 < moves@.len() ==> cell_index(#[trigger] moves@[k1])
                            < cell_index(#[trigger] moves@[k2]),
                    *old(current_node_count) <= max_node_count,
                    *current_node_count >= *old(current_node_count) + 1,
                    *current_node_count <= max_node_count + 1,
                    *current_node_count <= *old(current_node_count) + 1 + counted_cells(
                        m,
                        side,
                        dn,
                        fi as int,
                    ) + counted_tos(m, side, dn, from, moves@, mi as int),
                    (depth == 1 && beta > SCORE_LIMIT) ==> (!done && *current_node_count == *old(
                        current_node_count,
                    ) + 1 + counted_cells(m, side, dn, fi as int) + counted_tos(
                        m,
                        side,
                        dn,
                        from,
                        moves@,
                        mi as int,
                    )),
                    cur_alpha == if score > alpha {
                        score as int
                    } else {
                        alpha as int
                    },
                    score == i64::MIN || -SCORE_LIMIT <= score <= SCORE_LIMIT,
                    done ==> score >= beta,
                    !done ==> score < beta,
                    score == i64::MIN ==> step is None,
                    score > i64::MIN ==> (step matches Some(s) && on_board(s.0) && friend_at(
                        m.grid,
                        side,
                        s.0,
                    ) && dest_allowed(m, s.0, s.1)),
                    (!done && score > alpha) ==> (step matches Some(s) && search_child(
                        e,
                        side,
                        side,
                        m,
                        dn,
                        s.0,
                        s.1,
                    ) == score),
                    score > alpha ==> exists|f: (i32, i32), t: (i32, i32)|
                        on_board(f) && friend_at(m.grid, side, f) && #[trigger] dest_allowed(
                            m,
                            f,
                            t,
                        ) && search_child(e, side, side, m, dn, f, t) >= score,
                    !done ==> forall|f: (i32, i32), t: (i32, i32)|
                        (on_board(f) && cell_index(f) < fi && friend_at(m.grid, side, f)
                            && #[trigger] dest_allowed(m, f, t)) ==> (score > i64::MIN
                            && search_child(e, side, side, m, dn, f, t) <= score),
                    !done ==> forall|k: int|
                        0 <= k < mi ==> (score > i64::MIN && search_child(
                            e,
                            side,
                            side,
                            m,
                            dn,
                            from,
                            #[trigger] moves@[k],
                        ) <= score),
                decreases moves@.len() - mi,
            {
                let to = moves[mi];
                let ghost idx = cell_index(to);
                proof {
                    assert(moves@.contains(to));
                    lemma_dest_on_board(m.grid, from, to);
                    lemma_index_pos_inverse(to);
                    assert(m.move_count < u32::MAX);
                    assert(node_sum_tos(m, side, dn, from, idx) == tree_nodes(
                        apply_model(m, from, to),
                        side.spec_other(),
                        (dn - 1) as nat,
                    ) + node_sum_tos(m, side, dn, from, idx + 1));
                    assert(node_sum_cells(m, side, dn, fi as int) == node_sum_tos(
                        m,
                        side,
                        dn,
                        from,
                        0,
                    ) + node_sum_cells(m, side, dn, fi + 1)) by {
                        lemma_index_pos_on_board(fi as int);
                        assert(index_pos(fi as int) =~= from);
                    }
                    lemma_node_sum_cells_nonneg(m, side, dn, fi + 1);
                    // beyond this destination, nothing is legal until the
                    // next move in the sorted list
                    if mi + 1 < moves@.len() {
                        let jn = cell_index(moves@[mi + 1]);
                        assert(moves@.contains(moves@[mi as int + 1]));
                        lemma_dest_on_board(m.grid, from, moves@[mi as int + 1]);
                        assert(0 <= jn < 90);
                        assert(idx < jn);
                        assert forall|jj: int| idx + 1 <= jj < jn implies !dest_allowed(
                            m,
                            from,
                            #[trigger] index_pos(jj),
                        ) by {
                            if 0 <= jj < 90 && dest_allowed(m, from, index_pos(jj)) {
                                lemma_legal_index_in_moves(m, from, moves@, jj);
                                let k = choose|k: int|
                                    0 <= k < moves@.len() && cell_index(#[trigger] moves@[k])
                                        == jj;
                                assert(cell_index(moves@[mi as int]) == idx);
                                if k <= mi {
                                    assert(cell_index(moves@[k]) <= idx);
                                } else {
                                    assert(cell_index(moves@[k]) >= cell_index(
                                        moves@[mi as int + 1],
                                    ));
                                }
                                assert(false);
                            }
                        }
                        lemma_node_sum_tos_skip(m, side, dn, from, idx + 1, jn);
                    } else {
                        assert forall|jj: int| idx + 1 <= jj < 90 implies !dest_allowed(
                            m,
                            from,
                            #[trigger] index_pos(jj),
                        ) by {
                            if dest_allowed(m, from, index_pos(jj)) {
                                lemma_legal_index_in_moves(m, from, moves@, jj);
                                let k = choose|k: int|
                                    0 <= k < moves@.len() && cell_index(#[trigger] moves@[k])
                                        == jj;
                                assert(cell_index(moves@[mi as int]) == idx);
                                assert(cell_index(moves@[k]) <= idx);
                                assert(false);
                            }
                        }
                        lemma_node_sum_tos_skip(m, side, dn, from, idx + 1, 90);
                    }
                    lemma_node_sum_tos_nonneg(m, side, dn, from, idx + 1);
                }
                let ghost score0 = score;
                let ghost cur_alpha0 = cur_alpha;
                let ghost count_before = *current_node_count;
                board.do_move_unchecked(from, to);
                let child_r = min_search(
                    depth - 1,
                    current_node_count,
                    max_node_count,
                    board,
                    side,
                    evaluator,
                    cur_alpha,
                    beta,
                );
                let _ = board.undo_move();
                proof {
                    lemma_apply_undo_round_trip(m, from, to);
                }
                match child_r {
                    None => {
                        proof {
                            assert(count_before + tree_nodes(
                                apply_model(m, from, to),
                                side.spec_other(),
                                (dn - 1) as nat,
                            ) > max_node_count + 1);
                            assert(*old(current_node_count) + tree_nodes(m, side, dn)
                                > max_node_count + 1);
                            assert(*current_node_count <= *old(current_node_count) + tree_nodes(
                                m,
                                side,
                                dn,
                            ));
                        }
                        return None;
                    },
                    Some(v) => {
                        let ghost ctv = search_child(e, side, side, m, dn, from, to);
                        proof {
                            assert(ctv == min_value(
                                e,
                                side,
                                apply_model(m, from, to),
                                (depth - 1) as nat,
                            ));
                        }
                        if v.score > score {
                            score = v.score;
                            step = Some((from, to));
                        }
                        if score > cur_alpha {
                            cur_alpha = score;
                        }
                        if cur_alpha >= beta {
                            done = true;
                        }
                        proof {
                            if score > alpha {
                                if v.score == score && v.score > score0 {
                                    assert(v.score > cur_alpha0);
                                    assert(ctv >= score);
                                    assert(dest_allowed(m, from, to) && on_board(from)
                                        && friend_at(m.grid, side, from) && search_child(
                                        e,
                                        side,
                                        side,
                                        m,
                                        dn,
                                        from,
                                        to,
                                    ) >= score);
                                }
                            }
                            if !done && score > alpha && v.score == score && v.score > score0 {
                                assert(v.score < beta);
                                assert(ctv == score);
                            }
                            if !done {
                                assert forall|k: int| 0 <= k < mi + 1 implies (score > i64::MIN
                                    && search_child(
                                    e,
                                    side,
                                    side,
                                    m,
                                    dn,
                                    from,
                                    #[trigger] moves@[k],
                                ) <= score) by {
                                    if k == mi {
                                        assert(v.score <= score);
                                        if v.score <= cur_alpha0 {
                                            assert(ctv <= v.score);
                                        } else {
                                            assert(v.score < beta);
                                            assert(ctv == v.score);
                                        }
                                    }
                                }
                            }
                            if depth == 1 && beta > SCORE_LIMIT {
                                assert(tree_nodes(
                                    apply_model(m, from, to),
                                    side.spec_other(),
                                    (dn - 1) as nat,
                                ) == 1);
                                assert(*current_node_count == count_before + 1);
                                assert(cur_alpha < beta);
                                assert(!done);
                            }
                        }
                        mi = mi + 1;
                    },
                }
            }
            proof {
                if !done {
                    assert forall|f: (i32, i32), t: (i32, i32)|
                        (on_board(f) && cell_index(f) < fi + 1 && friend_at(m.grid, side, f)
                            && #[trigger] dest_allowed(m, f, t)) implies (score > i64::MIN
                        && search_child(e, side, side, m, dn, f, t) <= score) by {
                        if cell_index(f) == fi {
                            assert(f =~= from);
                            assert(moves@.contains(t));
                            let k = choose|k: int| 0 <= k < moves@.len() && moves@[k] == t;
                            assert(search_child(e, side, side, m, dn, from, moves@[k]) <= score);
                        }
                    }
                }
                assert(node_sum_cells(m, side, dn, fi as int) == node_sum_tos(m, side, dn, from, 0)
                    + node_sum_cells(m, side, dn, fi + 1)) by {
                    lemma_index_pos_on_board(fi as int);
                    assert(index_pos(fi as int) =~= from);
                }
                if mi < moves.len() {
                    assert(moves@.contains(moves@[mi as int]));
                    lemma_dest_on_board(m.grid, from, moves@[mi as int]);
                    lemma_node_sum_tos_nonneg(
                        m,
                        side,
                        dn,
                        from,
                        cell_index(moves@[mi as int]),
                    );
                }
            }
        } else {
            proof {
                assert forall|f: (i32, i32), t: (i32, i32)|
                    (on_board(f) && cell_index(f) < fi + 1 && friend_at(m.grid, side, f)
                        && #[trigger] dest_allowed(m, f, t)) implies (score > i64::MIN
                    && search_child(e, side, side, m, dn, f, t) <= score) by {
                    if cell_index(f) == fi {
                        assert(f =~= from);
                    }
                }
                assert(node_sum_cells(m, side, dn, fi as int) == node_sum_cells(
                    m,
                    side,
                    dn,
                    fi + 1,
                )) by {
                    lemma_index_pos_on_board(fi as int);
                    assert(index_pos(fi as int) =~= from);
                }
            }
        }
        fi = fi + 1;
    }
    proof {
        lemma_node_sum_cells_nonneg(m, side, dn, fi as int);
        assert(tree_nodes(m, side, dn) == 1 + node_sum_cells(m, side, dn, 0));
        assert(*current_node_count <= *old(current_node_count) + tree_nodes(m, side, dn));
        if depth == 1 && beta > SCORE_LIMIT {
            assert(fi == 90);
            assert(node_sum_cells(m, side, dn, 90) == 0);
            assert(*current_node_count == *old(current_node_count) + tree_nodes(m, side, dn));
        }
    }
    if score == i64::MIN {
        proof {
            assert(!done);
            assert(!has_any_move(m, side)) by {
                if has_any_move(m, side) {
                    let (f, t) = choose|f: (i32, i32), t: (i32, i32)|
                        on_board(f) && friend_at(m.grid, side, f) && #[trigger] dest_allowed(
                            m,
                            f,
                            t,
                        );
                    assert(0 <= cell_index(f) < 90);
                    assert(false);
                }
            }
            if search_cells(e, side, side, m, dn, 0) is Some {
                lemma_search_cells_achieves(e, side, side, m, dn, 0);
                assert(false);
            }
            assert(max_value(e, side, m, dn) == e.score_spec(side, m));
        }
        let leaf_score = evaluator.evaluate(side, board);
        Some(AIDecision { step: None, score: leaf_score })
    } else {
        proof {
            let s0 = step->Some_0;
            lemma_search_cells_covers(e, side, side, m, dn, 0, s0.0, s0.1);
            assert(search_cells(e, side, side, m, dn, 0) is Some);
            assert(max_value(e, side, m, dn) == search_cells(e, side, side, m, dn, 0)->Some_0);
            if done {
                assert(score >= beta && score > alpha);
                let (f, t) = choose|f: (i32, i32), t: (i32, i32)|
                    on_board(f) && friend_at(m.grid, side, f) && #[trigger] dest_allowed(m, f, t)
                        && search_child(e, side, side, m, dn, f, t) >= score;
                lemma_search_cells_covers(e, side, side, m, dn, 0, f, t);
                assert(max_value(e, side, m, dn) >= score);
            } else {
                assert(score < beta && fi == 90);
                lemma_search_cells_achieves(e, side, side, m, dn, 0);
                let (fa, ta) = choose|f: (i32, i32), t: (i32, i32)|
                    on_board(f) && friend_at(m.grid, side, f) && #[trigger] dest_allowed(m, f, t)
                        && search_cells(e, side, side, m, dn, 0)->Some_0 == search_child(
                        e,
                        side,
                        side,
                        m,
                        dn,
                        f,
                        t,
                    );
                assert(0 <= cell_index(fa) < 90);
                assert(max_value(e, side, m, dn) <= score);
                if score > alpha {
                    let (f, t) = choose|f: (i32, i32), t: (i32, i32)|
                        on_board(f) && friend_at(m.grid, side, f) && #[trigger] dest_allowed(
                            m,
                            f,
                            t,
                        ) && search_child(e, side, side, m, dn, f, t) >= score;
                    lemma_search_cells_covers(e, side, side, m, dn, 0, f, t);
                    assert(max_value(e, side, m, dn) >= score);
                }
            }
        }
        Some(AIDecision { step, score })
    }
}

/// The minimizing node of the alpha-beta search: the opponent of `side`
/// is to move, while `side` stays the scored perspective.  The returned
/// score is fail-soft correct against the full-width minimax value
/// `min_value`, the returned step attains an exact score, and the budget
/// discipline is the same as `max_search`'s: `None` only when even the
/// full-width node count would not fit, a covering budget guarantees a
/// result, and the board always comes back exactly as it was.
pub fn min_search<EvaluatorT: Evaluator>(
    depth: u32,
    current_node_count: &mut u32,
    max_node_count: u32,
    board: &mut Board,
    side: Side,
    evaluator: &EvaluatorT,
    alpha: i64,
    beta: i64,
) -> (r: Option<AIDecision>)
    requires
        old(board).wf(),
        max_node_count < u32::MAX,
        alpha < beta,
    ensures
        final(board)@ == old(board)@,
        final(board).wf(),
        *final(current_node_count) >= *old(current_node_count),
        *final(current_node_count) <= *old(current_node_count) + tree_nodes(
            old(board)@,
            side.spec_other(),
            depth as nat,
        ),
        *old(current_node_count) <= max_node_count ==> *final(current_node_count)
            <= max_node_count + 1,
        *old(current_node_count) > max_node_count ==> r is None && *final(current_node_count)
            == *old(current_node_count),
        r is None ==> *final(current_node_count) > max_node_count,
        r is None ==> *old(current_node_count) + tree_nodes(
            old(board)@,
            side.spec_other(),
            depth as nat,
        ) > max_node_count + 1,
        *old(current_node_count) + tree_nodes(old(board)@, side.spec_other(), depth as nat)
            <= max_node_count + 1 ==> r is Some,
        (*old(current_node_count) <= max_node_count && (depth == 0 || old(board)@.finished)) ==> (
        r matches Some(d) && d.step is None && d.score == evaluator.score_spec(side, old(board)@)
            && *final(current_node_count) == *old(current_node_count) + 1),
        r matches Some(d) ==> {
            &&& -SCORE_LIMIT <= d.score <= SCORE_LIMIT
            &&& (d.score <= alpha ==> min_value(*evaluator, side, old(board)@, depth as nat)
                <= d.score)
            &&& (d.score >= beta ==> min_value(*evaluator, side, old(board)@, depth as nat)
                >= d.score)
            &&& (alpha < d.score < beta ==> d.score == min_value(
                *evaluator,
                side,
                old(board)@,
                depth as nat,
            ))
            &&& (d.step matches Some(s) ==> on_board(s.0) && friend_at(
                old(board)@.grid,
                side.spec_other(),
                s.0,
            ) && dest_allowed(old(board)@, s.0, s.1))
            &&& (d.step matches Some(s) ==> (alpha < d.score < beta ==> search_child(
                *evaluator,
                side,
                side.spec_other(),
                old(board)@,
                depth as nat,
                s.0,
                s.1,
            ) == d.score))
            &&& ((depth > 0 && !old(board)@.finished && has_any_move(
                old(board)@,
                side.spec_other(),
            )) ==> d.step is Some)
        },
    decreases depth,
{
    let ghost m = board@;
    let ghost e = *evaluator;
    let ghost dn = depth as nat;
    let ghost mover = side.spec_other();
    if *current_node_count > max_node_count {
        proof {
            lemma_tree_nodes_pos(m, mover, dn);
        }
        return None;
    }
    *current_node_count = *current_node_count + 1;
    if depth == 0 || board.finished() {
        proof {
            lemma_tree_nodes_pos(m, mover, dn);
        }
        let score = evaluator.evaluate(side, board);
        return Some(AIDecision { step: None, score });
    }
    let other = side.other();
    let mut score: i64 = i64::MAX;
    let mut step: Option<((i32, i32), (i32, i32))> = None;
    let mut cur_beta: i64 = beta;
    let mut done = false;
    let mut fi: usize = 0;
    while fi < 90 && !done
        invariant
            board.wf(),
            board@ == m,
            m == old(board)@,
            e == *evaluator,
            dn == depth as nat,
            mover == side.spec_other(),
            other == side.spec_other(),
            !m.finished,
            depth >= 1,
            max_node_count < u32::MAX,
            alpha < beta,
            fi <= 90,
            *old(current_node_count) <= max_node_count,
            *current_node_count >= *old(current_node_count) + 1,
            *current_node_count <= max_node_count + 1,
            *current_node_count <= *old(current_node_count) + 1 + counted_cells(
                m,
                mover,
                dn,
                fi as int,
            ),
            cur_beta == if score < beta {
                score as int
            } else {
                beta as int
            },
            score == i64::MAX || -SCORE_LIMIT <= score <= SCORE_LIMIT,
            done ==> score <= alpha,
            !done ==> score > alpha,
            score == i64::MAX ==> step is None,
            score < i64::MAX ==> (step matches Some(s) && on_board(s.0) && friend_at(
                m.grid,
                mover,
                s.0,
            ) && dest_allowed(m, s.0, s.1)),
            (!done && score < beta) ==> (step matches Some(s) && search_child(
                e,
                side,
                mover,
                m,
                dn,
                s.0,
                s.1,
            ) == score),
            score < beta ==> exists|f: (i32, i32), t: (i32, i32)|
                on_board(f) && friend_at(m.grid, mover, f) && #[trigger] dest_allowed(m, f, t)
                    && search_child(e, side, mover, m, dn, f, t) <= score,
            !done ==> forall|f: (i32, i32), t: (i32, i32)|
                (on_board(f) && cell_index(f) < fi && friend_at(m.grid, mover, f)
                    && #[trigger] dest_allowed(m, f, t)) ==> (score < i64::MAX && search_child(
                    e,
                    side,
                    mover,
                    m,
                    dn,
                    f,
                    t,
                ) >= score),
        decreases 90 - fi,
    {
        proof {
            vstd::arithmetic::div_mod::lemma_fundamental_div_mod(fi as int, 10);
        }
        let from = ((fi / 10) as i32, (fi % 10) as i32);
        proof {
            assert(cell_index(from) == fi);
            assert(on_board(from));
        }
        if board.has_friend_at(other, from) {
            let moves = board.all_possible_moves(from);
            proof {
                if moves@.len() > 0 {
                    let j0 = cell_index(moves@[0]);
                    assert(moves@.contains(moves@[0]));
                    lemma_dest_on_board(m.grid, from, moves@[0]);
                    assert forall|jj: int| 0 <= jj < j0 implies !dest_allowed(
                        m,
                        from,
                        #[trigger] index_pos(jj),
                    ) by {
                        if dest_allowed(m, from, index_pos(jj)) {
                            lemma_legal_index_in_moves(m, from, moves@, jj);
                            let k = choose|k: int|
                                0 <= k < moves@.len() && cell_index(#[trigger] moves@[k]) == jj;
                            assert(false);
                        }
                    }
                    lemma_node_sum_tos_skip(m, mover, dn, from, 0, j0);
                    assert(counted_tos(m, mover, dn, from, moves@, 0) == 0);
                } else {
                    assert forall|jj: int| 0 <= jj < 90 implies !dest_allowed(
                        m,
                        from,
                        #[trigger] index_pos(jj),
                    ) by {
                        if dest_allowed(m, from, index_pos(jj)) {
                            lemma_index_pos_on_board(jj);
                            assert(moves@.contains(index_pos(jj)));
                        }
                    }
                    lemma_node_sum_tos_skip(m, mover, dn, from, 0, 90);
                    assert(counted_tos(m, mover, dn, from, moves@, 0) == 0);
                }
            }
            let mut mi: usize = 0;
            while mi < moves.len() && !done
                invariant
                    board.wf(),
                    board@ == m,
                    m == old(board)@,
                    e == *evaluator,
                    dn == depth as nat,
                    mover == side.spec_other(),
                    other == side.spec_other(),
                    !m.finished,
                    depth >= 1,
                    max_node_count < u32::MAX,
                    alpha < beta,
                    on_board(from),
                    cell_index(from) == fi < 90,
                    friend_at(m.grid, mover, from),
                    mi <= moves@.len(),
                    forall|t: (i32, i32)| #[trigger] moves@.contains(t) <==> dest_allowed(
                        m,
                        from,
                        t,
                    ),
                    forall|k1: int, k2: int|
                        0 <= k1 < k2 < moves@.len() ==> cell_index(#[trigger] moves@[k1])
                            < cell_index(#[trigger] moves@[k2]),
                    *old(current_node_count) <= max_node_count,
                    *current_node_count >= *old(current_node_count) + 1,
                    *current_node_count <= max_node_count + 1,
                    *current_node_count <= *old(current_node_count) + 1 + counted_cells(
                        m,
                        mover,
                        dn,
                        fi as int,
                    ) + counted_tos(m, mover, dn, from, moves@, mi as int),
                    cur_beta == if score < beta {
                        score as int
                    } else {
                        beta as int
                    },
                    score == i64::MAX || -SCORE_LIMIT <= score <= SCORE_LIMIT,
                    done ==> score <= alpha,
                    !done ==> score > alpha,
                    score == i64::MAX ==> step is None,
                    score < i64::MAX ==> (step matches Some(s) && on_board(s.0) && friend_at(
                        m.grid,
                        mover,
                        s.0,
                    ) && dest_allowed(m, s.0, s.1)),
                    (!done && score < beta) ==> (step matches Some(s) && search_child(
                        e,
                        side,
                        mover,
                        m,
                        dn,
                        s.0,
                        s.1,
                    ) == score),
                    score < beta ==> exists|f: (i32, i32), t: (i32, i32)|
                        on_board(f) && friend_at(m.grid, mover, f) && #[trigger] dest_allowed(
                            m,
                            f,
                            t,
                        ) && search_child(e, side, mover, m, dn, f, t) <= score,
                    !done ==> forall|f: (i32, i32), t: (i32, i32)|
                        (on_board(f) && cell_index(f) < fi && friend_at(m.grid, mover, f)
                            && #[trigger] dest_allowed(m, f, t)) ==> (score < i64::MAX
                            && search_child(e, side, mover, m, dn, f, t) >= score),
                    !done ==> forall|k: int|
                        0 <= k < mi ==> (score < i64::MAX && search_child(
                            e,
                            side,
                            mover,
                            m,
                            dn,
                            from,
                            #[trigger] moves@[k],
                        ) >= score),
                decreases moves@.len() - mi,
            {
                let to = moves[mi];
                let ghost idx = cell_index(to);
                proof {
                    assert(moves@.contains(to));
                    lemma_dest_on_board(m.grid, from, to);
                    lemma_index_pos_inverse(to);
                    assert(m.move_count < u32::MAX);
                    assert(node_sum_tos(m, mover, dn, from, idx) == tree_nodes(
                        apply_model(m, from, to),
                        mover.spec_other(),
                        (dn - 1) as nat,
                    ) + node_sum_tos(m, mover, dn, from, idx + 1));
                    assert(node_sum_cells(m, mover, dn, fi as int) == node_sum_tos(
                        m,
                        mover,
                        dn,
                        from,
                        0,
                    ) + node_sum_cells(m, mover, dn, fi + 1)) by {
                        lemma_index_pos_on_board(fi as int);
                        assert(index_pos(fi as int) =~= from);
                    }
                    lemma_node_sum_cells_nonneg(m, mover, dn, fi + 1);
                    if mi + 1 < moves@.len() {
                        let jn = cell_index(moves@[mi + 1]);
                        assert(moves@.contains(moves@[mi as int + 1]));
                        lemma_dest_on_board(m.grid, from, moves@[mi as int + 1]);
                        assert(0 <= jn < 90);
                        assert(idx < jn);
                        assert forall|jj: int| idx + 1 <= jj < jn implies !dest_allowed(
                            m,
                            from,
                            #[trigger] index_pos(jj),
                        ) by {
                            if 0 <= jj < 90 && dest_allowed(m, from, index_pos(jj)) {
                                lemma_legal_index_in_moves(m, from, moves@, jj);
                                let k = choose|k: int|
                                    0 <= k < moves@.len() && cell_index(#[trigger] moves@[k])
                                        == jj;
                                assert(cell_index(moves@[mi as int]) == idx);
                                if k <= mi {
                                    assert(cell_index(moves@[k]) <= idx);
                                } else {
                                    assert(cell_index(moves@[k]) >= cell_index(
                                        moves@[mi as int + 1],
                                    ));
                                }
                                assert(false);
                            }
                        }
                        lemma_node_sum_tos_skip(m, mover, dn, from, idx + 1, jn);
                    } else {
                        assert forall|jj: int| idx + 1 <= jj < 90 implies !dest_allowed(
                            m,
                            from,
                            #[trigger] index_pos(jj),
                        ) by {
                            if dest_allowed(m, from, index_pos(jj)) {
                                lemma_legal_index_in_moves(m, from, moves@, jj);
                                let k = choose|k: int|
                                    0 <= k < moves@.len() && cell_index(#[trigger] moves@[k])
                                        == jj;
                                assert(cell_index(moves@[mi as int]) == idx);
                                assert(cell_index(moves@[k]) <= idx);
                                assert(false);
                            }
                        }
                        lemma_node_sum_tos_skip(m, mover, dn, from, idx + 1, 90);
                    }
                    lemma_node_sum_tos_nonneg(m, mover, dn, from, idx + 1);
                }
                let ghost score0 = score;
                let ghost cur_beta0 = cur_beta;
                let ghost count_before = *current_node_count;
                board.do_move_unchecked(from, to);
                let child_r = max_search(
                    depth - 1,
                    current_node_count,
                    max_node_count,
                    board,
                    side,
                    evaluator,
                    alpha,
                    cur_beta,
                );
                let _ = board.undo_move();
                proof {
                    lemma_apply_undo_round_trip(m, from, to);
                }
                match child_r {
                    None => {
                        proof {
                            assert(count_before + tree_nodes(
                                apply_model(m, from, to),
                                mover.spec_other(),
                                (dn - 1) as nat,
                            ) > max_node_count + 1);
                            assert(*old(current_node_count) + tree_nodes(m, mover, dn)
                                > max_node_count + 1);
                            assert(*current_node_count <= *old(current_node_count) + tree_nodes(
                                m,
                                mover,
                                dn,
                            ));
                        }
                        return None;
                    },
                    Some(v) => {
                        let ghost ctv = search_child(e, side, mover, m, dn, from, to);
                        proof {
                            assert(ctv == max_value(
                                e,
                                side,
                                apply_model(m, from, to),
                                (depth - 1) as nat,
                            ));
                        }
                        if v.score < score {
                            score = v.score;
                            step = Some((from, to));
                        }
                        if score < cur_beta {
                            cur_beta = score;
                        }
                        if alpha >= cur_beta {
                            done = true;
                        }
                        proof {
                            if score < beta {
                                if v.score == score && v.score < score0 {
                                    assert(v.score < cur_beta0);
                                    assert(ctv <= score);
                                    assert(dest_allowed(m, from, to) && on_board(from)
                                        && friend_at(m.grid, mover, from) && search_child(
                                        e,
                                        side,
                                        mover,
                                        m,
                                        dn,
                                        from,
                                        to,
                                    ) <= score);
                                }
                            }
                            if !done && score < beta && v.score == score && v.score < score0 {
                                assert(v.score > alpha);
                                assert(ctv == score);
                            }
                            if !done {
                                assert forall|k: int| 0 <= k < mi + 1 implies (score < i64::MAX
                                    && search_child(
                                    e,
                                    side,
                                    mover,
                                    m,
                                    dn,
                                    from,
                                    #[trigger] moves@[k],
                                ) >= score) by {
                                    if k == mi {
                                        assert(v.score >= score);
                                        if v.score >= cur_beta0 {
                                            assert(ctv >= v.score);
                                        } else {
                                            assert(v.score > alpha);
                                            assert(ctv == v.score);
                                        }
                                    }
                                }
                            }
                        }
                        mi = mi + 1;
                    },
                }
            }
            proof {
                if !done {
                    assert forall|f: (i32, i32), t: (i32, i32)|
                        (on_board(f) && cell_index(f) < fi + 1 && friend_at(m.grid, mover, f)
                            && #[trigger] dest_allowed(m, f, t)) implies (score < i64::MAX
                        && search_child(e, side, mover, m, dn, f, t) >= score) by {
                        if cell_index(f) == fi {
                            assert(f =~= from);
                            assert(moves@.contains(t));
                            let k = choose|k: int| 0 <= k < moves@.len() && moves@[k] == t;
                            assert(search_child(e, side, mover, m, dn, from, moves@[k]) >= score);
                        }
                    }
                }
                assert(node_sum_cells(m, mover, dn, fi as int) == node_sum_tos(
                    m,
                    mover,
                    dn,
                    from,
                    0,
                ) + node_sum_cells(m, mover, dn, fi + 1)) by {
                    lemma_index_pos_on_board(fi as int);
                    assert(index_pos(fi as int) =~= from);
                }
                if mi < moves.len() {
                    assert(moves@.contains(moves@[mi as int]));
                    lemma_dest_on_board(m.grid, from, moves@[mi as int]);
                    lemma_node_sum_tos_nonneg(
                        m,
                        mover,
                        dn,
                        from,
                        cell_index(moves@[mi as int]),
                    );
                }
            }
        } else {
            proof {
                assert forall|f: (i32, i32), t: (i32, i32)|
                    (on_board(f) && cell_index(f) < fi + 1 && friend_at(m.grid, mover, f)
                        && #[trigger] dest_allowed(m, f, t)) implies (score < i64::MAX
                    && search_child(e, side, mover, m, dn, f, t) >= score) by {
                    if cell_index(f) == fi {
                        assert(f =~= from);
                    }
                }
                assert(node_sum_cells(m, mover, dn, fi as int) == node_sum_cells(
                    m,
                    mover,
                    dn,
                    fi + 1,
                )) by {
                    lemma_index_pos_on_board(fi as int);
                    assert(index_pos(fi as int) =~= from);
                }
            }
        }
        fi = fi + 1;
    }
    proof {
        lemma_node_sum_cells_nonneg(m, mover, dn, fi as int);
        assert(tree_nodes(m, mover, dn) == 1 + node_sum_cells(m, mover, dn, 0));
        assert(*current_node_count <= *old(current_node_count) + tree_nodes(m, mover, dn));
    }
    if score == i64::MAX {
        proof {
            assert(!done);
            assert(!has_any_move(m, mover)) by {
                if has_any_move(m, mover) {
                    let (f, t) = choose|f: (i32, i32), t: (i32, i32)|
                        on_board(f) && friend_at(m.grid, mover, f) && #[trigger] dest_allowed(
                            m,
                            f,
                            t,
                        );
                    assert(0 <= cell_index(f) < 90);
                    assert(false);
                }
            }
            if search_cells(e, side, mover, m, dn, 0) is Some {
                lemma_search_cells_achieves(e, side, mover, m, dn, 0);
                assert(false);
            }
            assert(min_value(e, side, m, dn) == e.score_spec(side, m));
        }
        let leaf_score = evaluator.evaluate(side, board);
        Some(AIDecision { step: None, score: leaf_score })
    } else {
        proof {
            let s0 = step->Some_0;
            lemma_search_cells_covers(e, side, mover, m, dn, 0, s0.0, s0.1);
            assert(search_cells(e, side, mover, m, dn, 0) is Some);
            assert(min_value(e, side, m, dn) == search_cells(e, side, mover, m, dn, 0)->Some_0);
            if done {
                assert(score <= alpha && score < beta);
                let (f, t) = choose|f: (i32, i32), t: (i32, i32)|
                    on_board(f) && friend_at(m.grid, mover, f) && #[trigger] dest_allowed(m, f, t)
                        && search_child(e, side, mover, m, dn, f, t) <= score;
                lemma_search_cells_covers(e, side, mover, m, dn, 0, f, t);
                assert(min_value(e, side, m, dn) <= score);
            } else {
                assert(score > alpha && fi == 90);
                lemma_search_cells_achieves(e, side, mover, m, dn, 0);
                let (fa, ta) = choose|f: (i32, i32), t: (i32, i32)|
                    on_board(f) && friend_at(m.grid, mover, f) && #[trigger] dest_allowed(m, f, t)
                        && search_cells(e, side, mover, m, dn, 0)->Some_0 == search_child(
                        e,
                        side,
                        mover,
                        m,
                        dn,
                        f,
                        t,
                    );
                assert(0 <= cell_index(fa) < 90);
                assert(min_value(e, side, m, dn) >= score);
                if score < beta {
                    let (f, t) = choose|f: (i32, i32), t: (i32, i32)|
                        on_board(f) && friend_at(m.grid, mover, f) && #[trigger] dest_allowed(
                            m,
                            f,
                            t,
                        ) && search_child(e, side, mover, m, dn, f, t) <= score;
                    lemma_search_cells_covers(e, side, mover, m, dn, 0, f, t);
                    assert(min_value(e, side, m, dn) <= score);
                }
            }
        }
        Some(AIDecision { step, score })
    }
}

} // verus!
