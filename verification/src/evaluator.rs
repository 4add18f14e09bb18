//! Position evaluators: the pluggable `Evaluator` abstraction, a material
//! evaluator summing fixed per-kind piece values, and a decorator that
//! deepens any evaluator with a bounded full-width negamax search.

use vstd::prelude::*;

use crate::game::Board;
use crate::laws::lemma_apply_undo_round_trip;
use crate::rules::{
    apply_model, cell_index, dest_allowed, friend_at, index_pos, lemma_dest_on_board,
    lemma_index_pos_inverse, on_board, BoardModel, Cell, Piece, Side,
};

verus! {

/// Every evaluator's score lies within this bound, so scores can be
/// negated and compared against sentinels without overflow.
pub const SCORE_LIMIT: i64 = 1_000_000;

/// The fixed material value of a piece kind.
pub open spec fn spec_piece_value(k: Piece) -> int {
    match k {
        Piece::Soldier => 1,
        Piece::Advisor => 3,
        Piece::Elephant => 3,
        Piece::Cannon => 5,
        Piece::Horse => 5,
        Piece::Chariot => 10,
        Piece::General => 100,
    }
}

/// The material value of one cell seen from `side`: positive for a
/// friendly piece, negative for an enemy one, zero for an empty cell.
pub open spec fn spec_cell_value(side: Side, c: Cell) -> int {
    match c {
        Some(p) => if p.0 == side {
            spec_piece_value(p.1)
        } else {
            -spec_piece_value(p.1)
        },
        None => 0,
    }
}

/// The material score of the first `n` cells of the grid, seen from
/// `side`.
pub open spec fn material_prefix(g: Seq<Cell>, side: Side, n: int) -> int
    decreases n,
{
    if n <= 0 {
        0
    } else {
        material_prefix(g, side, n - 1) + spec_cell_value(side, g[n - 1])
    }
}

/// The material score of a grid, seen from `side`.
pub open spec fn material_score(g: Seq<Cell>, side: Side) -> int {
    material_prefix(g, side, 90)
}

/// A material prefix sum is bounded by 100 per cell.
pub proof fn lemma_material_prefix_bounds(g: Seq<Cell>, side: Side, n: int)
    requires
        n >= 0,
    ensures
        -100 * n <= material_prefix(g, side, n) <= 100 * n,
    decreases n,
{
    if n > 0 {
        lemma_material_prefix_bounds(g, side, n - 1);
    }
}

/// The material score is antisymmetric: a position scores for one camp
/// exactly the negation of what it scores for the other.
pub proof fn lemma_material_antisymmetric(g: Seq<Cell>, side: Side)
    ensures
        material_score(g, side) == -material_score(g, side.spec_other()),
{
    lemma_material_prefix_antisymmetric(g, side, 90);
}

proof fn lemma_material_prefix_antisymmetric(g: Seq<Cell>, side: Side, n: int)
    ensures
        material_prefix(g, side, n) == -material_prefix(g, side.spec_other(), n),
    decreases n,
{
    if n > 0 {
        lemma_material_prefix_antisymmetric(g, side, n - 1);
    }
}

/// Scores a position from one camp's perspective; higher is better for
/// that camp.  The specification-level score pins the executable result
/// down exactly, and every score lies within `SCORE_LIMIT`.
pub trait Evaluator: Sized {
    /// The score this evaluator assigns, as a specification-level
    /// function of the board model.
    spec fn score_spec(&self, side: Side, m: BoardModel) -> int;

    /// Every score lies within the common bound.
    proof fn lemma_score_in_range(&self, side: Side, m: BoardModel)
        ensures
            -SCORE_LIMIT <= self.score_spec(side, m) <= SCORE_LIMIT,
    ;

    /// The score of `board` for `side`.
    fn evaluate(&self, side: Side, board: &Board) -> (r: i64)
        requires
            board.wf(),
        ensures
            r == self.score_spec(side, board@),
            -SCORE_LIMIT <= r <= SCORE_LIMIT,
    ;
}

/// The executable mirror of `spec_piece_value`.
fn piece_value(k: Piece) -> (v: i64)
    ensures
        v == spec_piece_value(k),
        1 <= v <= 100,
{
    match k {
        Piece::Soldier => 1,
        Piece::Advisor => 3,
        Piece::Elephant => 3,
        Piece::Cannon => 5,
        Piece::Horse => 5,
        Piece::Chariot => 10,
        Piece::General => 100,
    }
}

/// The material evaluator: sums a fixed per-kind value over every
/// occupied cell, positive for `side`'s pieces and negative for the
/// opponent's.
#[derive(Debug, Clone, Copy, PartialEq, Eq, Structural)]
pub struct ShortSightedEvaluator {}

impl ShortSightedEvaluator {
    /// A material evaluator.
    pub fn new() -> ShortSightedEvaluator {
        ShortSightedEvaluator {  }
    }
}

impl Evaluator for ShortSightedEvaluator {
    open spec fn score_spec(&self, side: Side, m: BoardModel) -> int {
        material_score(m.grid, side)
    }

    proof fn lemma_score_in_range(&self, side: Side, m: BoardModel) {
        lemma_material_prefix_bounds(m.grid, side, 90);
    }

    fn evaluate(&self, side: Side, board: &Board) -> (r: i64) {
        let map = board.get_map();
        let mut ret: i64 = 0;
        let mut i: usize = 0;
        while i < 90
            invariant
                map@ == board@.grid,
                map@.len() == 90,
                i <= 90,
                ret == material_prefix(board@.grid, side, i as int),
                -100 * i <= ret <= 100 * i,
            decreases 90 - i,
        {
            match map[i] {
                Some(p) => {
                    let v = piece_value(p.1);
                    if p.0 == side {
                        ret = ret + v;
                    } else {
                        ret = ret - v;
                    }
                },
                None => {},
            }
            i = i + 1;
        }
        proof {
            lemma_material_prefix_bounds(board@.grid, side, 90);
        }
        ret
    }
}

/// The larger of two optional scores; `None` acts as the identity.
pub open spec fn opt_max(a: Option<int>, b: Option<int>) -> Option<int> {
    match b {
        None => a,
        Some(y) => match a {
            None => b,
            Some(x) => if x >= y {
                a
            } else {
                b
            },
        },
    }
}

/// The value of a full-width negamax search to the given depth: at depth
/// zero or on a terminal position, the base evaluator's score for the side
/// to move; otherwise the maximum over that side's legal moves of the
/// negated value of the position after the move, for the opponent; when
/// the side has no legal move at all, the base evaluator's score directly.
pub open spec fn nega_value<E: Evaluator>(e: E, side: Side, m: BoardModel, depth: nat) -> int
    decreases depth, 3int, 0int,
{
    if depth == 0 || m.finished {
        e.score_spec(side, m)
    } else {
        match nega_cells(e, side, m, depth, 0) {
            Some(v) => v,
            None => e.score_spec(side, m),
        }
    }
}

/// The best negamax score over the moves of the pieces standing on cells
/// with flat index at least `i`; `None` when there are none.
pub open spec fn nega_cells<E: Evaluator>(
    e: E,
    side: Side,
    m: BoardModel,
    depth: nat,
    i: int,
) -> Option<int>
    decreases depth, 2int, 90 - i,
{
    if !(0 <= i < 90) || depth == 0 {
        None
    } else {
        opt_max(
            if friend_at(m.grid, side, index_pos(i)) {
                nega_tos(e, side, m, depth, index_pos(i), 0)
            } else {
                None
            },
            nega_cells(e, side, m, depth, i + 1),
        )
    }
}

/// The best negamax score over the moves of the piece at `from` whose
/// destination has flat index at least `j`; `None` when there are none.
pub open spec fn nega_tos<E: Evaluator>(
    e: E,
    side: Side,
    m: BoardModel,
    depth: nat,
    from: (i32, i32),
    j: int,
) -> Option<int>
    decreases depth, 1int, 90 - j,
{
    if !(0 <= j < 90) || depth == 0 {
        None
    } else {
        opt_max(
            if dest_allowed(m, from, index_pos(j)) {
                Some(nega_child(e, side, m, depth, from, index_pos(j)))
            } else {
                None
            },
            nega_tos(e, side, m, depth, from, j + 1),
        )
    }
}

/// What one move contributes to a negamax node: the negated value of the
/// position after the move, searched one level shallower for the
/// opponent.
pub open spec fn nega_child<E: Evaluator>(
    e: E,
    side: Side,
    m: BoardModel,
    depth: nat,
    from: (i32, i32),
    to: (i32, i32),
) -> int
    decreases depth, 0int, 0int,
{
    if depth == 0 {
        0
    } else {
        -nega_value(e, side.spec_other(), apply_model(m, from, to), (depth - 1) as nat)
    }
}

/// Negamax values stay within the common score bound.
pub proof fn lemma_nega_value_in_range<E: Evaluator>(e: E, side: Side, m: BoardModel, depth: nat)
    ensures
        -SCORE_LIMIT <= nega_value(e, side, m, depth) <= SCORE_LIMIT,
    decreases depth, 3int, 0int,
{
    if depth == 0 || m.finished {
        e.lemma_score_in_range(side, m);
    } else {
        match nega_cells(e, side, m, depth, 0) {
            Some(v) => lemma_nega_cells_in_range(e, side, m, depth, 0),
            None => e.lemma_score_in_range(side, m),
        }
    }
}

proof fn lemma_nega_cells_in_range<E: Evaluator>(e: E, side: Side, m: BoardModel, depth: nat, i: int)
    ensures
        nega_cells(e, side, m, depth, i) matches Some(v) ==> -SCORE_LIMIT <= v <= SCORE_LIMIT,
    decreases depth, 2int, 90 - i,
{
    if 0 <= i < 90 && depth > 0 {
        if friend_at(m.grid, side, index_pos(i)) {
            lemma_nega_tos_in_range(e, side, m, depth, index_pos(i), 0);
        }
        lemma_nega_cells_in_range(e, side, m, depth, i + 1);
    }
}

proof fn lemma_nega_tos_in_range<E: Evaluator>(
    e: E,
    side: Side,
    m: BoardModel,
    depth: nat,
    from: (i32, i32),
    j: int,
)
    ensures
        nega_tos(e, side, m, depth, from, j) matches Some(v) ==> -SCORE_LIMIT <= v <= SCORE_LIMIT,
    decreases depth, 1int, 90 - j,
{
    if 0 <= j < 90 && depth > 0 {
        let to = index_pos(j);
        let here = if dest_allowed(m, from, to) {
            Some(nega_child(e, side, m, depth, from, to))
        } else {
            None
        };
        let rest = nega_tos(e, side, m, depth, from, j + 1);
        assert(nega_tos(e, side, m, depth, from, j) == opt_max(here, rest));
        if dest_allowed(m, from, to) {
            lemma_nega_value_in_range(
                e,
                side.spec_other(),
                apply_model(m, from, to),
                (depth - 1) as nat,
            );
            assert(-SCORE_LIMIT <= nega_child(e, side, m, depth, from, to) <= SCORE_LIMIT);
        }
        lemma_nega_tos_in_range(e, side, m, depth, from, j + 1);
        assert(rest matches Some(v) ==> -SCORE_LIMIT <= v <= SCORE_LIMIT);
    }
}

/// Every legal destination of `from` with index at least `j` is covered:
/// the fold is `Some` and at least that move's contribution.
proof fn lemma_nega_tos_covers<E: Evaluator>(
    e: E,
    side: Side,
    m: BoardModel,
    depth: nat,
    from: (i32, i32),
    j: int,
    to: (i32, i32),
)
    requires
        depth >= 1,
        0 <= j <= cell_index(to) < 90,
        dest_allowed(m, from, to),
    ensures
        nega_tos(e, side, m, depth, from, j) is Some,
        nega_tos(e, side, m, depth, from, j)->Some_0 >= nega_child(e, side, m, depth, from, to),
    decreases 90 - j,
{
    lemma_dest_on_board(m.grid, from, to);
    if j == cell_index(to) {
        lemma_index_pos_inverse(to);
    } else {
        lemma_nega_tos_covers(e, side, m, depth, from, j + 1, to);
    }
}

/// A `Some` fold over destinations is achieved by some legal move.
proof fn lemma_nega_tos_achieves<E: Evaluator>(
    e: E,
    side: Side,
    m: BoardModel,
    depth: nat,
    from: (i32, i32),
    j: int,
)
    requires
        depth >= 1,
        nega_tos(e, side, m, depth, from, j) is Some,
    ensures
        exists|t: (i32, i32)| #[trigger] dest_allowed(m, from, t) && nega_tos(
            e,
            side,
            m,
            depth,
            from,
            j,
        )->Some_0 == nega_child(e, side, m, depth, from, t),
    decreases 90 - j,
{
    let here = if dest_allowed(m, from, index_pos(j)) {
        Some(nega_child(e, side, m, depth, from, index_pos(j)))
    } else {
        None
    };
    let rest = nega_tos(e, side, m, depth, from, j + 1);
    if rest is Some {
        lemma_nega_tos_achieves(e, side, m, depth, from, j + 1);
    }
    let v = nega_tos(e, side, m, depth, from, j)->Some_0;
    if here matches Some(x) && v == x {
        assert(dest_allowed(m, from, index_pos(j)) && v == nega_child(
            e,
            side,
            m,
            depth,
            from,
            index_pos(j),
        ));
    }
}

/// Every legal move of `side` from a cell with index at least `i` is
/// covered: the fold is `Some` and at least that move's contribution.
proof fn lemma_nega_cells_covers<E: Evaluator>(
    e: E,
    side: Side,
    m: BoardModel,
    depth: nat,
    i: int,
    f: (i32, i32),
    t: (i32, i32),
)
    requires
        depth >= 1,
        0 <= i <= cell_index(f) < 90,
        on_board(f),
        friend_at(m.grid, side, f),
        dest_allowed(m, f, t),
    ensures
        nega_cells(e, side, m, depth, i) is Some,
        nega_cells(e, side, m, depth, i)->Some_0 >= nega_child(e, side, m, depth, f, t),
    decreases 90 - i,
{
    if i == cell_index(f) {
        lemma_index_pos_inverse(f);
        lemma_nega_tos_covers(e, side, m, depth, f, 0, t);
    } else {
        lemma_nega_cells_covers(e, side, m, depth, i + 1, f, t);
    }
}

/// A `Some` fold over cells is achieved by some legal move of `side`.
proof fn lemma_nega_cells_achieves<E: Evaluator>(e: E, side: Side, m: BoardModel, depth: nat, i: int)
    requires
        depth >= 1,
        nega_cells(e, side, m, depth, i) is Some,
    ensures
        exists|f: (i32, i32), t: (i32, i32)|
            on_board(f) && friend_at(m.grid, side, f) && #[trigger] dest_allowed(m, f, t)
                && nega_cells(e, side, m, depth, i)->Some_0 == nega_child(e, side, m, depth, f, t),
    decreases 90 - i,
{
    let from = index_pos(i);
    let here = if friend_at(m.grid, side, from) {
        nega_tos(e, side, m, depth, from, 0)
    } else {
        None
    };
    let rest = nega_cells(e, side, m, depth, i + 1);
    if rest is Some {
        lemma_nega_cells_achieves(e, side, m, depth, i + 1);
    }
    let v = nega_cells(e, side, m, depth, i)->Some_0;
    if here matches Some(x) && v == x {
        lemma_nega_tos_achieves(e, side, m, depth, from, 0);
        let t = choose|t: (i32, i32)| #[trigger] dest_allowed(m, from, t) && nega_tos(
            e,
            side,
            m,
            depth,
            from,
            0,
        )->Some_0 == nega_child(e, side, m, depth, from, t);
        assert(0 <= i < 90);
        assert(on_board(from)) by {
            vstd::arithmetic::div_mod::lemma_fundamental_div_mod(i, 10);
        }
        assert(on_board(from) && friend_at(m.grid, side, from) && dest_allowed(m, from, t) && v
            == nega_child(e, side, m, depth, from, t));
    }
}

/// Deepens any evaluator with a bounded full-width negamax search: the
/// score of a position is the base evaluator's score after looking
/// `depth` plies ahead.
#[derive(Debug)]
pub struct EnhancedEvaluator<Original> where Original: Evaluator {
    pub depth: u32,
    pub original: Original,
}

impl<Original> EnhancedEvaluator<Original> where Original: Evaluator {
    /// Wraps `original`, deepening it by `depth` plies.
    pub fn new(depth: u32, original: Original) -> (r: EnhancedEvaluator<Original>)
        ensures
            r.depth == depth,
            r.original == original,
    {
        EnhancedEvaluator { depth, original }
    }

    /// The full-width negamax recursion: applies every legal move of
    /// `side`, recurses one level shallower for the opponent, undoes the
    /// move, and keeps the maximum negated child score; scores the
    /// position directly when the depth is exhausted, the position is
    /// terminal, or `side` has no legal move.
    fn search(&self, depth: u32, side: Side, board: &mut Board) -> (r: i64)
        requires
            old(board).wf(),
        ensures
            final(board)@ == old(board)@,
            final(board).wf(),
            r == nega_value(self.original, side, old(board)@, depth as nat),
            -SCORE_LIMIT <= r <= SCORE_LIMIT,
        decreases depth,
    {
        let ghost m = board@;
        let ghost e = self.original;
        if depth == 0 || board.finished() {
            return self.original.evaluate(side, board);
        }
        let mut best: i64 = 0;
        let mut any = false;
        let mut fi: usize = 0;
        while fi < 90
            invariant
                self.wf_search_frame(depth, side, board, m),
                e == self.original,
                m == old(board)@,
                board@ == m,
                fi <= 90,
                any ==> -SCORE_LIMIT <= best <= SCORE_LIMIT,
                any ==> exists|f: (i32, i32), t: (i32, i32)|
                    on_board(f) && friend_at(m.grid, side, f) && #[trigger] dest_allowed(m, f, t)
                        && best == nega_child(e, side, m, depth as nat, f, t),
                forall|f: (i32, i32), t: (i32, i32)|
                    (on_board(f) && cell_index(f) < fi && friend_at(m.grid, side, f)
                        && #[trigger] dest_allowed(m, f, t)) ==> (any && nega_child(
                        e,
                        side,
                        m,
                        depth as nat,
                        f,
                        t,
                    ) <= best),
            decreases 90 - fi,
        {
            proof {
                vstd::arithmetic::div_mod::lemma_fundamental_div_mod(fi as int, 10);
            }
            let from = ((fi / 10) as i32, (fi % 10) as i32);
            proof {
                assert(cell_index(from) == fi);
                assert(on_board(from));
            }
            if board.has_friend_at(side, from) {
                let moves = board.all_possible_moves(from);
                let mut mi: usize = 0;
                while mi < moves.len()
                    invariant
                        self.wf_search_frame(depth, side, board, m),
                        e == self.original,
                        m == old(board)@,
                        board@ == m,
                        on_board(from),
                        cell_index(from) == fi < 90,
                        friend_at(m.grid, side, from),
                        mi <= moves@.len(),
                        forall|t: (i32, i32)| #[trigger] moves@.contains(t) <==> dest_allowed(
                            m,
                            from,
                            t,
                        ),
                        any ==> -SCORE_LIMIT <= best <= SCORE_LIMIT,
                        any ==> exists|f: (i32, i32), t: (i32, i32)|
                            on_board(f) && friend_at(m.grid, side, f) && #[trigger] dest_allowed(
                                m,
                                f,
                                t,
                            ) && best == nega_child(e, side, m, depth as nat, f, t),
                        forall|f: (i32, i32), t: (i32, i32)|
                            (on_board(f) && cell_index(f) < fi && friend_at(m.grid, side, f)
                                && #[trigger] dest_allowed(m, f, t)) ==> (any && nega_child(
                                e,
                                side,
                                m,
                                depth as nat,
                                f,
                                t,
                            ) <= best),
                        forall|k: int|
                            0 <= k < mi ==> (any && nega_child(
                                e,
                                side,
                                m,
                                depth as nat,
                                from,
                                #[trigger] moves@[k],
                            ) <= best),
                    decreases moves@.len() - mi,
                {
                    let to = moves[mi];
                    proof {
                        assert(moves@.contains(to));
                        lemma_dest_on_board(m.grid, from, to);
                        assert(!m.finished);
                        assert(m.move_count < u32::MAX);
                    }
                    board.do_move_unchecked(from, to);
                    let child = self.search(depth - 1, side.other(), board);
                    let v = -child;
                    let _ = board.undo_move();
                    proof {
                        lemma_apply_undo_round_trip(m, from, to);
                        assert(board@ == m);
                        assert(child == nega_value(
                            e,
                            side.spec_other(),
                            apply_model(m, from, to),
                            (depth - 1) as nat,
                        ));
                        assert((depth - 1) as nat == ((depth as nat) - 1) as nat);
                        assert(nega_child(e, side, m, depth as nat, from, to) == -nega_value(
                            e,
                            side.spec_other(),
                            apply_model(m, from, to),
                            ((depth as nat) - 1) as nat,
                        ));
                        assert(v == nega_child(e, side, m, depth as nat, from, to));
                    }
                    if !any || v > best {
                        best = v;
                        any = true;
                        proof {
                            assert(dest_allowed(m, from, to) && best == nega_child(
                                e,
                                side,
                                m,
                                depth as nat,
                                from,
                                to,
                            ));
                        }
                    }
                    mi = mi + 1;
                }
                proof {
                    assert forall|f: (i32, i32), t: (i32, i32)|
                        (on_board(f) && cell_index(f) < fi + 1 && friend_at(m.grid, side, f)
                            && #[trigger] dest_allowed(m, f, t)) implies (any && nega_child(
                        e,
                        side,
                        m,
                        depth as nat,
                        f,
                        t,
                    ) <= best) by {
                        if cell_index(f) == fi {
                            assert(f =~= from);
                            assert(moves@.contains(t));
                            let k = choose|k: int| 0 <= k < moves@.len() && moves@[k] == t;
                            assert(nega_child(e, side, m, depth as nat, from, moves@[k]) <= best);
                        }
                    }
                }
            } else {
                proof {
                    assert forall|f: (i32, i32), t: (i32, i32)|
                        (on_board(f) && cell_index(f) < fi + 1 && friend_at(m.grid, side, f)
                            && #[trigger] dest_allowed(m, f, t)) implies (any && nega_child(
                        e,
                        side,
                        m,
                        depth as nat,
                        f,
                        t,
                    ) <= best) by {
                        if cell_index(f) == fi {
                            assert(f =~= from);
                        }
                    }
                }
            }
            fi = fi + 1;
        }
        if any {
            proof {
                let dn = depth as nat;
                let (fw, tw) = choose|f: (i32, i32), t: (i32, i32)|
                    on_board(f) && friend_at(m.grid, side, f) && #[trigger] dest_allowed(m, f, t)
                        && best == nega_child(e, side, m, dn, f, t);
                lemma_nega_cells_covers(e, side, m, dn, 0, fw, tw);
                assert(nega_cells(e, side, m, dn, 0) is Some);
                lemma_nega_cells_achieves(e, side, m, dn, 0);
                let (fa, ta) = choose|f: (i32, i32), t: (i32, i32)|
                    on_board(f) && friend_at(m.grid, side, f) && #[trigger] dest_allowed(m, f, t)
                        && nega_cells(e, side, m, dn, 0)->Some_0 == nega_child(e, side, m, dn, f, t);
                assert(nega_cells(e, side, m, dn, 0)->Some_0 <= best);
                assert(nega_cells(e, side, m, dn, 0)->Some_0 >= best);
                assert(nega_value(e, side, m, dn) == best);
            }
            best
        } else {
            proof {
                let dn = depth as nat;
                if nega_cells(e, side, m, dn, 0) is Some {
                    lemma_nega_cells_achieves(e, side, m, dn, 0);
                    assert(false);
                }
                assert(nega_value(e, side, m, dn) == e.score_spec(side, m));
            }
            self.original.evaluate(side, board)
        }
    }

    /// The facts the search loops carry about the surrounding frame.
    spec fn wf_search_frame(&self, depth: u32, side: Side, board: &Board, m: BoardModel) -> bool {
        &&& board.wf()
        &&& !m.finished
        &&& depth >= 1
    }
}

impl<Original> Evaluator for EnhancedEvaluator<Original> where Original: Evaluator {
    open spec fn score_spec(&self, side: Side, m: BoardModel) -> int {
        nega_value(self.original, side, m, self.depth as nat)
    }

    proof fn lemma_score_in_range(&self, side: Side, m: BoardModel) {
        lemma_nega_value_in_range(self.original, side, m, self.depth as nat);
    }

    fn evaluate(&self, side: Side, board: &Board) -> (r: i64) {
        let mut owned = board.clone();
        self.search(self.depth, side, &mut owned)
    }
}

} // verus!
