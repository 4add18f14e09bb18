//! The mathematical model of a Xiangqi position and the piece-movement law.
//!
//! Everything in this module is specification-level: a position is a flat
//! sequence of 90 cells (file 0..=8, rank 0..=9, cell `(x, y)` at index
//! `x * 10 + y`), together with the undo history and the cached flags that
//! the executable board mirrors.  The movement law is written as one spec
//! predicate per piece kind; the executable move generator is proved to
//! return exactly the destinations these predicates allow.

use vstd::prelude::*;

verus! {

/// One of the two camps.
#[derive(Debug, Clone, Copy, PartialEq, Eq, Structural)]
pub enum Side {
    Red,
    Black,
}

impl Side {
    /// The opposing camp, as a specification-level function.
    pub open spec fn spec_other(self) -> Side {
        match self {
            Side::Red => Side::Black,
            Side::Black => Side::Red,
        }
    }

    /// The opposing camp.
    pub fn other(&self) -> (r: Side)
        ensures
            r == self.spec_other(),
    {
        match self {
            Side::Red => Side::Black,
            Side::Black => Side::Red,
        }
    }
}

/// A piece kind.
#[derive(Debug, Clone, Copy, PartialEq, Eq, Structural)]
pub enum Piece {
    Soldier,
    Advisor,
    Elephant,
    Cannon,
    Horse,
    Chariot,
    General,
}

/// The fixed ordinal of a piece kind, used only for the secondary
/// "piece identity" score.
pub open spec fn spec_piece_ordinal(p: Piece) -> int {
    match p {
        Piece::Soldier => 1,
        Piece::Advisor => 2,
        Piece::Elephant => 3,
        Piece::Cannon => 4,
        Piece::Horse => 5,
        Piece::Chariot => 6,
        Piece::General => 7,
    }
}

/// The relative identity score of an optional piece, seen from `side`:
/// the ordinal, positive for a friendly piece and negative for an enemy one.
pub open spec fn spec_piece_relative_id(side: Side, piece: Option<(Side, Piece)>) -> int {
    match piece {
        Some(p) => if p.0 == side {
            spec_piece_ordinal(p.1)
        } else {
            -spec_piece_ordinal(p.1)
        },
        None => 0,
    }
}

/// The relative identity score of an optional piece, seen from `side`.
pub fn piece_relative_id(side: Side, piece: Option<(Side, Piece)>) -> (r: i32)
    ensures
        r == spec_piece_relative_id(side, piece),
{
    match piece {
        Some(p) => {
            let abs_value: i32 = match p.1 {
                Piece::Soldier => 1,
                Piece::Advisor => 2,
                Piece::Elephant => 3,
                Piece::Cannon => 4,
                Piece::Horse => 5,
                Piece::Chariot => 6,
                Piece::General => 7,
            };
            if p.0 == side {
                abs_value
            } else {
                -abs_value
            }
        },
        None => 0,
    }
}

/// The contents of one board cell.
pub type Cell = Option<(Side, Piece)>;

/// The record pushed for every applied move, consumed by `undo_move`.
#[derive(Debug, Clone, Copy)]
pub struct UndoMoveRecord {
    pub from_pos: (i32, i32),
    pub from_piece: Cell,
    pub to_pos: (i32, i32),
    pub to_piece: Cell,
}

/// A position is inside the given inclusive rectangle.
pub open spec fn in_rect(pos: (i32, i32), left_down: (i32, i32), right_up: (i32, i32)) -> bool {
    left_down.0 <= pos.0 <= right_up.0 && left_down.1 <= pos.1 <= right_up.1
}

/// A position is on the board.
pub open spec fn on_board(pos: (i32, i32)) -> bool {
    0 <= pos.0 <= 8 && 0 <= pos.1 <= 9
}

/// The flat grid index of the cell `(x, y)`.
pub open spec fn cell_index(pos: (i32, i32)) -> int {
    pos.0 * 10 + pos.1
}

/// The position stored at flat grid index `i`.
pub open spec fn index_pos(i: int) -> (i32, i32) {
    ((i / 10) as i32, (i % 10) as i32)
}

/// The cell at position `pos`.
pub open spec fn cell_at(g: Seq<Cell>, pos: (i32, i32)) -> Cell {
    g[cell_index(pos)]
}

/// The cell `(x, y)` holds a piece.
pub open spec fn occupied_xy(g: Seq<Cell>, x: int, y: int) -> bool {
    g[x * 10 + y] is Some
}

/// The cell at `pos` holds a piece.
pub open spec fn occupied_at(g: Seq<Cell>, pos: (i32, i32)) -> bool {
    cell_at(g, pos) is Some
}

/// The cell at `pos` holds a piece of camp `side`.
pub open spec fn friend_at(g: Seq<Cell>, side: Side, pos: (i32, i32)) -> bool {
    match cell_at(g, pos) {
        Some(p) => p.0 == side,
        None => false,
    }
}

/// The cell at `pos` holds a piece of the camp opposing `side`.
pub open spec fn enemy_at(g: Seq<Cell>, side: Side, pos: (i32, i32)) -> bool {
    friend_at(g, side.spec_other(), pos)
}

/// The number of occupied cells in the column `x` with rank in `[y0, y1)`.
pub open spec fn col_count(g: Seq<Cell>, x: int, y0: int, y1: int) -> int
    decreases y1 - y0,
{
    if y0 >= y1 {
        0
    } else {
        col_count(g, x, y0, y1 - 1) + if occupied_xy(g, x, y1 - 1) { 1int } else { 0int }
    }
}

/// The number of occupied cells with file in `[x0, x1)` and rank in `[y0, y1)`.
pub open spec fn rect_count(g: Seq<Cell>, x0: int, x1: int, y0: int, y1: int) -> int
    decreases x1 - x0,
{
    if x0 >= x1 {
        0
    } else {
        rect_count(g, x0, x1 - 1, y0, y1) + col_count(g, x1 - 1, y0, y1)
    }
}

/// The number of occupied cells in the inclusive rectangle spanned by
/// `left_down` and `right_up`; zero when the rectangle is inverted.
pub open spec fn range_count(g: Seq<Cell>, left_down: (i32, i32), right_up: (i32, i32)) -> int {
    rect_count(g, left_down.0 as int, right_up.0 + 1, left_down.1 as int, right_up.1 + 1)
}

/// The number of occupied cells in the inclusive segment between the aligned
/// positions `a` and `b` (symmetric in its two arguments).
pub open spec fn seg_count(g: Seq<Cell>, a: (i32, i32), b: (i32, i32)) -> int {
    let x0 = if a.0 <= b.0 { a.0 } else { b.0 };
    let x1 = if a.0 <= b.0 { b.0 } else { a.0 };
    let y0 = if a.1 <= b.1 { a.1 } else { b.1 };
    let y1 = if a.1 <= b.1 { b.1 } else { a.1 };
    rect_count(g, x0 as int, x1 + 1, y0 as int, y1 + 1)
}

/// The number of occupied cells of the whole grid.
pub open spec fn total_count(g: Seq<Cell>) -> int {
    rect_count(g, 0, 9, 0, 10)
}

/// The palace of `side`: the 3x3 zone its General and Advisors are
/// confined to.
pub open spec fn in_palace(side: Side, pos: (i32, i32)) -> bool {
    3 <= pos.0 <= 5 && match side {
        Side::Red => 0 <= pos.1 <= 2,
        Side::Black => 7 <= pos.1 <= 9,
    }
}

/// The own half of the board for `side` (the Elephants' confinement).
pub open spec fn in_own_half(side: Side, pos: (i32, i32)) -> bool {
    0 <= pos.0 <= 8 && match side {
        Side::Red => 0 <= pos.1 <= 4,
        Side::Black => 5 <= pos.1 <= 9,
    }
}

/// A Soldier of `side` standing at `from` may move to `to`: one step
/// forward always, and one step sideways once it has crossed the river.
pub open spec fn soldier_dest(g: Seq<Cell>, side: Side, from: (i32, i32), to: (i32, i32)) -> bool {
    &&& on_board(to)
    &&& !friend_at(g, side, to)
    &&& match side {
        Side::Red => {
            ||| (to.0 == from.0 && to.1 == from.1 + 1)
            ||| (from.1 >= 5 && to.1 == from.1 && (to.0 == from.0 + 1 || to.0 == from.0 - 1))
        },
        Side::Black => {
            ||| (to.0 == from.0 && to.1 == from.1 - 1)
            ||| (from.1 <= 4 && to.1 == from.1 && (to.0 == from.0 + 1 || to.0 == from.0 - 1))
        },
    }
}

/// An Advisor of `side` standing at `from` may move to `to`: one diagonal
/// step, confined to the palace.
pub open spec fn advisor_dest(g: Seq<Cell>, side: Side, from: (i32, i32), to: (i32, i32)) -> bool {
    &&& in_palace(side, to)
    &&& !friend_at(g, side, to)
    &&& (to.0 == from.0 + 1 || to.0 == from.0 - 1)
    &&& (to.1 == from.1 + 1 || to.1 == from.1 - 1)
}

/// An Elephant of `side` standing at `from` may move to `to`: exactly two
/// diagonal steps within its own half, blocked when the diagonal midpoint
/// (the "elephant eye") is occupied.
pub open spec fn elephant_dest(g: Seq<Cell>, side: Side, from: (i32, i32), to: (i32, i32)) -> bool {
    &&& in_own_half(side, to)
    &&& !friend_at(g, side, to)
    &&& (to.0 == from.0 + 2 || to.0 == from.0 - 2)
    &&& (to.1 == from.1 + 2 || to.1 == from.1 - 2)
    &&& !occupied_xy(g, (from.0 + to.0) / 2, (from.1 + to.1) / 2)
}

/// A Horse of `side` standing at `from` may move to `to`: a two-by-one
/// leap, blocked when the adjacent cell in the leap's long direction (the
/// "horse leg") is occupied.
pub open spec fn horse_dest(g: Seq<Cell>, side: Side, from: (i32, i32), to: (i32, i32)) -> bool {
    &&& on_board(to)
    &&& !friend_at(g, side, to)
    &&& {
        ||| (to.0 == from.0 + 1 && to.1 == from.1 + 2 && !occupied_xy(g, from.0 as int, from.1 + 1))
        ||| (to.0 == from.0 + 1 && to.1 == from.1 - 2 && !occupied_xy(g, from.0 as int, from.1 - 1))
        ||| (to.0 == from.0 - 1 && to.1 == from.1 + 2 && !occupied_xy(g, from.0 as int, from.1 + 1))
        ||| (to.0 == from.0 - 1 && to.1 == from.1 - 2 && !occupied_xy(g, from.0 as int, from.1 - 1))
        ||| (to.0 == from.0 + 2 && to.1 == from.1 + 1 && !occupied_xy(g, from.0 + 1, from.1 as int))
        ||| (to.0 == from.0 + 2 && to.1 == from.1 - 1 && !occupied_xy(g, from.0 + 1, from.1 as int))
        ||| (to.0 == from.0 - 2 && to.1 == from.1 + 1 && !occupied_xy(g, from.0 - 1, from.1 as int))
        ||| (to.0 == from.0 - 2 && to.1 == from.1 - 1 && !occupied_xy(g, from.0 - 1, from.1 as int))
    }
}

/// The positions `from` and `to` are distinct and share a file or a rank.
pub open spec fn aligned(from: (i32, i32), to: (i32, i32)) -> bool {
    (to.0 == from.0 || to.1 == from.1) && to != from
}

/// A Chariot of `side` standing at `from` may move to `to`: any distance
/// along its file or rank over an empty path; the first piece met may be
/// captured if it is an enemy.  `seg_count` is taken over the inclusive
/// segment, so an empty destination needs count 1 (the Chariot itself) and
/// a capture needs count 2 (Chariot and victim).
pub open spec fn chariot_dest(g: Seq<Cell>, side: Side, from: (i32, i32), to: (i32, i32)) -> bool {
    &&& on_board(to)
    &&& aligned(from, to)
    &&& !friend_at(g, side, to)
    &&& if enemy_at(g, side, to) {
        seg_count(g, from, to) == 2
    } else {
        seg_count(g, from, to) == 1
    }
}

/// A Cannon of `side` standing at `from` may move to `to`: like a Chariot
/// onto an empty destination (inclusive segment count 1), but a capture
/// must jump exactly one screen (inclusive segment count 3).
pub open spec fn cannon_dest(g: Seq<Cell>, side: Side, from: (i32, i32), to: (i32, i32)) -> bool {
    &&& on_board(to)
    &&& aligned(from, to)
    &&& !friend_at(g, side, to)
    &&& if occupied_at(g, to) {
        seg_count(g, from, to) == 3
    } else {
        seg_count(g, from, to) == 1
    }
}

/// The "flying general" capture: the opposing General stands ahead on the
/// same file (toward the opponent's side) and the inclusive segment holds
/// only the two Generals.
pub open spec fn flying_general_dest(g: Seq<Cell>, side: Side, from: (i32, i32), to: (i32, i32)) -> bool {
    &&& on_board(to)
    &&& to.0 == from.0
    &&& cell_at(g, to) == Some((side.spec_other(), Piece::General))
    &&& match side {
        Side::Red => to.1 > from.1,
        Side::Black => to.1 < from.1,
    }
    &&& seg_count(g, from, to) == 2
}

/// A General of `side` standing at `from` may move to `to`: one orthogonal
/// step within the palace, or the flying-general capture.
pub open spec fn general_dest(g: Seq<Cell>, side: Side, from: (i32, i32), to: (i32, i32)) -> bool {
    ||| {
        &&& in_palace(side, to)
        &&& !friend_at(g, side, to)
        &&& {
            ||| (to.0 == from.0 && (to.1 == from.1 + 1 || to.1 == from.1 - 1))
            ||| (to.1 == from.1 && (to.0 == from.0 + 1 || to.0 == from.0 - 1))
        }
    }
    ||| flying_general_dest(g, side, from, to)
}

/// The movement law of one piece kind.
pub open spec fn piece_dest(g: Seq<Cell>, side: Side, kind: Piece, from: (i32, i32), to: (i32, i32)) -> bool {
    match kind {
        Piece::Soldier => soldier_dest(g, side, from, to),
        Piece::Advisor => advisor_dest(g, side, from, to),
        Piece::Elephant => elephant_dest(g, side, from, to),
        Piece::Cannon => cannon_dest(g, side, from, to),
        Piece::Horse => horse_dest(g, side, from, to),
        Piece::Chariot => chariot_dest(g, side, from, to),
        Piece::General => general_dest(g, side, from, to),
    }
}

/// The raw movement law at `from`, before repetition suppression: false
/// when `from` is empty, else the law of the piece standing there.
pub open spec fn raw_dest(g: Seq<Cell>, from: (i32, i32), to: (i32, i32)) -> bool {
    match cell_at(g, from) {
        Some(p) => piece_dest(g, p.0, p.1, from, to),
        None => false,
    }
}

/// The model of a whole board: grid, undo history, move counter, cached
/// terminal flag, winner and occupied-cell count.
#[verifier::ext_equal]
pub ghost struct BoardModel {
    pub grid: Seq<Cell>,
    pub history: Seq<UndoMoveRecord>,
    pub move_count: int,
    pub finished: bool,
    pub winner: Option<Side>,
    pub occupied: int,
}

/// The last four applied moves form a perfect non-capturing back-and-forth
/// cycle.
pub open spec fn looped(m: BoardModel) -> bool {
    let h = m.history;
    let n = h.len() as int;
    &&& n >= 4
    &&& h[n - 4].to_piece is None
    &&& h[n - 3].to_piece is None
    &&& h[n - 2].to_piece is None
    &&& h[n - 1].to_piece is None
    &&& h[n - 4].from_pos == h[n - 2].to_pos
    &&& h[n - 4].to_pos == h[n - 2].from_pos
    &&& h[n - 3].from_pos == h[n - 1].to_pos
    &&& h[n - 3].to_pos == h[n - 1].from_pos
}

/// The move `from -> to` is suppressed: it would re-enter the
/// back-and-forth cycle by reproducing the move four plies back.
pub open spec fn suppressed(m: BoardModel, from: (i32, i32), to: (i32, i32)) -> bool {
    &&& looped(m)
    &&& from == m.history[m.history.len() - 4].from_pos
    &&& to == m.history[m.history.len() - 4].to_pos
}

/// The full legality predicate used by move generation: the movement law
/// minus the single destination removed by repetition suppression.
pub open spec fn dest_allowed(m: BoardModel, from: (i32, i32), to: (i32, i32)) -> bool {
    raw_dest(m.grid, from, to) && !suppressed(m, from, to)
}

/// `side` has at least one legal move somewhere on the board.
pub open spec fn has_any_move(m: BoardModel, side: Side) -> bool {
    exists|from: (i32, i32), to: (i32, i32)|
        on_board(from) && friend_at(m.grid, side, from) && #[trigger] dest_allowed(m, from, to)
}

/// The move-count ceiling: reaching it forces the terminal flag without a
/// winner.
pub open spec fn move_ceiling() -> int {
    2000
}

/// The effect of applying the (unchecked) move `from -> to` on the model.
pub open spec fn apply_model(m: BoardModel, from: (i32, i32), to: (i32, i32)) -> BoardModel {
    let moved = cell_at(m.grid, from);
    let captured = cell_at(m.grid, to);
    let captured_general = captured matches Some(p) && p.1 == Piece::General;
    BoardModel {
        grid: m.grid.update(cell_index(to), moved).update(cell_index(from), None),
        history: m.history.push(UndoMoveRecord {
            from_pos: from,
            from_piece: moved,
            to_pos: to,
            to_piece: captured,
        }),
        move_count: m.move_count + 1,
        finished: m.finished || captured_general || m.move_count + 1 >= move_ceiling(),
        winner: if captured_general {
            Some(captured->Some_0.0.spec_other())
        } else {
            m.winner
        },
        occupied: m.occupied - if captured is Some { 1int } else { 0int },
    }
}

/// The effect of undoing the most recent move on the model.
pub open spec fn undo_model(m: BoardModel) -> BoardModel {
    let rec = m.history.last();
    BoardModel {
        grid: m.grid.update(cell_index(rec.from_pos), rec.from_piece)
            .update(cell_index(rec.to_pos), rec.to_piece),
        history: m.history.drop_last(),
        move_count: m.move_count - 1,
        finished: false,
        winner: None,
        occupied: m.occupied + if rec.to_piece is Some { 1int } else { 0int },
    }
}

/// The undo history is a faithful diff stack: the top record restores the
/// cells it touched, and what remains after popping it is again faithful.
pub open spec fn replay_ok(g: Seq<Cell>, h: Seq<UndoMoveRecord>) -> bool
    decreases h.len(),
{
    h.len() == 0 || {
        let rec = h.last();
        &&& on_board(rec.from_pos)
        &&& on_board(rec.to_pos)
        &&& cell_at(g, rec.from_pos) is None
        &&& rec.from_pos != rec.to_pos ==> cell_at(g, rec.to_pos) == rec.from_piece
        &&& rec.from_pos == rec.to_pos ==> rec.from_piece == rec.to_piece
        &&& replay_ok(
            g.update(cell_index(rec.from_pos), rec.from_piece)
                .update(cell_index(rec.to_pos), rec.to_piece),
            h.drop_last(),
        )
    }
}

/// Every destination the movement law allows lies on the board.
pub proof fn lemma_dest_on_board(g: Seq<Cell>, from: (i32, i32), to: (i32, i32))
    requires
        raw_dest(g, from, to),
    ensures
        on_board(to),
{
    match cell_at(g, from) {
        Some(p) => {
            match p.1 {
                Piece::Soldier => assert(on_board(to)),
                Piece::Advisor => assert(in_palace(p.0, to)),
                Piece::Elephant => assert(in_own_half(p.0, to)),
                Piece::Cannon => assert(on_board(to)),
                Piece::Horse => assert(on_board(to)),
                Piece::Chariot => assert(on_board(to)),
                Piece::General => assert(in_palace(p.0, to) || flying_general_dest(g, p.0, from, to)),
            }
        },
        None => {},
    }
}

/// The count of a column is never negative.
pub proof fn lemma_col_count_nonneg(g: Seq<Cell>, x: int, y0: int, y1: int)
    ensures
        0 <= col_count(g, x, y0, y1),
    decreases y1 - y0,
{
    if y0 < y1 {
        lemma_col_count_nonneg(g, x, y0, y1 - 1);
    }
}

/// The count of a column is at most the number of its cells.
pub proof fn lemma_col_count_le(g: Seq<Cell>, x: int, y0: int, y1: int)
    ensures
        col_count(g, x, y0, y1) <= if y1 >= y0 { y1 - y0 } else { 0 },
    decreases y1 - y0,
{
    if y0 < y1 {
        lemma_col_count_le(g, x, y0, y1 - 1);
    }
}

/// The count of a rectangle is never negative.
pub proof fn lemma_rect_count_nonneg(g: Seq<Cell>, x0: int, x1: int, y0: int, y1: int)
    ensures
        0 <= rect_count(g, x0, x1, y0, y1),
    decreases x1 - x0,
{
    if x0 < x1 {
        lemma_rect_count_nonneg(g, x0, x1 - 1, y0, y1);
        lemma_col_count_nonneg(g, x1 - 1, y0, y1);
    }
}

/// A rectangle of columns with at most ten ranks each holds at most ten
/// pieces per column.
pub proof fn lemma_rect_count_le(g: Seq<Cell>, x0: int, x1: int, y0: int, y1: int)
    requires
        y1 - y0 <= 10,
    ensures
        rect_count(g, x0, x1, y0, y1) <= if x1 >= x0 { 10 * (x1 - x0) } else { 0 },
    decreases x1 - x0,
{
    if x0 < x1 {
        lemma_rect_count_le(g, x0, x1 - 1, y0, y1);
        lemma_col_count_le(g, x1 - 1, y0, y1);
        lemma_col_count_nonneg(g, x1 - 1, y0, y1);
    }
}

/// The whole-grid count lies between 0 and 90.
pub proof fn lemma_total_count_bounds(g: Seq<Cell>)
    ensures
        0 <= total_count(g) <= 90,
{
    lemma_rect_count_nonneg(g, 0, 9, 0, 10);
    lemma_rect_count_le(g, 0, 9, 0, 10);
}

/// Updating the cell `(xi, yi)` changes a column count by the change in
/// occupancy of that one cell, when the column lies in the updated grid.
proof fn lemma_col_count_update(g: Seq<Cell>, xi: int, yi: int, v: Cell, x: int, y0: int, y1: int)
    requires
        g.len() == 90,
        0 <= xi <= 8,
        0 <= yi <= 9,
        0 <= x <= 8,
        0 <= y0,
        y1 <= 10,
    ensures
        col_count(g.update(xi * 10 + yi, v), x, y0, y1) == col_count(g, x, y0, y1) + if x == xi
            && y0 <= yi < y1 {
            (if v is Some { 1int } else { 0int }) - (if g[xi * 10 + yi] is Some { 1int } else { 0int })
        } else {
            0int
        },
    decreases y1 - y0,
{
    if y0 < y1 {
        lemma_col_count_update(g, xi, yi, v, x, y0, y1 - 1);
    }
}

/// Updating the cell `(xi, yi)` changes a rectangle count by the change in
/// occupancy of that one cell, when it lies inside the rectangle.
proof fn lemma_rect_count_update(
    g: Seq<Cell>,
    xi: int,
    yi: int,
    v: Cell,
    x0: int,
    x1: int,
    y0: int,
    y1: int,
)
    requires
        g.len() == 90,
        0 <= xi <= 8,
        0 <= yi <= 9,
        0 <= x0,
        x1 <= 9,
        0 <= y0,
        y1 <= 10,
    ensures
        rect_count(g.update(xi * 10 + yi, v), x0, x1, y0, y1) == rect_count(g, x0, x1, y0, y1)
            + if x0 <= xi < x1 && y0 <= yi < y1 {
            (if v is Some { 1int } else { 0int }) - (if g[xi * 10 + yi] is Some { 1int } else { 0int })
        } else {
            0int
        },
    decreases x1 - x0,
{
    if x0 < x1 {
        lemma_rect_count_update(g, xi, yi, v, x0, x1 - 1, y0, y1);
        lemma_col_count_update(g, xi, yi, v, x1 - 1, y0, y1);
    }
}

/// Updating one cell changes the whole-grid count by the change in that
/// cell's occupancy.
pub proof fn lemma_total_count_update(g: Seq<Cell>, pos: (i32, i32), v: Cell)
    requires
        g.len() == 90,
        on_board(pos),
    ensures
        total_count(g.update(cell_index(pos), v)) == total_count(g) + (if v is Some {
            1int
        } else {
            0int
        }) - (if cell_at(g, pos) is Some {
            1int
        } else {
            0int
        }),
{
    lemma_rect_count_update(g, pos.0 as int, pos.1 as int, v, 0, 9, 0, 10);
}

/// A column holding an occupied cell counts at least one.
proof fn lemma_col_count_cell_min(g: Seq<Cell>, x: int, y0: int, y1: int, yi: int)
    requires
        y0 <= yi < y1,
        occupied_xy(g, x, yi),
    ensures
        col_count(g, x, y0, y1) >= 1,
    decreases y1 - y0,
{
    lemma_col_count_nonneg(g, x, y0, y1 - 1);
    if yi < y1 - 1 {
        lemma_col_count_cell_min(g, x, y0, y1 - 1, yi);
    }
}

/// A grid with an occupied cell counts at least one piece in total.
pub proof fn lemma_total_count_cell_min(g: Seq<Cell>, pos: (i32, i32))
    requires
        on_board(pos),
        occupied_at(g, pos),
    ensures
        total_count(g) >= 1,
{
    lemma_rect_count_cell_min(g, 0, 9, 0, 10, pos.0 as int, pos.1 as int);
}

/// A rectangle containing an occupied cell counts at least one.
pub proof fn lemma_rect_count_cell_min(
    g: Seq<Cell>,
    x0: int,
    x1: int,
    y0: int,
    y1: int,
    xi: int,
    yi: int,
)
    requires
        x0 <= xi < x1,
        y0 <= yi < y1,
        occupied_xy(g, xi, yi),
    ensures
        rect_count(g, x0, x1, y0, y1) >= 1,
    decreases x1 - x0,
{
    lemma_rect_count_nonneg(g, x0, x1 - 1, y0, y1);
    lemma_col_count_nonneg(g, x1 - 1, y0, y1);
    if xi < x1 - 1 {
        lemma_rect_count_cell_min(g, x0, x1 - 1, y0, y1, xi, yi);
    } else {
        lemma_col_count_cell_min(g, x1 - 1, y0, y1, yi);
    }
}

/// Distinct on-board positions have distinct flat indexes.
pub proof fn lemma_cell_index_injective(a: (i32, i32), b: (i32, i32))
    requires
        on_board(a),
        on_board(b),
        cell_index(a) == cell_index(b),
    ensures
        a == b,
{
    assert(a.0 == b.0 && a.1 == b.1);
    assert(a =~= b);
}

/// Every flat index below 90 denotes an on-board position, and the
/// position's own index is that index.
pub proof fn lemma_index_pos_on_board(j: int)
    requires
        0 <= j < 90,
    ensures
        on_board(index_pos(j)),
        cell_index(index_pos(j)) == j,
{
    vstd::arithmetic::div_mod::lemma_fundamental_div_mod(j, 10);
}

/// The flat index maps back to the position it came from.
pub proof fn lemma_index_pos_inverse(p: (i32, i32))
    requires
        on_board(p),
    ensures
        index_pos(cell_index(p)) == p,
{
    vstd::arithmetic::div_mod::lemma_fundamental_div_mod_converse(
        cell_index(p),
        10,
        p.0 as int,
        p.1 as int,
    );
    assert(index_pos(cell_index(p)) =~= p);
}

/// Applying a move keeps the undo history a faithful diff stack.
pub proof fn lemma_replay_apply(g: Seq<Cell>, h: Seq<UndoMoveRecord>, from: (i32, i32), to: (i32, i32))
    requires
        g.len() == 90,
        on_board(from),
        on_board(to),
        replay_ok(g, h),
    ensures
        replay_ok(
            g.update(cell_index(to), cell_at(g, from)).update(cell_index(from), None),
            h.push(
                UndoMoveRecord {
                    from_pos: from,
                    from_piece: cell_at(g, from),
                    to_pos: to,
                    to_piece: cell_at(g, to),
                },
            ),
        ),
{
    let moved = cell_at(g, from);
    let captured = cell_at(g, to);
    let rec = UndoMoveRecord { from_pos: from, from_piece: moved, to_pos: to, to_piece: captured };
    let g2 = g.update(cell_index(to), moved).update(cell_index(from), None);
    let h2 = h.push(rec);
    assert(h2.last() == rec);
    assert(h2.drop_last() =~= h);
    if from != to {
        assert(cell_index(from) != cell_index(to)) by {
            if cell_index(from) == cell_index(to) {
                lemma_cell_index_injective(from, to);
            }
        }
        assert(cell_at(g2, to) == moved);
    }
    assert(cell_at(g2, from) is None);
    let g3 = g2.update(cell_index(rec.from_pos), rec.from_piece).update(
        cell_index(rec.to_pos),
        rec.to_piece,
    );
    assert(g3 =~= g);
}

/// Well-formedness of a board model: the grid has 90 cells, the cached
/// occupied count equals a full scan, the move counter equals the history
/// length, a recorded winner implies the terminal flag, and the history is
/// a faithful diff stack.
pub open spec fn model_wf(m: BoardModel) -> bool {
    &&& m.grid.len() == 90
    &&& m.occupied == total_count(m.grid)
    &&& m.move_count == m.history.len()
    &&& m.move_count <= u32::MAX
    &&& m.move_count == u32::MAX ==> m.finished
    &&& m.winner is Some ==> m.finished
    &&& replay_ok(m.grid, m.history)
}

} // verus!
