//! The executable board: the 9x10 grid, the undo stack, the move counter
//! and the cached terminal state, with move generation, application and
//! undo proved against the model in `rules`.

use vstd::pervasive::VecAdditionalExecFns;
use vstd::prelude::*;

use crate::rules::{
    apply_model, cell_at, cell_index, col_count, dest_allowed, enemy_at, friend_at, in_rect,
    lemma_col_count_le, lemma_col_count_nonneg, lemma_dest_on_board, lemma_replay_apply,
    lemma_total_count_bounds, lemma_total_count_cell_min, lemma_total_count_update, looped,
    model_wf, occupied_at, on_board, piece_dest, range_count, rect_count, suppressed, total_count,
    undo_model, BoardModel, Cell, Piece, Side, UndoMoveRecord,
};

verus! {

/// A position is inside the given inclusive rectangle.
pub fn position_inside(pos: (i32, i32), left_down: (i32, i32), right_up: (i32, i32)) -> (r: bool)
    requires
        left_down.0 <= right_up.0,
        left_down.1 <= right_up.1,
    ensures
        r == in_rect(pos, left_down, right_up),
{
    pos.0 >= left_down.0 && pos.0 <= right_up.0 && pos.1 >= left_down.1 && pos.1 <= right_up.1
}

/// A position is on the board.
pub fn position_inside_board(pos: (i32, i32)) -> (r: bool)
    ensures
        r == on_board(pos),
{
    position_inside(pos, (0, 0), (8, 9))
}

/// The flat vector index of an on-board position.
fn grid_index(pos: (i32, i32)) -> (i: usize)
    requires
        on_board(pos),
    ensures
        i == cell_index(pos),
        i < 90,
{
    (pos.0 as usize) * 10 + (pos.1 as usize)
}

/// The piece placed at `(x, y)` in the standard starting position.
pub open spec fn start_cell(x: int, y: int) -> Cell {
    if y == 0 {
        Some((Side::Red, start_back_kind(x)))
    } else if y == 2 {
        if x == 1 || x == 7 {
            Some((Side::Red, Piece::Cannon))
        } else {
            None
        }
    } else if y == 3 {
        if x % 2 == 0 {
            Some((Side::Red, Piece::Soldier))
        } else {
            None
        }
    } else if y == 6 {
        if x % 2 == 0 {
            Some((Side::Black, Piece::Soldier))
        } else {
            None
        }
    } else if y == 7 {
        if x == 1 || x == 7 {
            Some((Side::Black, Piece::Cannon))
        } else {
            None
        }
    } else if y == 9 {
        Some((Side::Black, start_back_kind(x)))
    } else {
        None
    }
}

/// The back-rank piece kind at file `x` in the starting position.
pub open spec fn start_back_kind(x: int) -> Piece {
    if x == 0 || x == 8 {
        Piece::Chariot
    } else if x == 1 || x == 7 {
        Piece::Horse
    } else if x == 2 || x == 6 {
        Piece::Elephant
    } else if x == 3 || x == 5 {
        Piece::Advisor
    } else {
        Piece::General
    }
}

/// The starting grid.
pub open spec fn start_grid() -> Seq<Cell> {
    Seq::new(90, |i: int| start_cell(i / 10, i % 10))
}

/// The executable mirror of `start_cell`.
fn start_cell_exec(x: i32, y: i32) -> (c: Cell)
    requires
        0 <= x <= 8,
        0 <= y <= 9,
    ensures
        c == start_cell(x as int, y as int),
{
    if y == 0 || y == 9 {
        let side = if y == 0 { Side::Red } else { Side::Black };
        let kind = if x == 0 || x == 8 {
            Piece::Chariot
        } else if x == 1 || x == 7 {
            Piece::Horse
        } else if x == 2 || x == 6 {
            Piece::Elephant
        } else if x == 3 || x == 5 {
            Piece::Advisor
        } else {
            Piece::General
        };
        Some((side, kind))
    } else if y == 2 || y == 7 {
        let side = if y == 2 { Side::Red } else { Side::Black };
        if x == 1 || x == 7 {
            Some((side, Piece::Cannon))
        } else {
            None
        }
    } else if y == 3 || y == 6 {
        let side = if y == 3 { Side::Red } else { Side::Black };
        if x % 2 == 0 {
            Some((side, Piece::Soldier))
        } else {
            None
        }
    } else {
        None
    }
}

/// Counts the occupied cells of `map` in the inclusive rectangle spanned by
/// `left_down` and `right_up` (zero when the rectangle is inverted).
fn region_count(map: &Vec<Cell>, left_down: (i32, i32), right_up: (i32, i32)) -> (cnt: i32)
    requires
        map@.len() == 90,
        0 <= left_down.0,
        0 <= left_down.1,
        right_up.0 <= 8,
        right_up.1 <= 9,
    ensures
        cnt == range_count(map@, left_down, right_up),
        0 <= cnt <= 90,
{
    let ghost g = map@;
    let x1: i32 = right_up.0 + 1;
    let y1: i32 = right_up.1 + 1;
    let mut cnt: i32 = 0;
    let mut x: i32 = left_down.0;
    if x1 < x {
        return 0;
    }
    while x < x1
        invariant
            g == map@,
            g.len() == 90,
            0 <= left_down.0 <= x <= x1 <= 9,
            0 <= left_down.1,
            y1 == right_up.1 + 1,
            y1 <= 10,
            cnt == rect_count(g, left_down.0 as int, x as int, left_down.1 as int, y1 as int),
            0 <= cnt <= 10 * (x - left_down.0),
        decreases x1 - x,
    {
        let mut y: i32 = left_down.1;
        if y1 >= y {
            while y < y1
                invariant
                    g == map@,
                    g.len() == 90,
                    0 <= left_down.0 <= x < x1 <= 9,
                    0 <= left_down.1 <= y <= y1 <= 10,
                    cnt == rect_count(g, left_down.0 as int, x as int, left_down.1 as int, y1 as int)
                        + col_count(g, x as int, left_down.1 as int, y as int),
                    0 <= cnt <= 10 * (x - left_down.0) + (y - left_down.1),
                decreases y1 - y,
            {
                if map[(x as usize) * 10 + (y as usize)].is_some() {
                    cnt = cnt + 1;
                }
                y = y + 1;
            }
        }
        proof {
            lemma_col_count_nonneg(g, x as int, left_down.1 as int, y1 as int);
            lemma_col_count_le(g, x as int, left_down.1 as int, y1 as int);
        }
        x = x + 1;
    }
    cnt
}

/// The whole game state: grid, undo stack, move counter, cached terminal
/// flag, winner and occupied-cell count.
#[derive(Debug)]
pub struct Board {
    map: Vec<Cell>,
    undo_move_records: Vec<UndoMoveRecord>,
    move_count: u32,
    game_finished: bool,
    winner: Option<Side>,
    sum_piece: i32,
}

impl View for Board {
    type V = BoardModel;

    closed spec fn view(&self) -> BoardModel {
        BoardModel {
            grid: self.map@,
            history: self.undo_move_records@,
            move_count: self.move_count as int,
            finished: self.game_finished,
            winner: self.winner,
            occupied: self.sum_piece as int,
        }
    }
}

impl Clone for Board {
    /// A deep copy with the same model.
    fn clone(&self) -> (r: Board)
        ensures
            r@ == self@,
    {
        let mut map: Vec<Cell> = Vec::new();
        let mut i: usize = 0;
        while i < self.map.len()
            invariant
                i <= self.map.len(),
                map@ == self.map@.take(i as int),
            decreases self.map.len() - i,
        {
            map.push(self.map[i]);
            proof {
                assert(map@ =~= self.map@.take(i + 1));
            }
            i = i + 1;
        }
        let mut undo_move_records: Vec<UndoMoveRecord> = Vec::new();
        let mut j: usize = 0;
        while j < self.undo_move_records.len()
            invariant
                j <= self.undo_move_records.len(),
                undo_move_records@ == self.undo_move_records@.take(j as int),
            decreases self.undo_move_records.len() - j,
        {
            undo_move_records.push(self.undo_move_records[j]);
            proof {
                assert(undo_move_records@ =~= self.undo_move_records@.take(j + 1));
            }
            j = j + 1;
        }
        proof {
            assert(map@ =~= self.map@);
            assert(undo_move_records@ =~= self.undo_move_records@);
        }
        Board {
            map,
            undo_move_records,
            move_count: self.move_count,
            game_finished: self.game_finished,
            winner: self.winner,
            sum_piece: self.sum_piece,
        }
    }
}

impl Board {
    /// The board is well formed: its model is.
    pub open spec fn wf(&self) -> bool {
        model_wf(self@)
    }

    /// A board in the standard Xiangqi starting position.
    pub fn new() -> (b: Board)
        ensures
            b.wf(),
            b@.grid == start_grid(),
            b@.history == Seq::<UndoMoveRecord>::empty(),
            b@.move_count == 0,
            !b@.finished,
            b@.winner is None,
            b@.occupied == total_count(start_grid()),
    {
        let mut map: Vec<Cell> = Vec::new();
        let mut i: usize = 0;
        while i < 90
            invariant
                i <= 90,
                map@.len() == i,
                forall|k: int| 0 <= k < i ==> map@[k] == start_cell(k / 10, k % 10),
            decreases 90 - i,
        {
            let x: i32 = (i / 10) as i32;
            let y: i32 = (i % 10) as i32;
            map.push(start_cell_exec(x, y));
            i = i + 1;
        }
        proof {
            assert(map@ =~= start_grid());
        }
        let total = region_count(&map, (0, 0), (8, 9));
        let b = Board {
            map,
            undo_move_records: Vec::new(),
            move_count: 0,
            game_finished: false,
            winner: None,
            sum_piece: total,
        };
        proof {
            assert(b@.history =~= Seq::<UndoMoveRecord>::empty());
        }
        b
    }

    /// The game has ended (a General was captured, or the move ceiling was
    /// reached).
    pub fn finished(&self) -> (r: bool)
        ensures
            r == self@.finished,
    {
        self.game_finished
    }

    /// The cells of the grid, flattened: cell `(x, y)` at index
    /// `x * 10 + y`.
    pub fn get_map(&self) -> (r: &Vec<Cell>)
        ensures
            r@ == self@.grid,
    {
        &self.map
    }

    /// The number of applied moves not yet undone.
    pub fn move_count(&self) -> (r: u32)
        ensures
            r == self@.move_count,
    {
        self.move_count
    }

    /// The winning camp, when a General has been captured.
    pub fn get_winner(&self) -> (r: Option<Side>)
        ensures
            r == self@.winner,
    {
        self.winner
    }

    /// A piece of camp `side` stands at `pos`.
    pub fn has_friend_at(&self, side: Side, pos: (i32, i32)) -> (r: bool)
        requires
            self.wf(),
            on_board(pos),
        ensures
            r == friend_at(self@.grid, side, pos),
    {
        let piece = self.map[grid_index(pos)];
        match piece {
            Some(p) => p.0 == side,
            None => false,
        }
    }

    /// A piece of the camp opposing `side` stands at `pos`.
    pub fn has_enemy_at(&self, side: Side, pos: (i32, i32)) -> (r: bool)
        requires
            self.wf(),
            on_board(pos),
        ensures
            r == enemy_at(self@.grid, side, pos),
    {
        self.has_friend_at(side.other(), pos)
    }

    /// Any piece stands at `pos`.
    pub fn has_piece_at(&self, pos: (i32, i32)) -> (r: bool)
        requires
            self.wf(),
            on_board(pos),
        ensures
            r == occupied_at(self@.grid, pos),
    {
        match self.map[grid_index(pos)] {
            Some(_) => true,
            None => false,
        }
    }

    /// The number of occupied cells in the inclusive rectangle spanned by
    /// `left_down` and `right_up` (zero when the rectangle is inverted).
    pub fn piece_count(&self, left_down: (i32, i32), right_up: (i32, i32)) -> (cnt: i32)
        requires
            self.wf(),
            0 <= left_down.0,
            0 <= left_down.1,
            right_up.0 <= 8,
            right_up.1 <= 9,
        ensures
            cnt == range_count(self@.grid, left_down, right_up),
            0 <= cnt <= 90,
    {
        if left_down.0 == 0 && left_down.1 == 0 && right_up.0 == 8 && right_up.1 == 9 {
            proof {
                lemma_total_count_bounds(self@.grid);
            }
            return self.sum_piece;
        }
        region_count(&self.map, left_down, right_up)
    }

    /// The cached number of pieces on the whole board.
    pub fn piece_count_of_board(&self) -> (cnt: i32)
        ensures
            cnt == self@.occupied,
    {
        self.sum_piece
    }

    /// The movement law of one piece kind, as an executable test: a piece
    /// of `side` and kind `kind` standing at `from` may move to `to`.
    fn move_matches(&self, side: Side, kind: Piece, from: (i32, i32), to: (i32, i32)) -> (r: bool)
        requires
            self.wf(),
            on_board(from),
            on_board(to),
        ensures
            r == piece_dest(self@.grid, side, kind, from, to),
    {
        match kind {
            Piece::Soldier => {
                if self.has_friend_at(side, to) {
                    return false;
                }
                match side {
                    Side::Red => (to.0 == from.0 && to.1 == from.1 + 1) || (from.1 >= 5 && to.1
                        == from.1 && (to.0 == from.0 + 1 || to.0 == from.0 - 1)),
                    Side::Black => (to.0 == from.0 && to.1 == from.1 - 1) || (from.1 <= 4 && to.1
                        == from.1 && (to.0 == from.0 + 1 || to.0 == from.0 - 1)),
                }
            },
            Piece::Advisor => {
                let palace_ok = match side {
                    Side::Red => position_inside(to, (3, 0), (5, 2)),
                    Side::Black => position_inside(to, (3, 7), (5, 9)),
                };
                palace_ok && !self.has_friend_at(side, to) && (to.0 == from.0 + 1 || to.0 == from.0
                    - 1) && (to.1 == from.1 + 1 || to.1 == from.1 - 1)
            },
            Piece::Elephant => {
                let half_ok = match side {
                    Side::Red => position_inside(to, (0, 0), (8, 4)),
                    Side::Black => position_inside(to, (0, 5), (8, 9)),
                };
                if !half_ok || self.has_friend_at(side, to) {
                    false
                } else if (to.0 == from.0 + 2 || to.0 == from.0 - 2) && (to.1 == from.1 + 2 || to.1
                    == from.1 - 2) {
                    let eye = ((from.0 + to.0) / 2, (from.1 + to.1) / 2);
                    !self.has_piece_at(eye)
                } else {
                    false
                }
            },
            Piece::Horse => {
                if self.has_friend_at(side, to) {
                    return false;
                }
                let dx = to.0 - from.0;
                let dy = to.1 - from.1;
                if dx == 1 && dy == 2 {
                    !self.has_piece_at((from.0, from.1 + 1))
                } else if dx == 1 && dy == -2 {
                    !self.has_piece_at((from.0, from.1 - 1))
                } else if dx == -1 && dy == 2 {
                    !self.has_piece_at((from.0, from.1 + 1))
                } else if dx == -1 && dy == -2 {
                    !self.has_piece_at((from.0, from.1 - 1))
                } else if dx == 2 && dy == 1 {
                    !self.has_piece_at((from.0 + 1, from.1))
                } else if dx == 2 && dy == -1 {
                    !self.has_piece_at((from.0 + 1, from.1))
                } else if dx == -2 && dy == 1 {
                    !self.has_piece_at((from.0 - 1, from.1))
                } else if dx == -2 && dy == -1 {
                    !self.has_piece_at((from.0 - 1, from.1))
                } else {
                    false
                }
            },
            Piece::Cannon => {
                if !(to.0 == from.0 || to.1 == from.1) || (to.0 == from.0 && to.1 == from.1) {
                    false
                } else if self.has_friend_at(side, to) {
                    false
                } else {
                    let cnt = self.piece_count(
                        (
                            if from.0 <= to.0 { from.0 } else { to.0 },
                            if from.1 <= to.1 { from.1 } else { to.1 },
                        ),
                        (
                            if from.0 <= to.0 { to.0 } else { from.0 },
                            if from.1 <= to.1 { to.1 } else { from.1 },
                        ),
                    );
                    if self.has_piece_at(to) {
                        cnt == 3
                    } else {
                        cnt == 1
                    }
                }
            },
            Piece::Chariot => {
                if !(to.0 == from.0 || to.1 == from.1) || (to.0 == from.0 && to.1 == from.1) {
                    false
                } else if self.has_friend_at(side, to) {
                    false
                } else {
                    let cnt = self.piece_count(
                        (
                            if from.0 <= to.0 { from.0 } else { to.0 },
                            if from.1 <= to.1 { from.1 } else { to.1 },
                        ),
                        (
                            if from.0 <= to.0 { to.0 } else { from.0 },
                            if from.1 <= to.1 { to.1 } else { from.1 },
                        ),
                    );
                    if self.has_enemy_at(side, to) {
                        cnt == 2
                    } else {
                        cnt == 1
                    }
                }
            },
            Piece::General => {
                let palace_ok = match side {
                    Side::Red => position_inside(to, (3, 0), (5, 2)),
                    Side::Black => position_inside(to, (3, 7), (5, 9)),
                };
                let step = palace_ok && !self.has_friend_at(side, to) && ((to.0 == from.0 && (to.1
                    == from.1 + 1 || to.1 == from.1 - 1)) || (to.1 == from.1 && (to.0 == from.0 + 1
                    || to.0 == from.0 - 1)));
                if step {
                    true
                } else if to.0 != from.0 {
                    false
                } else {
                    match self.map[grid_index(to)] {
                        Some(p) => {
                            if p.0 == side.other() && (match p.1 {
                                Piece::General => true,
                                _ => false,
                            }) {
                                proof {
                                    assert(cell_at(self@.grid, to) == Some(
                                        (side.spec_other(), Piece::General),
                                    ));
                                }
                                match side {
                                    Side::Red => to.1 > from.1 && self.piece_count(from, to) == 2,
                                    Side::Black => to.1 < from.1 && self.piece_count(to, from) == 2,
                                }
                            } else {
                                false
                            }
                        },
                        None => false,
                    }
                }
            },
        }
    }

    /// All destinations the piece at `from` may legally move to: exactly
    /// the positions the movement law allows, minus the single destination
    /// removed by repetition suppression; empty when `from` is empty.
    pub fn all_possible_moves(&self, from: (i32, i32)) -> (r: Vec<(i32, i32)>)
        requires
            self.wf(),
            on_board(from),
        ensures
            forall|to: (i32, i32)| #[trigger] r@.contains(to) <==> dest_allowed(self@, from, to),
            r@.no_duplicates(),
            forall|k1: int, k2: int|
                0 <= k1 < k2 < r@.len() ==> cell_index(#[trigger] r@[k1]) < cell_index(
                    #[trigger] r@[k2],
                ),
    {
        broadcast use vstd::seq_lib::lemma_seq_contains_after_push;

        let fpiece = self.map[grid_index(from)];
        match fpiece {
            None => {
                let r: Vec<(i32, i32)> = Vec::new();
                r
            },
            Some(p) => {
                let lp = self.looped();
                let mut ret: Vec<(i32, i32)> = Vec::new();
                let mut i: usize = 0;
                while i < 90
                    invariant
                        self.wf(),
                        on_board(from),
                        cell_at(self@.grid, from) == Some(p),
                        lp == looped(self@),
                        i <= 90,
                        forall|to: (i32, i32)| #[trigger] ret@.contains(to) <==> (0 <= cell_index(
                            to,
                        ) < i && dest_allowed(self@, from, to)),
                        ret@.no_duplicates(),
                        forall|k1: int, k2: int|
                            0 <= k1 < k2 < ret@.len() ==> cell_index(#[trigger] ret@[k1])
                                < cell_index(#[trigger] ret@[k2]),
                        forall|k: int| 0 <= k < ret@.len() ==> cell_index(#[trigger] ret@[k]) < i,
                    decreases 90 - i,
                {
                    proof {
                        vstd::arithmetic::div_mod::lemma_fundamental_div_mod(i as int, 10);
                    }
                    let x: i32 = (i / 10) as i32;
                    let y: i32 = (i % 10) as i32;
                    let to = (x, y);
                    let ghost ret0 = ret@;
                    if self.move_matches(p.0, p.1, from, to) {
                        let mut skip = false;
                        if lp {
                            let len = self.undo_move_records.len();
                            let rec = self.undo_move_records[len - 4];
                            if rec.from_pos.0 == from.0 && rec.from_pos.1 == from.1 && rec.to_pos.0
                                == to.0 && rec.to_pos.1 == to.1 {
                                skip = true;
                                proof {
                                    assert(from =~= rec.from_pos);
                                    assert(to =~= rec.to_pos);
                                }
                            }
                        }
                        proof {
                            assert(skip == suppressed(self@, from, to));
                        }
                        if !skip {
                            ret.push(to);
                        }
                    }
                    proof {
                        broadcast use vstd::seq_lib::lemma_seq_contains_after_push;

                        assert(if dest_allowed(self@, from, to) {
                            ret@ == ret0.push(to)
                        } else {
                            ret@ == ret0
                        });
                        assert(cell_index(to) == i);
                        assert(on_board(to));
                        assert(ret@.no_duplicates()) by {
                            if ret@ != ret0 {
                                assert(ret@ == ret0.push(to));
                                assert(!ret0.contains(to));
                                assert forall|k1: int, k2: int|
                                    0 <= k1 < k2 < ret@.len() implies ret@[k1] != ret@[k2] by {
                                    if k2 == ret@.len() - 1 {
                                        assert(ret0.contains(ret0[k1]));
                                    }
                                }
                            }
                        }
                        assert forall|k1: int, k2: int| 0 <= k1 < k2 < ret@.len() implies
                            cell_index(#[trigger] ret@[k1]) < cell_index(#[trigger] ret@[k2]) by {
                            if ret@ != ret0 && k2 == ret@.len() - 1 {
                                assert(ret@[k1] == ret0[k1]);
                                assert(ret@[k2] == to);
                            }
                        }
                        assert forall|k: int| 0 <= k < ret@.len() implies cell_index(
                            #[trigger] ret@[k],
                        ) < i + 1 by {
                            if ret@ != ret0 && k == ret@.len() - 1 {
                                assert(ret@[k] == to);
                            }
                        }
                        assert forall|t: (i32, i32)| #[trigger] ret@.contains(t) <==> (0
                            <= cell_index(t) < i + 1 && dest_allowed(self@, from, t)) by {
                            if dest_allowed(self@, from, t) {
                                lemma_dest_on_board(self@.grid, from, t);
                                assert(0 <= cell_index(t) < 90);
                                if cell_index(t) == i {
                                    assert(t.0 == to.0 && t.1 == to.1);
                                    assert(t =~= to);
                                    assert(ret@ == ret0.push(to));
                                    assert(ret@.contains(t));
                                } else if cell_index(t) < i {
                                    assert(ret0.contains(t));
                                    assert(ret@.contains(t));
                                }
                            }
                            if ret@.contains(t) {
                                if ret0.contains(t) {
                                    assert(0 <= cell_index(t) < i && dest_allowed(self@, from, t));
                                } else {
                                    assert(ret@ == ret0.push(to) && t == to);
                                    assert(dest_allowed(self@, from, t));
                                }
                            }
                        }
                    }
                    i = i + 1;
                }
                proof {
                    assert forall|to: (i32, i32)| dest_allowed(self@, from, to) implies 0
                        <= cell_index(to) < 90 by {
                        assert(on_board(to));
                    }
                }
                ret
            },
        }
    }

    /// Checks the move against the movement law and applies it; fails with
    /// `Err` (and leaves the board unchanged) when the destination is not
    /// legal for the piece at `from`.
    pub fn do_move(&mut self, from: (i32, i32), to: (i32, i32)) -> (r: Result<(), ()>)
        requires
            old(self).wf(),
            on_board(from),
            old(self)@.move_count < u32::MAX,
        ensures
            final(self).wf(),
            r is Ok <==> dest_allowed(old(self)@, from, to),
            r is Ok ==> final(self)@ == apply_model(old(self)@, from, to),
            r is Err ==> final(self)@ == old(self)@,
    {
        let possible_moves = self.all_possible_moves(from);
        let mut i: usize = 0;
        let mut found = false;
        while i < possible_moves.len()
            invariant
                i <= possible_moves@.len(),
                found ==> possible_moves@.contains(to),
                !found ==> forall|k: int| 0 <= k < i ==> possible_moves@[k] != to,
            decreases possible_moves@.len() - i,
        {
            let cand = possible_moves[i];
            if cand.0 == to.0 && cand.1 == to.1 {
                proof {
                    assert(cand =~= to);
                    assert(possible_moves@.contains(to));
                }
                found = true;
            }
            i = i + 1;
        }
        if found {
            proof {
                lemma_dest_on_board(self@.grid, from, to);
            }
            self.do_move_unchecked(from, to);
            Ok(())
        } else {
            proof {
                assert(!possible_moves@.contains(to));
            }
            Err(())
        }
    }

    /// Applies the move `from -> to` without any legality check: records
    /// the prior contents of both cells for undo, updates the occupied
    /// count, detects General capture and the move ceiling, then moves the
    /// piece.
    pub fn do_move_unchecked(&mut self, from: (i32, i32), to: (i32, i32))
        requires
            old(self).wf(),
            on_board(from),
            on_board(to),
            old(self)@.move_count < u32::MAX,
        ensures
            final(self).wf(),
            final(self)@ == apply_model(old(self)@, from, to),
    {
        let ghost m0 = self@;
        let from_piece = self.map[grid_index(from)];
        let to_piece = self.map[grid_index(to)];
        match to_piece {
            Some(p) => {
                match p.1 {
                    Piece::General => {
                        self.game_finished = true;
                        self.winner = Some(p.0.other());
                    },
                    _ => {},
                }
            },
            None => {},
        }
        self.move_count = self.move_count + 1;
        if self.move_count >= 2000 {
            self.game_finished = true;
        }
        self.undo_move_records.push(
            UndoMoveRecord { from_pos: from, from_piece, to_pos: to, to_piece },
        );
        if to_piece.is_some() {
            proof {
                lemma_total_count_cell_min(m0.grid, to);
            }
            self.sum_piece = self.sum_piece - 1;
        }
        self.map.set(grid_index(to), from_piece);
        self.map.set(grid_index(from), None);
        proof {
            lemma_total_count_update(m0.grid, to, from_piece);
            lemma_total_count_update(m0.grid.update(cell_index(to), from_piece), from, None);
            lemma_replay_apply(m0.grid, m0.history, from, to);
            assert(self@ =~= apply_model(m0, from, to));
        }
    }

    /// Undoes the most recent move: restores both cells from the top undo
    /// record, pops it, decrements the move counter, restores the occupied
    /// count and clears the terminal state.  Fails with `Err` when there is
    /// nothing to undo.
    pub fn undo_move(&mut self) -> (r: Result<(), ()>)
        requires
            old(self).wf(),
        ensures
            final(self).wf(),
            old(self)@.history.len() == 0 ==> r is Err && final(self)@ == old(self)@,
            old(self)@.history.len() > 0 ==> r is Ok && final(self)@ == undo_model(old(self)@),
    {
        if self.undo_move_records.len() == 0 {
            proof {
                assert(self@ =~= old(self)@);
            }
            Err(())
        } else {
            let ghost m0 = self@;
            let record = match self.undo_move_records.pop() {
                Some(rec) => rec,
                None => {
                    proof {
                        assert(false);
                    }
                    UndoMoveRecord { from_pos: (0, 0), from_piece: None, to_pos: (0, 0), to_piece: None }
                },
            };
            proof {
                assert(record == m0.history.last());
                assert(self.undo_move_records@ =~= m0.history.drop_last());
            }
            self.map.set(grid_index(record.from_pos), record.from_piece);
            self.map.set(grid_index(record.to_pos), record.to_piece);
            self.game_finished = false;
            self.winner = None;
            self.move_count = self.move_count - 1;
            if record.to_piece.is_some() {
                proof {
                    lemma_total_count_bounds(m0.grid);
                }
                self.sum_piece = self.sum_piece + 1;
            }
            proof {
                lemma_total_count_update(m0.grid, record.from_pos, record.from_piece);
                lemma_total_count_update(
                    m0.grid.update(cell_index(record.from_pos), record.from_piece),
                    record.to_pos,
                    record.to_piece,
                );
                assert(self@ =~= undo_model(m0));
            }
            Ok(())
        }
    }

    /// The last four applied moves form a perfect non-capturing
    /// back-and-forth cycle.
    pub fn looped(&self) -> (r: bool)
        ensures
            r == looped(self@),
    {
        let records = &self.undo_move_records;
        let len = records.len();
        if len >= 4 {
            let a = records[len - 4];
            let b = records[len - 3];
            let c = records[len - 2];
            let d = records[len - 1];
            a.to_piece.is_none() && b.to_piece.is_none() && c.to_piece.is_none()
                && d.to_piece.is_none() && a.from_pos.0 == c.to_pos.0 && a.from_pos.1 == c.to_pos.1
                && a.to_pos.0 == c.from_pos.0 && a.to_pos.1 == c.from_pos.1
                && b.from_pos.0 == d.to_pos.0 && b.from_pos.1 == d.to_pos.1
                && b.to_pos.0 == d.from_pos.0 && b.to_pos.1 == d.from_pos.1
        } else {
            false
        }
    }
}

} // verus!
