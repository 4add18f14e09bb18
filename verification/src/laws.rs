//! The board state machine's laws: the apply/undo round trip, preservation
//! of well-formedness (and so of the occupied-count cache) under any
//! sequence of applies and undos, terminal detection on General capture,
//! elephant-eye blocking, the flying-general rule and repetition
//! suppression, each proved over the model in `rules`.

use vstd::prelude::*;

use crate::rules::{
    apply_model, cell_at, cell_index, dest_allowed, elephant_dest, flying_general_dest,
    general_dest, lemma_cell_index_injective, lemma_replay_apply, lemma_total_count_update, looped,
    model_wf, occupied_xy, on_board, raw_dest, seg_count, suppressed, undo_model, BoardModel,
    Piece, Side,
};

verus! {

/// Applying any move and undoing it restores the exact prior model: grid,
/// history, move counter, terminal flag, winner and occupied count.  (A
/// board that is already terminal is excluded: undo clears the terminal
/// state unconditionally, so applying and undoing on a finished board
/// would erase its terminal flag.)
pub proof fn lemma_apply_undo_round_trip(m: BoardModel, from: (i32, i32), to: (i32, i32))
    requires
        model_wf(m),
        on_board(from),
        on_board(to),
        !m.finished,
        m.winner is None,
    ensures
        undo_model(apply_model(m, from, to)) == m,
{
    let m1 = apply_model(m, from, to);
    let rec = m1.history.last();
    assert(m1.history.drop_last() =~= m.history);
    if from != to {
        assert(cell_index(from) != cell_index(to)) by {
            if cell_index(from) == cell_index(to) {
                lemma_cell_index_injective(from, to);
            }
        }
    }
    assert(undo_model(m1).grid =~= m.grid);
    assert(undo_model(m1) =~= m);
}

/// Applying any move preserves well-formedness; in particular the cached
/// occupied count still equals a full scan of the grid.
pub proof fn lemma_apply_preserves_wf(m: BoardModel, from: (i32, i32), to: (i32, i32))
    requires
        model_wf(m),
        on_board(from),
        on_board(to),
        m.move_count < u32::MAX,
    ensures
        model_wf(apply_model(m, from, to)),
{
    lemma_total_count_update(m.grid, to, cell_at(m.grid, from));
    lemma_total_count_update(m.grid.update(cell_index(to), cell_at(m.grid, from)), from, None);
    lemma_replay_apply(m.grid, m.history, from, to);
}

/// Undoing a move preserves well-formedness; in particular the cached
/// occupied count still equals a full scan of the grid.
pub proof fn lemma_undo_preserves_wf(m: BoardModel)
    requires
        model_wf(m),
        m.history.len() > 0,
    ensures
        model_wf(undo_model(m)),
{
    let rec = m.history.last();
    lemma_total_count_update(m.grid, rec.from_pos, rec.from_piece);
    lemma_total_count_update(
        m.grid.update(cell_index(rec.from_pos), rec.from_piece),
        rec.to_pos,
        rec.to_piece,
    );
}

/// One step of an arbitrary apply/undo script: an apply with an off-board
/// position, or an undo on an empty history, leaves the model unchanged.
pub open spec fn step_op(m: BoardModel, op: BoardOp) -> BoardModel {
    match op {
        BoardOp::Apply { from, to } => if on_board(from) && on_board(to) && m.move_count
            < u32::MAX {
            apply_model(m, from, to)
        } else {
            m
        },
        BoardOp::Undo => if m.history.len() > 0 {
            undo_model(m)
        } else {
            m
        },
    }
}

/// One operation of an apply/undo script.
pub ghost enum BoardOp {
    Apply { from: (i32, i32), to: (i32, i32) },
    Undo,
}

/// The model after running a whole apply/undo script.
pub open spec fn run_ops(m: BoardModel, ops: Seq<BoardOp>) -> BoardModel
    decreases ops.len(),
{
    if ops.len() == 0 {
        m
    } else {
        run_ops(step_op(m, ops[0]), ops.drop_first())
    }
}

/// After any sequence of applies and undos on a well-formed board, the
/// model is still well formed: the cached occupied count equals a full
/// scan, the move counter equals the history length, and the history
/// remains a faithful diff stack.
pub proof fn lemma_run_ops_preserves_wf(m: BoardModel, ops: Seq<BoardOp>)
    requires
        model_wf(m),
    ensures
        model_wf(run_ops(m, ops)),
    decreases ops.len(),
{
    if ops.len() > 0 {
        let m1 = step_op(m, ops[0]);
        match ops[0] {
            BoardOp::Apply { from, to } => {
                if on_board(from) && on_board(to) && m.move_count < u32::MAX {
                    lemma_apply_preserves_wf(m, from, to);
                }
            },
            BoardOp::Undo => {
                if m.history.len() > 0 {
                    lemma_undo_preserves_wf(m);
                }
            },
        }
        lemma_run_ops_preserves_wf(m1, ops.drop_first());
    }
}

/// Capturing a General ends the game at once: the terminal flag is set and
/// the capturing camp is recorded as the winner; undoing that move clears
/// both again.
pub proof fn lemma_general_capture_terminal(m: BoardModel, from: (i32, i32), to: (i32, i32), s: Side)
    requires
        on_board(from),
        on_board(to),
        cell_at(m.grid, to) == Some((s, Piece::General)),
    ensures
        apply_model(m, from, to).finished,
        apply_model(m, from, to).winner == Some(s.spec_other()),
        !undo_model(apply_model(m, from, to)).finished,
        undo_model(apply_model(m, from, to)).winner is None,
{
}

/// An Elephant whose diagonal midpoint (the "elephant eye") is occupied
/// may not make that two-step diagonal move, whatever stands on the
/// destination itself.
pub proof fn lemma_elephant_eye_blocked(m: BoardModel, from: (i32, i32), to: (i32, i32), s: Side)
    requires
        cell_at(m.grid, from) == Some((s, Piece::Elephant)),
        to.0 == from.0 + 2 || to.0 == from.0 - 2,
        to.1 == from.1 + 2 || to.1 == from.1 - 2,
        occupied_xy(m.grid, (from.0 + to.0) / 2, (from.1 + to.1) / 2),
    ensures
        !dest_allowed(m, from, to),
        !raw_dest(m.grid, from, to),
{
    assert(!elephant_dest(m.grid, s, from, to));
}

/// The flying-general rule: when the two Generals face each other on one
/// file with nothing between them, the movement law lets each capture the
/// other, palace confinement notwithstanding.
pub proof fn lemma_flying_general(m: BoardModel, red_pos: (i32, i32), black_pos: (i32, i32))
    requires
        on_board(red_pos),
        on_board(black_pos),
        cell_at(m.grid, red_pos) == Some((Side::Red, Piece::General)),
        cell_at(m.grid, black_pos) == Some((Side::Black, Piece::General)),
        red_pos.0 == black_pos.0,
        red_pos.1 < black_pos.1,
        seg_count(m.grid, red_pos, black_pos) == 2,
    ensures
        raw_dest(m.grid, red_pos, black_pos),
        raw_dest(m.grid, black_pos, red_pos),
        !suppressed(m, red_pos, black_pos) ==> dest_allowed(m, red_pos, black_pos),
        !suppressed(m, black_pos, red_pos) ==> dest_allowed(m, black_pos, red_pos),
{
    assert(flying_general_dest(m.grid, Side::Red, red_pos, black_pos));
    assert(flying_general_dest(m.grid, Side::Black, black_pos, red_pos));
    assert(general_dest(m.grid, Side::Red, red_pos, black_pos));
    assert(general_dest(m.grid, Side::Black, black_pos, red_pos));
}

/// Repetition suppression removes exactly one destination: when the last
/// four moves form a non-capturing back-and-forth cycle, the move that
/// would reproduce the move four plies back is excluded, and every other
/// destination of that origin is exactly as the movement law has it.
pub proof fn lemma_repetition_suppression(m: BoardModel, from: (i32, i32))
    requires
        looped(m),
        from == m.history[m.history.len() - 4].from_pos,
    ensures
        !dest_allowed(m, from, m.history[m.history.len() - 4].to_pos),
        forall|to: (i32, i32)|
            to != m.history[m.history.len() - 4].to_pos ==> (#[trigger] dest_allowed(m, from, to)
                <==> raw_dest(m.grid, from, to)),
{
}

} // verus!
