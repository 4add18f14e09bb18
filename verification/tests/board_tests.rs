use xiangqi::game::position_inside;
use xiangqi::game::position_inside_board;
use xiangqi::game::Board;
use xiangqi::rules::piece_relative_id;
use xiangqi::rules::Piece;
use xiangqi::rules::Side;

fn has(v: &Vec<(i32, i32)>, p: (i32, i32)) -> bool {
    v.iter().any(|q| *q == p)
}

fn cell(b: &Board, x: usize, y: usize) -> Option<(Side, Piece)> {
    b.get_map()[x * 10 + y]
}

fn scan_count(b: &Board) -> i32 {
    b.get_map().iter().filter(|c| c.is_some()).count() as i32
}

#[test]
fn initial_position() {
    let b = Board::new();
    assert_eq!(b.piece_count_of_board(), 32);
    assert!(!b.finished());
    assert_eq!(b.get_winner(), None);
    assert_eq!(cell(&b, 0, 0), Some((Side::Red, Piece::Chariot)));
    assert_eq!(cell(&b, 4, 0), Some((Side::Red, Piece::General)));
    assert_eq!(cell(&b, 1, 2), Some((Side::Red, Piece::Cannon)));
    assert_eq!(cell(&b, 4, 3), Some((Side::Red, Piece::Soldier)));
    assert_eq!(cell(&b, 4, 9), Some((Side::Black, Piece::General)));
    assert_eq!(cell(&b, 7, 7), Some((Side::Black, Piece::Cannon)));
    assert_eq!(cell(&b, 8, 6), Some((Side::Black, Piece::Soldier)));
    assert_eq!(cell(&b, 4, 4), None);
}

#[test]
fn side_other_flips() {
    assert_eq!(Side::Red.other(), Side::Black);
    assert_eq!(Side::Black.other(), Side::Red);
}

#[test]
fn piece_relative_id_signs() {
    assert_eq!(piece_relative_id(Side::Red, Some((Side::Red, Piece::General))), 7);
    assert_eq!(piece_relative_id(Side::Red, Some((Side::Black, Piece::Soldier))), -1);
    assert_eq!(piece_relative_id(Side::Black, Some((Side::Black, Piece::Cannon))), 4);
    assert_eq!(piece_relative_id(Side::Black, Some((Side::Red, Piece::Horse))), -5);
    assert_eq!(piece_relative_id(Side::Red, None), 0);
}

#[test]
fn soldier_moves_before_and_after_river() {
    let mut b = Board::new();
    let before = b.all_possible_moves((0, 3));
    assert_eq!(before, vec![(0, 4)]);
    // Walk the soldier across the river; sideways steps open up.
    b.do_move_unchecked((0, 3), (0, 5));
    let after = b.all_possible_moves((0, 5));
    assert!(has(&after, (0, 6)));
    assert!(has(&after, (1, 5)));
    assert!(!has(&after, (0, 4)));
}

#[test]
fn cannon_capture_parity() {
    let b = Board::new();
    // The Red Cannon at file 1, rank 2: one screen (the Black cannon at
    // (1, 7)) lies between it and the Black horse at (1, 9), so that
    // capture is legal.
    let moves = b.all_possible_moves((1, 2));
    assert!(has(&moves, (1, 9)));
    // Zero pieces between the cannon and the Black cannon at (1, 7): no
    // capture without a screen.
    assert!(!has(&moves, (1, 7)));
    // Empty destinations along a clear path stay legal.
    assert!(has(&moves, (1, 3)));
    assert!(has(&moves, (1, 6)));
    // With two pieces between, the capture is gone.
    let mut b2 = Board::new();
    b2.do_move_unchecked((1, 0), (1, 4));
    let moves2 = b2.all_possible_moves((1, 2));
    assert!(!has(&moves2, (1, 9)));
}

#[test]
fn elephant_eye_blocking() {
    let mut b = Board::new();
    let open = b.all_possible_moves((2, 0));
    assert!(has(&open, (4, 2)));
    assert!(has(&open, (0, 2)));
    // Occupy the diagonal midpoint toward (4, 2); that destination is
    // excluded even though (4, 2) itself stays empty.
    b.do_move_unchecked((4, 3), (3, 1));
    let blocked = b.all_possible_moves((2, 0));
    assert!(!has(&blocked, (4, 2)));
    assert!(has(&blocked, (0, 2)));
}

#[test]
fn horse_leg_blocking() {
    let b = Board::new();
    let moves = b.all_possible_moves((1, 0));
    assert!(has(&moves, (0, 2)));
    assert!(has(&moves, (2, 2)));
    // The leap toward (3, 1) is blocked by the Elephant at (2, 0).
    assert!(!has(&moves, (3, 1)));
}

#[test]
fn flying_general() {
    let mut b = Board::new();
    // Clear the file between the two Generals.
    b.do_move_unchecked((4, 3), (3, 3));
    b.do_move_unchecked((4, 6), (5, 6));
    let red = b.all_possible_moves((4, 0));
    assert!(has(&red, (4, 9)));
    let black = b.all_possible_moves((4, 9));
    assert!(has(&black, (4, 0)));
    // With a screen back in between, the capture is gone again.
    b.do_move_unchecked((3, 3), (4, 3));
    let red2 = b.all_possible_moves((4, 0));
    assert!(!has(&red2, (4, 9)));
}

#[test]
fn position_bounds() {
    assert!(position_inside_board((0, 0)));
    assert!(position_inside_board((8, 9)));
    assert!(!position_inside_board((9, 0)));
    assert!(!position_inside_board((0, 10)));
    assert!(!position_inside_board((-1, 5)));
    assert!(position_inside((4, 1), (3, 0), (5, 2)));
    assert!(!position_inside((4, 3), (3, 0), (5, 2)));
}

#[test]
fn apply_undo_round_trip() {
    let mut b = Board::new();
    let before_map = b.get_map().clone();
    let before_count = b.piece_count_of_board();
    assert_eq!(b.move_count(), 0);
    // A capture: the Red Cannon takes the Black horse over its screen.
    b.do_move(( 1, 2), (1, 9)).unwrap();
    assert_eq!(b.piece_count_of_board(), before_count - 1);
    assert_eq!(b.move_count(), 1);
    b.undo_move().unwrap();
    assert_eq!(b.move_count(), 0);
    assert_eq!(b.get_map(), &before_map);
    assert_eq!(b.piece_count_of_board(), before_count);
    assert!(!b.finished());
    assert_eq!(b.get_winner(), None);
}

#[test]
fn occupied_count_matches_full_scan() {
    let mut b = Board::new();
    assert_eq!(b.piece_count_of_board(), scan_count(&b));
    b.do_move((1, 2), (1, 9)).unwrap();
    assert_eq!(b.piece_count_of_board(), scan_count(&b));
    b.do_move((7, 7), (7, 0)).unwrap();
    assert_eq!(b.piece_count_of_board(), scan_count(&b));
    b.undo_move().unwrap();
    assert_eq!(b.piece_count_of_board(), scan_count(&b));
    b.do_move_unchecked((0, 0), (0, 9));
    assert_eq!(b.piece_count_of_board(), scan_count(&b));
    b.undo_move().unwrap();
    b.undo_move().unwrap();
    assert_eq!(b.piece_count_of_board(), scan_count(&b));
    assert_eq!(b.piece_count_of_board(), 32);
}

#[test]
fn piece_count_rectangles() {
    let b = Board::new();
    // The whole board.
    assert_eq!(b.piece_count((0, 0), (8, 9)), 32);
    // One back rank.
    assert_eq!(b.piece_count((0, 0), (8, 0)), 9);
    // The empty middle.
    assert_eq!(b.piece_count((0, 4), (8, 5)), 0);
    // An inverted rectangle counts zero.
    assert_eq!(b.piece_count((5, 5), (2, 2)), 0);
}

#[test]
fn terminal_on_general_capture() {
    let mut b = Board::new();
    b.do_move_unchecked((0, 0), (4, 9));
    assert!(b.finished());
    assert_eq!(b.get_winner(), Some(Side::Red));
    b.undo_move().unwrap();
    assert!(!b.finished());
    assert_eq!(b.get_winner(), None);
}

#[test]
fn terminal_on_move_ceiling() {
    let mut b = Board::new();
    for _ in 0..1000 {
        b.do_move_unchecked((1, 0), (2, 2));
        b.do_move_unchecked((2, 2), (1, 0));
    }
    assert!(b.finished());
    assert_eq!(b.get_winner(), None);
}

#[test]
fn repetition_suppression() {
    let mut b = Board::new();
    assert!(!b.looped());
    b.do_move((1, 0), (2, 2)).unwrap();
    b.do_move((1, 9), (2, 7)).unwrap();
    b.do_move((2, 2), (1, 0)).unwrap();
    b.do_move((2, 7), (1, 9)).unwrap();
    assert!(b.looped());
    // The one destination that would recreate the position four plies
    // back is excluded; every other destination stays legal.
    let moves = b.all_possible_moves((1, 0));
    assert!(!has(&moves, (2, 2)));
    assert!(has(&moves, (0, 2)));
    // It is also refused when attempted through the checked move.
    assert!(b.do_move((1, 0), (2, 2)).is_err());
    // Another piece is unaffected.
    let cannon = b.all_possible_moves((1, 2));
    assert!(has(&cannon, (1, 3)));
}

#[test]
fn checked_move_rejects_illegal() {
    let mut b = Board::new();
    let before_map = b.get_map().clone();
    assert!(b.do_move((0, 0), (5, 5)).is_err());
    assert!(b.do_move((0, 0), (0, 4)).is_err());
    assert!(b.do_move((4, 4), (4, 5)).is_err());
    assert_eq!(b.get_map(), &before_map);
}

#[test]
fn undo_on_empty_history_fails() {
    let mut b = Board::new();
    assert!(b.undo_move().is_err());
    b.do_move((0, 3), (0, 4)).unwrap();
    assert!(b.undo_move().is_ok());
    assert!(b.undo_move().is_err());
}

#[test]
fn empty_origin_has_no_moves() {
    let b = Board::new();
    assert!(b.all_possible_moves((4, 4)).is_empty());
}

#[test]
fn queries_on_cells() {
    let b = Board::new();
    assert!(b.has_piece_at((0, 0)));
    assert!(!b.has_piece_at((4, 4)));
    assert!(b.has_friend_at(Side::Red, (0, 0)));
    assert!(!b.has_friend_at(Side::Black, (0, 0)));
    assert!(b.has_enemy_at(Side::Black, (0, 0)));
    assert!(!b.has_enemy_at(Side::Red, (0, 0)));
}
