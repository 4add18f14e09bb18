use xiangqi::ai::max_search;
use xiangqi::ai::min_search;
use xiangqi::controller::AIController;
use xiangqi::controller::Controller;
use xiangqi::controller::RandomController;
use xiangqi::evaluator::EnhancedEvaluator;
use xiangqi::evaluator::Evaluator;
use xiangqi::evaluator::ShortSightedEvaluator;
use xiangqi::game::Board;
use xiangqi::rules::Side;

fn has(v: &Vec<(i32, i32)>, p: (i32, i32)) -> bool {
    v.iter().any(|q| *q == p)
}

#[test]
fn material_evaluator_balanced_start() {
    let b = Board::new();
    let e = ShortSightedEvaluator::new();
    assert_eq!(e.evaluate(Side::Red, &b), 0);
    assert_eq!(e.evaluate(Side::Black, &b), 0);
}

#[test]
fn material_evaluator_counts_captures() {
    let mut b = Board::new();
    // Red captures the Black horse (worth 5).
    b.do_move((1, 2), (1, 9)).unwrap();
    let e = ShortSightedEvaluator::new();
    assert_eq!(e.evaluate(Side::Red, &b), 5);
    assert_eq!(e.evaluate(Side::Black, &b), -5);
    // Black takes the intruding cannon back (worth 5 as well).
    b.do_move((0, 9), (1, 9)).unwrap();
    assert_eq!(e.evaluate(Side::Red, &b), 0);
}

#[test]
fn material_evaluator_antisymmetric() {
    let mut b = Board::new();
    b.do_move_unchecked((0, 0), (4, 5));
    b.do_move_unchecked((8, 9), (5, 5));
    b.do_move_unchecked((0, 3), (8, 8));
    let e = ShortSightedEvaluator::new();
    assert_eq!(e.evaluate(Side::Red, &b), -e.evaluate(Side::Black, &b));
}

#[test]
fn enhanced_evaluator_looks_one_ply_ahead() {
    let b = Board::new();
    // With one ply of lookahead, Red's best gain from the start position
    // is a cannon capturing a horse: +5.
    let e = EnhancedEvaluator::new(1, ShortSightedEvaluator::new());
    assert_eq!(e.evaluate(Side::Red, &b), 5);
    assert_eq!(e.evaluate(Side::Black, &b), 5);
    // Zero lookahead degenerates to the base evaluator.
    let e0 = EnhancedEvaluator::new(0, ShortSightedEvaluator::new());
    assert_eq!(e0.evaluate(Side::Red, &b), 0);
}

#[test]
fn enhanced_evaluator_leaves_board_untouched() {
    let b = Board::new();
    let before_map = b.get_map().clone();
    let e = EnhancedEvaluator::new(2, ShortSightedEvaluator::new());
    let _ = e.evaluate(Side::Red, &b);
    assert_eq!(b.get_map(), &before_map);
    assert_eq!(b.piece_count_of_board(), 32);
}

#[test]
fn depth_one_search_finds_best_capture() {
    let mut b = Board::new();
    let e = ShortSightedEvaluator::new();
    let mut count: u32 = 0;
    let d = max_search(1, &mut count, 1_000_000, &mut b, Side::Red, &e, i64::MIN, i64::MAX)
        .expect("depth-1 search fits the budget");
    assert_eq!(d.score, 5);
    let step = d.step.expect("red has moves");
    // The winning move is one of the two cannon-takes-horse captures.
    assert!(step == ((1, 2), (1, 9)) || step == ((7, 2), (7, 9)));
    // The board is handed back unchanged.
    assert_eq!(b.piece_count_of_board(), 32);
}

#[test]
fn depth_one_min_search_finds_worst_reply() {
    let mut b = Board::new();
    let e = ShortSightedEvaluator::new();
    let mut count: u32 = 0;
    let d = min_search(1, &mut count, 1_000_000, &mut b, Side::Red, &e, i64::MIN, i64::MAX)
        .expect("depth-1 search fits the budget");
    // Black's best answer from the start position takes a Red horse.
    assert_eq!(d.score, -5);
    let step = d.step.expect("black has moves");
    assert!(b.has_friend_at(Side::Black, step.0));
    assert_eq!(b.piece_count_of_board(), 32);
}

#[test]
fn search_on_terminal_board_is_a_leaf() {
    let mut b = Board::new();
    b.do_move_unchecked((0, 0), (4, 9));
    let e = ShortSightedEvaluator::new();
    let mut count: u32 = 0;
    let d = max_search(3, &mut count, 1_000_000, &mut b, Side::Red, &e, i64::MIN, i64::MAX)
        .expect("a leaf fits any budget");
    assert!(d.step.is_none());
    assert_eq!(d.score, 100);
    assert_eq!(count, 1);
}

#[test]
fn exhausted_budget_reports_no_result() {
    let mut b = Board::new();
    let e = ShortSightedEvaluator::new();
    let mut count: u32 = 10;
    assert!(max_search(1, &mut count, 5, &mut b, Side::Red, &e, i64::MIN, i64::MAX).is_none());
    assert_eq!(b.piece_count_of_board(), 32);
}

#[test]
fn depth_one_budget_threshold() {
    // A depth-1 search visits one node per legal move plus one; it
    // completes exactly when the budget covers the legal moves.
    let b = Board::new();
    let e = ShortSightedEvaluator::new();
    let mut n: u32 = 0;
    for x in 0..9 {
        for y in 0..10 {
            if b.has_friend_at(Side::Red, (x, y)) {
                n += b.all_possible_moves((x, y)).len() as u32;
            }
        }
    }
    let mut fits = b.clone();
    let mut fits_count: u32 = 0;
    assert!(
        max_search(1, &mut fits_count, n, &mut fits, Side::Red, &e, i64::MIN, i64::MAX).is_some()
    );
    assert_eq!(fits_count, n + 1);
    let mut tight = b.clone();
    let mut tight_count: u32 = 0;
    assert!(
        max_search(1, &mut tight_count, n - 1, &mut tight, Side::Red, &e, i64::MIN, i64::MAX)
            .is_none()
    );
    // The controller separates the two kinds of None: a budget too small
    // for even one ply yields no decision, while a sufficient one always
    // yields a move here.
    let starved = AIController::new(e, n - 1);
    assert!(starved.decide(Side::Red, &b).is_none());
    let sufficient = AIController::new(e, n);
    assert!(sufficient.decide(Side::Red, &b).is_some());
}

#[test]
fn pruned_search_equals_full_width_minimax() {
    // The alpha-beta engine must return the same value a full-width
    // search produces; the unpruned negamax of the enhanced evaluator is
    // that reference, since the material evaluator is antisymmetric.
    let e = ShortSightedEvaluator::new();
    let mut positions: Vec<Board> = Vec::new();
    positions.push(Board::new());
    let mut b2 = Board::new();
    b2.do_move((1, 2), (1, 9)).unwrap();
    positions.push(b2);
    let mut b3 = Board::new();
    b3.do_move_unchecked((1, 2), (4, 4));
    b3.do_move_unchecked((7, 7), (4, 6));
    positions.push(b3);
    for b in positions.iter() {
        for depth in 1..3u32 {
            let reference = EnhancedEvaluator::new(depth, e).evaluate(Side::Red, b);
            let mut owned = b.clone();
            let mut count: u32 = 0;
            let d = max_search(
                depth,
                &mut count,
                50_000_000,
                &mut owned,
                Side::Red,
                &e,
                i64::MIN,
                i64::MAX,
            )
            .expect("generous budget");
            assert_eq!(d.score, reference);
        }
    }
}

#[test]
fn iterative_deepening_plays_deepest_completed_move() {
    // Replicate the driver by hand: with this budget, find the deepest
    // depth whose search completes, and check the controller plays
    // exactly that search's move.
    let budget: u32 = 3000;
    let b = Board::new();
    let e = ShortSightedEvaluator::new();
    let mut expected = None;
    let mut completed_depths: u32 = 0;
    for depth in 1..100u32 {
        let mut owned = b.clone();
        let mut count: u32 = 0;
        match max_search(depth, &mut count, budget, &mut owned, Side::Red, &e, i64::MIN, i64::MAX)
        {
            Some(d) => {
                expected = d.step;
                completed_depths += 1;
            }
            None => break,
        }
    }
    // The budget is generous enough for more than one depth and small
    // enough to stop the deepening.
    assert!(completed_depths >= 2);
    assert!(completed_depths < 99);
    let controller = AIController::new(e, budget);
    let chosen = controller.decide(Side::Red, &b);
    assert_eq!(chosen, expected);
}

#[test]
fn ai_controller_move_is_legal() {
    let b = Board::new();
    let controller = AIController::new(ShortSightedEvaluator::new(), 20_000);
    let (from, to) = controller.decide(Side::Black, &b).expect("black has moves");
    assert!(b.has_friend_at(Side::Black, from));
    assert!(has(&b.all_possible_moves(from), to));
}

#[test]
fn ai_controller_none_on_finished_board() {
    let mut b = Board::new();
    b.do_move_unchecked((0, 0), (4, 9));
    let controller = AIController::new(ShortSightedEvaluator::new(), 20_000);
    assert!(controller.decide(Side::Black, &b).is_none());
}

#[test]
fn random_controller_move_is_legal() {
    let b = Board::new();
    let controller = RandomController::new();
    for _ in 0..20 {
        let (from, to) = controller.decide(Side::Red, &b).expect("red has moves");
        assert!(b.has_friend_at(Side::Red, from));
        assert!(has(&b.all_possible_moves(from), to));
    }
}
