use dotsnboxes::board::{Board, Line, Player, Square};
use dotsnboxes::geometry::MathOperations;
use dotsnboxes::search::MinMax;

// On a 3x3 board built as board(3, 3, 600, 600, 50, 50) the step is
// (600 - 100) / 2 = 250, so the grid points lie at {50, 300, 550} on each
// axis and the four catalog cells have 250-pixel edges.

fn sample_board() -> Board {
    Board::new(3, 3, 600, 600, 50, 50)
}

#[test]
fn line_equality_ignores_owner() {
    let a = Line::new(50, 50, 300, 50, Player::Player1);
    let b = Line::new(300, 50, 50, 50, Player::Player2);
    let c = Line::new(50, 50, 300, 300, Player::Player1);

    assert!(a == b);
    assert!(b == a);
    assert!(!(a == c));
}

#[test]
fn square_equality_all_orders() {
    let l1 = Line::new(0, 0, 10, 0, Player::Dummy);
    let l2 = Line::new(10, 0, 10, 10, Player::Dummy);
    let l3 = Line::new(10, 10, 0, 10, Player::Dummy);
    let l4 = Line::new(0, 10, 0, 0, Player::Dummy);

    let base = Square::new(l1, l2, l3, l4);
    assert!(base == Square::new(l4, l3, l2, l1));
    assert!(base == Square::new(l2, l3, l4, l1));
    assert!(base == Square::new(l3, l1, l4, l2));

    let other = Line::new(20, 0, 30, 0, Player::Dummy);
    assert!(!(base == Square::new(l1, l2, l3, other)));
}

#[test]
fn grid_and_catalog_sizes() {
    let board = sample_board();
    assert_eq!(9, board.get_points().len());

    let small = Board::new(2, 2, 600, 600, 50, 50);
    assert_eq!(4, small.get_points().len());

    let large = Board::new(4, 4, 600, 600, 60, 60);
    assert_eq!(16, large.get_points().len());
}

#[test]
fn board_getters_report_construction() {
    let board = sample_board();
    assert_eq!(3, board.get_width());
    assert_eq!(3, board.get_height());
    assert_eq!(250, board.get_step_x());
    assert_eq!(250, board.get_step_y());
    assert_eq!(0, board.get_lines().len());
}

#[test]
fn completion_tracks_catalog() {
    // One cell only: a 2x2 board is complete once its four edges are drawn.
    let mut board = Board::new(2, 2, 600, 600, 50, 50);
    assert!(!board.is_complete());

    board.add_line(Line::new(50, 50, 550, 50, Player::Player1));
    board.add_line(Line::new(550, 50, 550, 550, Player::Player1));
    board.add_line(Line::new(550, 550, 50, 550, Player::Player1));
    board.update_squares(Player::Player1);
    assert!(!board.is_complete());
    assert_eq!(0, board.get_marked_by_player_1().len());

    board.add_line(Line::new(50, 550, 50, 50, Player::Player1));
    board.update_squares(Player::Player1);
    assert!(board.is_complete());
    assert_eq!(1, board.get_marked_by_player_1().len());
    assert_eq!(0, board.get_marked_by_player_2().len());
}

#[test]
fn one_line_completes_one_square() {
    let mut board = sample_board();
    board.add_line(Line::new(50, 50, 50, 300, Player::Player2));
    board.add_line(Line::new(50, 50, 300, 50, Player::Player2));
    board.add_line(Line::new(50, 300, 300, 300, Player::Player2));
    board.update_squares(Player::Player2);
    assert_eq!(0, board.get_marked_by_player_2().len());

    board.add_line(Line::new(300, 50, 300, 300, Player::Player2));
    board.update_squares(Player::Player2);
    assert_eq!(1, board.get_marked_by_player_2().len());
    assert_eq!(0, board.get_marked_by_player_1().len());
}

#[test]
fn one_line_completes_two_squares() {
    let mut board = sample_board();
    // Left cell, everything but its right edge.
    board.add_line(Line::new(50, 50, 50, 300, Player::Player2));
    board.add_line(Line::new(50, 50, 300, 50, Player::Player2));
    board.add_line(Line::new(50, 300, 300, 300, Player::Player2));
    // Right cell, everything but its left edge.
    board.add_line(Line::new(300, 50, 550, 50, Player::Player2));
    board.add_line(Line::new(550, 50, 550, 300, Player::Player2));
    board.add_line(Line::new(300, 300, 550, 300, Player::Player2));
    board.update_squares(Player::Player2);
    assert_eq!(0, board.get_marked_by_player_2().len());

    // The shared edge finishes both cells at once.
    board.add_line(Line::new(300, 50, 300, 300, Player::Player2));
    board.update_squares(Player::Player2);
    assert_eq!(2, board.get_marked_by_player_2().len());

    // Rescans never claim a square twice.
    board.update_squares(Player::Player2);
    board.update_squares(Player::Player1);
    assert_eq!(2, board.get_marked_by_player_2().len());
    assert_eq!(0, board.get_marked_by_player_1().len());
}

#[test]
fn midpoint_resolves_horizontal_edge() {
    let mut board = sample_board();
    // Exact midpoint of the top-left horizontal edge (50,50)-(300,50).
    board.update_line(Player::Player2, 175, 50);
    let temp = board.get_temp_line();
    assert!(temp == Line::new(50, 50, 300, 50, Player::Dummy));
    assert_eq!(Player::Player2, temp.get_marked_by());
}

#[test]
fn far_pointer_resolves_without_panic() {
    // A pointer far outside the grid still selects four nearest points; no
    // triangle around their center contains it, so the candidate stays put.
    let mut board = sample_board();
    let initial = board.get_temp_line();
    board.update_line(Player::Player1, 1_000_000, 1_000_000);
    assert!(board.get_temp_line() == initial);

    // A pointer just inside a cell resolves normally afterwards.
    board.update_line(Player::Player1, 175, 60);
    assert!(board.get_temp_line() == Line::new(50, 50, 300, 50, Player::Dummy));
}

#[test]
fn committed_line_found_exactly_once() {
    let board = sample_board();
    let mut copy = board.clone();
    let line = Line::new(50, 50, 300, 50, Player::Player1);
    assert!(!copy.contains_line(&line));

    copy.add_line(line);
    copy.update_squares(Player::Player1);
    copy.update_squares(Player::Player2);
    assert!(copy.contains_line(&line));

    let occurrences = copy
        .get_lines()
        .iter()
        .filter(|committed| **committed == line)
        .count();
    assert_eq!(1, occurrences);

    // The source board is untouched by work on the clone.
    assert!(!board.contains_line(&line));
}

fn board_with_three_edges() -> Board {
    let mut board = sample_board();
    board.add_line(Line::new(50, 50, 50, 300, Player::Player1));
    board.add_line(Line::new(50, 50, 300, 50, Player::Player1));
    board.add_line(Line::new(50, 300, 300, 300, Player::Player1));
    board.update_squares(Player::Player1);
    board
}

#[test]
fn search_completes_open_square_depth_one() {
    let board = board_with_three_edges();
    let mut engine = MinMax::new();
    let (next, score) = engine.alphabeta(&board, 1, i32::MIN, i32::MAX, true);
    assert_eq!(1, next.get_marked_by_player_2().len());
    assert!(next.contains_line(&Line::new(300, 50, 300, 300, Player::Dummy)));
    assert_eq!(1, score);
}

#[test]
fn search_completes_open_square_deeper() {
    let board = board_with_three_edges();
    for depth in 2..5u8 {
        let mut engine = MinMax::new();
        let (next, _score) = engine.alphabeta(&board, depth, i32::MIN, i32::MAX, true);
        assert_eq!(1, next.get_marked_by_player_2().len());
        assert!(next.contains_line(&Line::new(300, 50, 300, 300, Player::Dummy)));
    }
}

#[test]
fn search_is_deterministic() {
    let board = board_with_three_edges();
    let mut engine1 = MinMax::new();
    let mut engine2 = MinMax::new();
    let (next1, score1) = engine1.alphabeta(&board, 3, i32::MIN, i32::MAX, true);
    let (next2, score2) = engine2.alphabeta(&board, 3, i32::MIN, i32::MAX, true);

    assert_eq!(score1, score2);
    assert!(next1.get_lines() == next2.get_lines());
    assert_eq!(
        next1.get_marked_by_player_1().len(),
        next2.get_marked_by_player_1().len()
    );
    assert_eq!(
        next1.get_marked_by_player_2().len(),
        next2.get_marked_by_player_2().len()
    );

    // A repeated call on the same engine returns the same move again.
    let (next3, score3) = engine1.alphabeta(&board, 3, i32::MIN, i32::MAX, true);
    assert_eq!(score1, score3);
    assert!(next1.get_lines() == next3.get_lines());
}

#[test]
fn search_on_terminal_board_returns_it() {
    let mut board = Board::new(2, 2, 600, 600, 50, 50);
    board.add_line(Line::new(50, 50, 550, 50, Player::Player2));
    board.add_line(Line::new(550, 50, 550, 550, Player::Player2));
    board.add_line(Line::new(550, 550, 50, 550, Player::Player2));
    board.add_line(Line::new(50, 550, 50, 50, Player::Player2));
    board.update_squares(Player::Player2);
    assert!(board.is_complete());

    let mut engine = MinMax::new();
    let (next, score) = engine.alphabeta(&board, 6, i32::MIN, i32::MAX, true);
    assert!(next.is_complete());
    assert_eq!(4, next.get_lines().len());
    assert_eq!(1, score);

    let (_next_min, score_min) = engine.alphabeta(&board, 6, i32::MIN, i32::MAX, false);
    assert_eq!(0, score_min);
}

#[test]
fn extra_turn_driver_finishes_chain() {
    // The caller-side driver loop: search, and search again while the
    // computer keeps completing squares.
    let mut board = sample_board();
    // The two top cells each lack just their bottom edge.
    let all = [
        Line::new(50, 50, 300, 50, Player::Player1),
        Line::new(300, 50, 550, 50, Player::Player1),
        Line::new(50, 50, 50, 300, Player::Player1),
        Line::new(300, 50, 300, 300, Player::Player1),
        Line::new(550, 50, 550, 300, Player::Player1),
    ];
    for line in all {
        board.add_line(line);
    }
    board.update_squares(Player::Player1);
    assert_eq!(0, board.get_marked_by_player_1().len());

    let mut engine = MinMax::new();
    let mut previous = board.get_marked_by_player_2().len();
    let step = engine.alphabeta(&board, 3, i32::MIN, i32::MAX, true);
    let mut current_board = step.0;
    let mut current = current_board.get_marked_by_player_2().len();
    while previous != current {
        previous = current;
        let step = engine.alphabeta(&current_board, 3, i32::MIN, i32::MAX, true);
        current_board = step.0;
        current = current_board.get_marked_by_player_2().len();
    }
    // Both top cells were there for the taking; the chain claims them both.
    assert_eq!(2, current_board.get_marked_by_player_2().len());

    // The packaged turn matches the hand-rolled chain.
    let mut engine2 = MinMax::new();
    let packaged = engine2.play_computer_turn(&board, 3);
    assert_eq!(2, packaged.get_marked_by_player_2().len());
    assert!(packaged.get_lines() == current_board.get_lines());
}

#[test]
fn getters_report_line_fields() {
    let line = Line::new(1, 2, 3, 4, Player::Player2);
    assert_eq!(1, line.get_x1());
    assert_eq!(2, line.get_y1());
    assert_eq!(3, line.get_x2());
    assert_eq!(4, line.get_y2());
    assert_eq!(Player::Player2, line.get_marked_by());

    let square = Square::new(line, line, line, line);
    assert!(square.get_line1() == line);
}
