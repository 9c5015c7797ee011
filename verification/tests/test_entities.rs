use dotsnboxes::board::{Board, Line, Player, Square};
use dotsnboxes::geometry::MathOperations;

#[test]
fn test_basic_distance() {
    let expected = 41;
    let actual = MathOperations::distance_sq(3, 3, 8, 7);

    assert_eq!(expected, actual);
}

#[test]
fn test_basic_area() {
    let expected = 24;
    let actual = MathOperations::area_doubled(-3, 1, 1, 5, -2, 8);

    assert_eq!(expected, actual);
}

#[test]
fn test_is_inside_triangle() {
    let tr_x1 = 10;
    let tr_y1 = 10;

    let tr_x2 = 10;
    let tr_y2 = 30;

    let tr_x3 = 40;
    let tr_y3 = 20;
    let actual =
        MathOperations::is_inside_triangle(tr_x1, tr_y1, tr_x2, tr_y2, tr_x3, tr_y3, 20, 15);
    assert!(actual);
}

#[test]
fn test_is_outside_triangle() {
    let tr_x1 = 10;
    let tr_y1 = 10;

    let tr_x2 = 10;
    let tr_y2 = 30;

    let tr_x3 = 40;
    let tr_y3 = 20;
    let actual =
        MathOperations::is_inside_triangle(tr_x1, tr_y1, tr_x2, tr_y2, tr_x3, tr_y3, 5, 15);
    assert!(!actual);
}

#[test]
fn test_is_inside_rectangle() {
    let rec_x = 10;
    let rec_y = 20;
    let rec_width = 10;
    let rec_height = 40;

    let actual = MathOperations::is_inside_rectangle(15, 30, rec_x, rec_y, rec_width, rec_height);
    assert!(actual);
}

#[test]
fn test_is_outside_rectangle() {
    let rec_x = 10;
    let rec_y = 20;
    let rec_width = 10;
    let rec_height = 40;

    let actual = MathOperations::is_inside_rectangle(25, 30, rec_x, rec_y, rec_width, rec_height);
    assert!(!actual);
}

#[test]
fn test_are_on_the_same_line() {
    let x = 7;
    let y = 10;

    let points = vec![(1, 2), (7, 2), (7, 30)];

    assert!(MathOperations::are_on_same_line(x, y, &points));
}

#[test]
fn test_are_not_on_the_same_line() {
    let x = 7;
    let y = 11;

    let points = vec![(1, 11), (4, 2), (7, 30)];

    assert!(!MathOperations::are_on_same_line(x, y, &points));
}

#[test]
fn test_line_equallity() {
    let line1 = Line::new(6, 2, 3, 4, Player::Dummy);
    let line2 = Line::new(3, 4, 6, 2, Player::Dummy);

    assert!(line1 == line2);
}

#[test]
fn test_get_smallest() {
    let line1 = Line::new(6, 2, 3, 4, Player::Dummy);
    let line2 = Line::new(21, 11, 3, 9, Player::Dummy);
    let line3 = Line::new(2, 2, 4, 3, Player::Dummy);
    let line4 = Line::new(8, 18, 3, 13, Player::Dummy);

    let square = Square::new(line1, line2, line3, line4);
    let actual = square.get_smallest();

    assert_eq!(2, actual.0);
    assert_eq!(2, actual.1);
}

#[test]
fn test_square_equallity() {
    let line1 = Line::new(6, 2, 3, 4, Player::Dummy);
    let line2 = Line::new(21, 11, 3, 9, Player::Dummy);
    let line3 = Line::new(2, 2, 4, 3, Player::Dummy);
    let line4 = Line::new(8, 18, 3, 13, Player::Dummy);

    let square1 = Square::new(line1, line2, line3, line4);
    let square2 = Square::new(line3, line1, line2, line4);

    assert!(square1 == square2);
}

#[test]
fn test_board_add_line() {
    let mut board = Board::new(3, 3, 600, 600, 50, 50);
    let line = Line::new(6, 2, 3, 4, Player::Dummy);
    board.add_line(line);

    assert!(board.contains_line(&line));
}

#[test]
fn test_temp_line_positioning() {
    let expected = Line::new(300, 300, 300, 50, Player::Player1);

    let mut board = Board::new(3, 3, 600, 600, 50, 50);
    board.update_line(Player::Player1, 300, 200);
    let temp_line = board.get_temp_line();

    assert_eq!(expected, temp_line);
}

#[test]
fn test_update_squares() {
    let line1 = Line::new(50, 50, 50, 300, Player::Player1);
    let line2 = Line::new(300, 50, 50, 50, Player::Player1);
    let line3 = Line::new(50, 300, 300, 300, Player::Player1);
    let line4 = Line::new(300, 300, 300, 50, Player::Player1);

    let mut board = Board::new(3, 3, 600, 600, 50, 50);

    board.add_line(line1);
    board.add_line(line2);
    board.add_line(line3);
    board.add_line(line4);

    assert_eq!(0, board.get_marked_by_player_1().len());
    assert_eq!(0, board.get_marked_by_player_2().len());

    board.update_squares(Player::Player1);

    assert_eq!(1, board.get_marked_by_player_1().len());
    assert_eq!(0, board.get_marked_by_player_2().len());
}
