use sudoku_solver::get_new_square_text;
use sudoku_solver::med_board_1;
use sudoku_solver::Message;
use sudoku_solver::Sudoku;

fn fresh_board() -> Sudoku {
    Sudoku { grid: med_board_1(), solved: false, status: String::new() }
}

#[test]
fn typing_after_the_cursor_keeps_the_new_digit() {
    assert_eq!(get_new_square_text("1", "12"), "2");
}

#[test]
fn typing_before_the_cursor_keeps_the_last_digit() {
    // The two filtered digits do not start with the previous text, so the
    // last filtered character wins.
    assert_eq!(get_new_square_text("1", "21"), "1");
}

#[test]
fn non_digits_and_zero_are_filtered_out() {
    assert_eq!(get_new_square_text("", "a0b"), "");
    assert_eq!(get_new_square_text("", "a7b"), "7");
    assert_eq!(get_new_square_text("", "0"), "");
    assert_eq!(get_new_square_text("3", ""), "");
}

#[test]
fn long_input_keeps_the_last_digit() {
    assert_eq!(get_new_square_text("", "123"), "3");
    assert_eq!(get_new_square_text("9", "975"), "5");
}

#[test]
fn matching_first_digit_keeps_the_second() {
    assert_eq!(get_new_square_text("2", "25"), "5");
    assert_eq!(get_new_square_text("2", "21"), "1");
}

#[test]
fn text_edit_assigns_through_the_square_id() {
    let mut board = fresh_board();
    board.update(Message::TextChanged(
        String::from("square-C0-R0"),
        String::from("5"),
    ));
    assert_eq!(board.grid[0][0].value, Some(5));
    assert!(!board.grid[0][0].given);
}

#[test]
fn text_edit_replaces_an_existing_digit() {
    let mut board = fresh_board();
    board.update(Message::TextChanged(
        String::from("square-C2-R0"),
        String::from("12"),
    ));
    // The square showed nothing, so "12" keeps the last digit.
    assert_eq!(board.grid[2][0].value, Some(2));
    board.update(Message::TextChanged(
        String::from("square-C2-R0"),
        String::from("24"),
    ));
    // Previous text "2" matches the first filtered digit: keep the second.
    assert_eq!(board.grid[2][0].value, Some(4));
}

#[test]
fn empty_filtered_input_clears_the_square() {
    let mut board = fresh_board();
    // (0, 1) holds the given 1.
    board.update(Message::TextChanged(
        String::from("square-C0-R1"),
        String::from("x"),
    ));
    assert_eq!(board.grid[0][1].value, None);
    assert!(board.grid[0][1].given);
}

#[test]
fn malformed_or_out_of_range_ids_change_nothing() {
    let mut board = fresh_board();
    let before = board.clone();
    board.square_text_update("hello", "5");
    assert_eq!(board, before);
    board.square_text_update("square-C9-R0", "5");
    assert_eq!(board, before);
    board.square_text_update("", "5");
    assert_eq!(board, before);
}

#[test]
fn lock_freezes_filled_squares_against_clear() {
    let mut board = fresh_board();
    board.set_square(0, 0, 3, false);
    board.update(Message::Lock);
    assert!(board.grid[0][0].given);
    board.set_square(0, 2, 6, false);
    board.update(Message::Clear);
    assert_eq!(board.grid[0][0].value, Some(3));
    assert!(board.grid[0][0].given);
    assert_eq!(board.grid[0][2].value, None);
    assert_eq!(board.grid[0][1].value, Some(1));
}

#[test]
fn clear_only_touches_non_givens() {
    let mut board = fresh_board();
    board.set_square(0, 0, 3, false);
    board.update(Message::Clear);
    assert_eq!(board.grid[0][0].value, None);
    for r in 0..9 {
        for c in 0..9 {
            let square = &board.grid[r][c];
            if square.given {
                assert!(square.value.is_some());
            } else {
                assert!(square.value.is_none());
            }
        }
    }
}

#[test]
fn reset_message_blanks_the_board() {
    let mut board = fresh_board();
    board.update(Message::Reset);
    assert!(board
        .grid
        .iter()
        .all(|row| row.iter().all(|square| square.value.is_none() && !square.given)));
}

#[test]
fn options_message_fills_candidate_caches() {
    let mut board = fresh_board();
    board.update(Message::Options);
    assert_eq!(board.grid[0][0].options, vec![3, 5, 6]);
    // Filled squares keep an empty cache.
    assert!(board.grid[0][1].options.is_empty());
}

#[test]
fn check_message_records_the_verdict() {
    let mut board = fresh_board();
    board.update(Message::Check);
    assert!(!board.solved);
    board.update(Message::Solve);
    board.update(Message::Check);
    assert!(board.solved);
}

#[test]
fn solve_next_message_fills_one_square() {
    let mut board = fresh_board();
    let before: usize = board
        .grid
        .iter()
        .map(|row| row.iter().filter(|square| square.value.is_none()).count())
        .sum();
    board.update(Message::SolveNext);
    let after: usize = board
        .grid
        .iter()
        .map(|row| row.iter().filter(|square| square.value.is_none()).count())
        .sum();
    assert_eq!(after + 1, before);
}
