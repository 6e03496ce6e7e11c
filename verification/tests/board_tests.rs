use sudoku_solver::med_board_1;
use sudoku_solver::sqr;
use sudoku_solver::Sudoku;
use sudoku_solver::SudokuSquare;

fn fresh_board() -> Sudoku {
    Sudoku { grid: med_board_1(), solved: false, status: String::new() }
}

fn blank_board() -> Sudoku {
    let mut board = fresh_board();
    board.reset_board();
    board
}

fn row_values(board: &Sudoku, r: usize) -> Vec<Option<u32>> {
    (0..9).map(|c| board.grid[r][c].value).collect()
}

#[test]
fn sqr_builds_given_squares_for_digits() {
    let square = sqr(5);
    assert_eq!(square.value, Some(5));
    assert!(square.given);
    assert!(square.options.is_empty());
}

#[test]
fn sqr_builds_empty_squares_otherwise() {
    for bad in [0u32, 10, 99] {
        let square = sqr(bad);
        assert_eq!(square.value, None);
        assert!(!square.given);
        assert!(square.options.is_empty());
    }
}

#[test]
fn sample_board_row0_and_givens() {
    let grid = med_board_1();
    let row0: Vec<Option<u32>> = (0..9).map(|c| grid[0][c].value).collect();
    assert_eq!(
        row0,
        vec![None, Some(1), None, None, None, Some(8), None, Some(9), None]
    );
    assert!(grid[0][1].given);
    assert!(!grid[0][0].given);
    assert_eq!(grid[8][7].value, Some(2));
    assert!(grid[8][7].given);
}

#[test]
fn default_board_is_the_sample_puzzle() {
    let board = Sudoku::default();
    assert_eq!(board.grid, med_board_1());
    assert!(!board.solved);
    assert!(board.status.is_empty());
}

#[test]
fn set_square_rejects_zero_and_ten() {
    let mut board = fresh_board();
    let before = board.clone();
    board.set_square(0, 0, 0, false);
    assert_eq!(board, before);
    board.set_square(0, 0, 10, false);
    assert_eq!(board, before);
}

#[test]
fn set_square_assigns_digits_and_resets_state() {
    let mut board = fresh_board();
    board.solved = true;
    board.status = String::from("stale");
    board.set_square(0, 0, 3, false);
    assert_eq!(board.grid[0][0].value, Some(3));
    assert!(!board.grid[0][0].given);
    assert!(board.grid[0][0].options.is_empty());
    assert!(!board.solved);
    assert!(board.status.is_empty());
}

#[test]
fn check_solved_is_false_on_partial_board() {
    let mut board = fresh_board();
    assert!(!board.check_solved());
    assert!(!board.solved);
}

#[test]
fn solve_full_reaches_the_known_solution_row0() {
    let mut board = fresh_board();
    board.solve(false);
    assert!(board.solved);
    assert!(board.check_solved());
    // The sample puzzle has exactly one completion, and this is its first
    // row.
    assert_eq!(
        row_values(&board, 0),
        vec![
            Some(3),
            Some(1),
            Some(2),
            Some(6),
            Some(7),
            Some(8),
            Some(4),
            Some(9),
            Some(5)
        ]
    );
}

#[test]
fn check_solved_twice_same_verdict_and_state() {
    let mut board = fresh_board();
    let first = board.check_solved();
    let grid_after_first = board.grid.clone();
    let solved_after_first = board.solved;
    let status_after_first = board.status.clone();
    let second = board.check_solved();
    assert_eq!(first, second);
    assert_eq!(board.grid, grid_after_first);
    assert_eq!(board.solved, solved_after_first);
    assert_eq!(board.status, status_after_first);
}

#[test]
fn reset_board_blanks_everything() {
    let mut board = fresh_board();
    board.reset_board();
    for r in 0..9 {
        for c in 0..9 {
            let square: &SudokuSquare = &board.grid[r][c];
            assert_eq!(square.value, None);
            assert!(!square.given);
            assert!(square.options.is_empty());
        }
    }
    assert!(!board.solved);
    assert!(board.status.is_empty());
}

#[test]
fn is_row_col_box_solved_on_a_solved_board() {
    let mut board = fresh_board();
    board.solve(false);
    assert!(board.solved);
    for g in 0..9 {
        assert!(board.is_row_solved(g));
        assert!(board.is_col_solved(g));
        assert!(board.is_box_solved(g));
    }
    let mut spoiled = blank_board();
    assert!(!spoiled.is_row_solved(0));
    spoiled.set_square(4, 4, 7, false);
    assert!(!spoiled.is_box_solved(4));
}
