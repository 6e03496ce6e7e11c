use sudoku_solver::med_board_1;
use sudoku_solver::Sudoku;

fn fresh_board() -> Sudoku {
    Sudoku { grid: med_board_1(), solved: false, status: String::new() }
}

fn blank_board() -> Sudoku {
    let mut board = fresh_board();
    board.reset_board();
    board
}

fn empty_count(board: &Sudoku) -> usize {
    board
        .grid
        .iter()
        .map(|row| row.iter().filter(|square| square.value.is_none()).count())
        .sum()
}

#[test]
fn candidates_of_sample_corner() {
    // Row 0 holds 1, 8, 9; column 0 holds 8, 4, 2; the corner box holds
    // 1, 7, 8 — so 3, 5, 6 remain.
    let mut board = fresh_board();
    board.update_options(0, 0);
    assert_eq!(board.grid[0][0].options, vec![3, 5, 6]);
}

#[test]
fn candidate_soundness_concrete() {
    let mut board = fresh_board();
    board.update_options(0, 0);
    let options = board.grid[0][0].options.clone();
    for &d in &options {
        for i in 0..9 {
            assert_ne!(board.grid[0][i].value, Some(d));
            assert_ne!(board.grid[i][0].value, Some(d));
        }
        for i in 0..3 {
            for j in 0..3 {
                assert_ne!(board.grid[i][j].value, Some(d));
            }
        }
    }
}

#[test]
fn candidate_completeness_concrete() {
    let mut board = fresh_board();
    board.update_options(0, 0);
    let options = board.grid[0][0].options.clone();
    for d in 1..=9u32 {
        if !options.contains(&d) {
            let in_row = (0..9).any(|i| board.grid[0][i].value == Some(d));
            let in_col = (0..9).any(|i| board.grid[i][0].value == Some(d));
            let in_box =
                (0..3).any(|i| (0..3).any(|j| board.grid[i][j].value == Some(d)));
            assert!(in_row || in_col || in_box);
        }
    }
}

#[test]
fn option_lists_of_sample_corner() {
    let board = fresh_board();
    assert_eq!(board.row_options(0), vec![2, 3, 4, 5, 6, 7]);
    assert_eq!(board.col_options(0), vec![1, 3, 5, 6, 7, 9]);
    assert_eq!(board.box_options(0, 0), vec![2, 3, 4, 5, 6, 9]);
    let combined = Sudoku::combine_options(
        board.row_options(0),
        board.col_options(0),
        board.box_options(0, 0),
    );
    assert_eq!(combined, vec![3, 5, 6]);
}

#[test]
fn naked_single_is_assigned() {
    // Row 0 holds 1..8, so its last square has the lone candidate 9 and is
    // the first naked single the scan meets.
    let mut board = blank_board();
    for c in 0..8 {
        board.set_square(0, c, c as u32 + 1, false);
    }
    board.solve(true);
    assert_eq!(board.grid[0][8].value, Some(9));
}

#[test]
fn hidden_single_in_row_is_assigned() {
    // Candidate caches where digit 1 fits only in the first square of row
    // 0, although that square has another candidate too.
    let mut board = blank_board();
    board.grid[0][0].options = vec![1, 2];
    for c in 1..9 {
        board.grid[0][c].options = vec![2, 3];
    }
    for r in 1..9 {
        for c in 0..9 {
            board.grid[r][c].options = vec![2, 3];
        }
    }
    let found = board.update_only_options(0, 0);
    assert!(found);
    assert_eq!(board.grid[0][0].value, Some(1));
    assert!(!board.grid[0][0].given);
}

#[test]
fn no_hidden_single_means_no_change() {
    let mut board = blank_board();
    for r in 0..9 {
        for c in 0..9 {
            board.grid[r][c].options = vec![1, 2];
        }
    }
    let before = board.clone();
    let found = board.update_only_options(4, 4);
    assert!(!found);
    assert_eq!(board, before);
}

#[test]
fn hidden_single_in_box_is_assigned() {
    // Digit 5 fits nowhere else in the corner box, though row and column
    // peers outside the box still allow it.
    let mut board = blank_board();
    for r in 0..9 {
        for c in 0..9 {
            board.grid[r][c].options = if r < 3 && c < 3 { vec![6, 7] } else { vec![5, 6, 7] };
        }
    }
    board.grid[0][0].options = vec![5, 6, 7];
    let found = board.update_only_options(0, 0);
    assert!(found);
    assert_eq!(board.grid[0][0].value, Some(5));
}

#[test]
fn hidden_single_in_column_is_assigned() {
    // Digit 9 fits nowhere else in column 0, while rows and boxes still
    // allow it elsewhere.
    let mut board = blank_board();
    for r in 0..9 {
        for c in 0..9 {
            board.grid[r][c].options = if c == 0 { vec![7, 8] } else { vec![7, 8, 9] };
        }
    }
    board.grid[4][0].options = vec![7, 8, 9];
    let found = board.update_only_options(4, 0);
    assert!(found);
    assert_eq!(board.grid[4][0].value, Some(9));
}

#[test]
fn first_listed_hidden_single_wins() {
    // Both cached digits of the target are hidden singles in its row; the
    // one listed first is assigned.
    let mut board = blank_board();
    board.grid[0][0].options = vec![2, 5];
    for c in 1..9 {
        board.grid[0][c].options = vec![3, 4];
    }
    for r in 1..9 {
        for c in 0..9 {
            board.grid[r][c].options = vec![2, 3, 4, 5];
        }
    }
    let found = board.update_only_options(0, 0);
    assert!(found);
    assert_eq!(board.grid[0][0].value, Some(2));
}

#[test]
fn solver_never_grows_the_unfilled_count() {
    let mut board = fresh_board();
    let before = empty_count(&board);
    board.solve(true);
    let after_step = empty_count(&board);
    assert!(after_step <= before);
    board.solve(false);
    let after_full = empty_count(&board);
    assert!(after_full <= after_step);
}

#[test]
fn solve_full_fills_the_sample_puzzle() {
    let mut board = fresh_board();
    board.solve(false);
    assert_eq!(empty_count(&board), 0);
    assert!(board.solved);
    for r in 0..9 {
        for c in 0..9 {
            let v = board.grid[r][c].value.unwrap();
            assert!((1..=9).contains(&v));
        }
    }
}

#[test]
fn solve_step_on_a_solved_board_changes_nothing() {
    let mut board = fresh_board();
    board.solve(false);
    let values_before: Vec<Vec<Option<u32>>> =
        board.grid.iter().map(|row| row.iter().map(|s| s.value).collect()).collect();
    board.solve(true);
    let values_after: Vec<Vec<Option<u32>>> =
        board.grid.iter().map(|row| row.iter().map(|s| s.value).collect()).collect();
    assert_eq!(values_before, values_after);
}

#[test]
fn solve_on_a_blank_board_stalls_without_filling() {
    // Every square of an empty board keeps nine candidates, so neither
    // deduction applies and the solve loop stops at once.
    let mut board = blank_board();
    board.solve(false);
    assert!(!board.solved);
    assert_eq!(empty_count(&board), 81);
    board.solve(true);
    assert_eq!(empty_count(&board), 81);
}

#[test]
fn solver_marks_its_fills_as_not_given() {
    let mut board = fresh_board();
    board.solve(false);
    // (0, 0) was empty in the sample puzzle and got filled by deduction.
    assert!(!board.grid[0][0].given);
    // (0, 1) was a given of the puzzle and stays one.
    assert!(board.grid[0][1].given);
}
