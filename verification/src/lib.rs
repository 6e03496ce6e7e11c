//! A constraint-propagation solver for 9x9 Sudoku puzzles.
//!
//! The board is a 9x9 grid of squares; each square holds an optional digit
//! 1-9, a cached list of candidate digits, and a `given` flag protecting the
//! original puzzle entries.  The solver fills squares by two deductions: a
//! square whose candidate set has exactly one member (naked single), and a
//! candidate digit that fits nowhere else in a row, column, or box (hidden
//! single).  A fixed-point loop alternates the two passes until neither makes
//! progress, then checks whether every row, column, and box holds each digit.

pub mod board;
pub mod candidates;
pub mod input;
pub mod laws;
pub mod ops;
pub mod solver;

pub use board::med_board_1;
pub use input::get_new_square_text;
pub use input::Message;
pub use board::sqr;
pub use board::Sudoku;
pub use board::SudokuSquare;
