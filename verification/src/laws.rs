//! The library's laws: properties of the solver that hold on every board,
//! stated over the same specifications its contracts use and proved once and
//! for all.

use vstd::prelude::*;

use crate::board::check_rel;
use crate::board::digit_ok;
use crate::board::lemma_solved_congruent;
use crate::board::Sudoku;
use crate::candidates::lemma_candidate_seq;
use crate::ops::clear_rel;
use crate::ops::lock_rel;
use crate::solver::hidden_rel;
use crate::solver::lemma_first_hidden_some;
use crate::solver::lemma_hidden_scan_some;
use crate::solver::lemma_naked_scan_some;
use crate::solver::naked_step_rel;

verus! {

/// Candidate soundness: no digit of a computed candidate list is assigned
/// anywhere in the square's row, column, or box.
pub proof fn lemma_candidate_soundness(s: Sudoku, r: int, c: int, d: u32)
    requires
        0 <= r < 9,
        0 <= c < 9,
        s.candidate_seq(r, c).contains(d),
    ensures
        !s.row_has(r, d),
        !s.col_has(c, d),
        !s.box_has(r, c, d),
        digit_ok(d),
{
    lemma_candidate_seq(s, r, c);
    let k = choose|k: int| 0 <= k < s.candidate_seq(r, c).len() && s.candidate_seq(r, c)[k] == d;
    assert(s.is_candidate(r, c, s.candidate_seq(r, c)[k]));
}

/// Candidate completeness: a digit 1-9 missing from a computed candidate
/// list is assigned somewhere in the square's row, column, or box.
pub proof fn lemma_candidate_completeness(s: Sudoku, r: int, c: int, d: u32)
    requires
        0 <= r < 9,
        0 <= c < 9,
        digit_ok(d),
        !s.candidate_seq(r, c).contains(d),
    ensures
        s.row_has(r, d) || s.col_has(c, d) || s.box_has(r, c, d),
{
    lemma_candidate_seq(s, r, c);
    if !s.row_has(r, d) && !s.col_has(c, d) && !s.box_has(r, c, d) {
        assert(s.is_candidate(r, c, d));
        assert(s.candidate_seq(r, c).contains(d));
    }
}

/// Naked-single correctness, for the square the pass reaches first: when
/// the row-major scan of fresh candidate lists finds its first one-member
/// list at `(r, c)`, one naked-single pass assigns exactly that digit
/// there.
pub proof fn lemma_naked_single_applied(s1: Sudoku, s2: Sudoku, progress: bool, r: int, c: int, d: u32)
    requires
        naked_step_rel(s1, s2, progress),
        s1.naked_scan_from(0, 0) == Some((r, c, d)),
    ensures
        progress,
        0 <= r < 9,
        0 <= c < 9,
        s1.value_at(r, c) is None,
        s1.candidate_seq(r, c) == seq![d],
        s2.value_at(r, c) == Some(d),
{
    lemma_naked_scan_some(s1, 0, 0, r, c, d);
    assert(s1.candidate_seq(r, c) =~= seq![d]);
}

/// Hidden-single correctness, for the square the pass reaches first: when
/// the row-major scan finds its first unfilled square with a cached hidden
/// single, the pass assigns that digit — a digit that fits nowhere else in
/// the square's row, column, or box — to that square.
pub proof fn lemma_hidden_single_applied(
    s1: Sudoku,
    s2: Sudoku,
    progress: bool,
    r: int,
    c: int,
    d: u32,
)
    requires
        hidden_rel(s1, s2, progress),
        s1.hidden_scan_from(0, 0) == Some((r, c, d)),
    ensures
        progress,
        0 <= r < 9,
        0 <= c < 9,
        s1.value_at(r, c) is None,
        s1.hidden_single(r, c, d),
        s1.square_at(r, c).options@.contains(d),
        digit_ok(d) ==> s2.value_at(r, c) == Some(d),
{
    lemma_hidden_scan_some(s1, 0, 0, r, c, d);
    lemma_first_hidden_some(s1, r, c, 0, d);
}

/// Idempotence of checking: the solved check never changes the grid, and a
/// second check straight after the first returns the same verdict and
/// leaves the whole board state as the first left it.
pub proof fn lemma_check_solved_idempotent(
    s1: Sudoku,
    s2: Sudoku,
    s3: Sudoku,
    b1: bool,
    b2: bool,
)
    requires
        check_rel(s1, s2, b1),
        check_rel(s2, s3, b2),
    ensures
        s2.grid == s1.grid,
        b2 == b1,
        s3.grid == s2.grid,
        s3.solved == s2.solved,
        s3.status@ == s2.status@,
{
    assert forall|i: int, j: int| 0 <= i < 9 && 0 <= j < 9 implies #[trigger] s1.value_at(i, j)
        == s2.value_at(i, j) by {
        assert(s1.grid == s2.grid);
    }
    if s1.board_solved() {
        lemma_solved_congruent(s1, s2);
    }
    if s2.board_solved() {
        lemma_solved_congruent(s2, s1);
    }
}

/// Given protection: freezing the board and then clearing it leaves every
/// square that was filled at the freeze untouched, value and protection
/// alike.
pub proof fn lemma_lock_then_clear(s1: Sudoku, s2: Sudoku, s3: Sudoku)
    requires
        lock_rel(s1, s2),
        clear_rel(s2, s3),
    ensures
        forall|i: int, j: int|
            0 <= i < 9 && 0 <= j < 9 && (#[trigger] s1.value_at(i, j)) is Some ==> s3.square_at(
                i,
                j,
            ) == s2.square_at(i, j) && s3.value_at(i, j) == s1.value_at(i, j) && s3.square_at(
                i,
                j,
            ).given == true,
{
    assert forall|i: int, j: int|
        0 <= i < 9 && 0 <= j < 9 && (#[trigger] s1.value_at(i, j)) is Some implies s3.square_at(
        i,
        j,
    ) == s2.square_at(i, j) && s3.value_at(i, j) == s1.value_at(i, j) && s3.square_at(
        i,
        j,
    ).given == true by {
        assert(crate::ops::locked_square(s1.square_at(i, j), s2.square_at(i, j)));
        assert(s2.square_at(i, j).given == true);
        assert(crate::ops::cleared_square(s2.square_at(i, j), s3.square_at(i, j)));
    }
}

} // verus!
