//! The board model: squares, the 9x9 grid, and the specifications that the
//! solver's contracts are stated over.

use vstd::prelude::*;

verus! {

/// One puzzle position: an optional digit 1-9, the cached list of candidate
/// digits (meaningful only while the value is absent), and whether the value
/// was part of the original puzzle.
#[derive(Debug, Clone, PartialEq)]
pub struct SudokuSquare {
    pub value: Option<u32>,
    pub options: Vec<u32>,
    pub given: bool,
}

/// The whole puzzle: a 9x9 grid of squares, addressed `grid[row][col]`, plus
/// the solved flag and a status line for the presentation layer.
#[derive(Debug, Clone, PartialEq)]
pub struct Sudoku {
    pub grid: Vec<Vec<SudokuSquare>>,
    pub solved: bool,
    pub status: String,
}

/// A digit that may stand in a square.
pub open spec fn digit_ok(d: u32) -> bool {
    1 <= d <= 9
}

/// The first row (or column) of the 3x3 box that row (or column) `i` lies in.
pub open spec fn box_start(i: int) -> int {
    i - i % 3
}

impl Sudoku {
    /// The square at `(r, c)`.
    pub open spec fn square_at(self, r: int, c: int) -> SudokuSquare {
        self.grid@[r]@[c]
    }

    /// The assigned value at `(r, c)`.
    pub open spec fn value_at(self, r: int, c: int) -> Option<u32> {
        self.square_at(r, c).value
    }

    /// The grid is 9x9 and every assigned value is a digit 1-9.
    pub open spec fn grid_wf(self) -> bool {
        &&& self.grid@.len() == 9
        &&& forall|r: int| 0 <= r < 9 ==> (#[trigger] self.grid@[r])@.len() == 9
        &&& forall|r: int, c: int|
            0 <= r < 9 && 0 <= c < 9 && (#[trigger] self.value_at(r, c)) is Some
                ==> digit_ok(self.value_at(r, c)->0)
    }

    /// Digit `d` is assigned somewhere in row `r`.
    pub open spec fn row_has(self, r: int, d: u32) -> bool {
        exists|i: int| 0 <= i < 9 && self.value_at(r, i) == Some(d)
    }

    /// Digit `d` is assigned somewhere in column `c`.
    pub open spec fn col_has(self, c: int, d: u32) -> bool {
        exists|i: int| 0 <= i < 9 && self.value_at(i, c) == Some(d)
    }

    /// Digit `d` is assigned somewhere in the 3x3 box containing `(r, c)`.
    pub open spec fn box_has(self, r: int, c: int, d: u32) -> bool {
        exists|i: int, j: int|
            box_start(r) <= i < box_start(r) + 3 && box_start(c) <= j < box_start(c) + 3
                && self.value_at(i, j) == Some(d)
    }

    /// Digit `d` is not excluded for `(r, c)` by any assigned peer in the
    /// square's row, column, or box.
    pub open spec fn is_candidate(self, r: int, c: int, d: u32) -> bool {
        &&& digit_ok(d)
        &&& !self.row_has(r, d)
        &&& !self.col_has(c, d)
        &&& !self.box_has(r, c, d)
    }
}

/// Builds a square holding `value` as an original, protected puzzle entry;
/// any argument outside 1-9 gives an unfilled, unprotected square.
pub fn sqr(value: u32) -> (s: SudokuSquare)
    ensures
        s.value == (if digit_ok(value) {
            Some(value)
        } else {
            None::<u32>
        }),
        s.given == digit_ok(value),
        s.options@.len() == 0,
{
    if value >= 1 && value <= 9 {
        SudokuSquare { value: Some(value), options: Vec::new(), given: true }
    } else {
        SudokuSquare { value: None, options: Vec::new(), given: false }
    }
}

impl Sudoku {
    /// Assigns `val` to `(r, c)` if it is a digit 1-9, replacing the square's
    /// candidate cache and `given` flag and clearing the solved state; any
    /// other `val` leaves the board untouched.
    pub fn set_square(&mut self, r: usize, c: usize, val: u32, given: bool)
        requires
            old(self).grid_wf(),
            r < 9,
            c < 9,
        ensures
            final(self).grid_wf(),
            digit_ok(val) ==> set_square_rel(*old(self), *final(self), r as int, c as int, val, given),
            !digit_ok(val) ==> *final(self) == *old(self),
    {
        if val >= 1 && val <= 9 {
            let square = SudokuSquare { value: Some(val), options: Vec::new(), given: given };
            self.grid[r][c] = square;
            self.solved = false;
            self.status = String::new();
            proof {
                assert(self.square_at(r as int, c as int) == square);
                assert forall|i: int, j: int|
                    0 <= i < 9 && 0 <= j < 9 && !(i == r as int && j == c as int)
                    implies #[trigger] self.square_at(i, j) == old(self).square_at(i, j) by {
                    if i != r as int {
                        assert(self.grid@[i] == old(self).grid@[i]);
                    }
                }
                assert forall|i: int, j: int| 0 <= i < 9 && 0 <= j < 9
                    implies #[trigger] self.value_at(i, j) == (if i == r as int && j == c as int {
                        Some(val)
                    } else {
                        old(self).value_at(i, j)
                    }) by {
                    if !(i == r as int && j == c as int) {
                        assert(self.square_at(i, j) == old(self).square_at(i, j));
                    }
                }
            }
        }
    }
}

/// `post` is `pre` with the square at `(r, c)` replaced by an assignment of
/// digit `d` (empty candidate cache, the stated `given` flag), the solved
/// flag cleared, and the status line emptied.
pub open spec fn set_square_rel(
    pre: Sudoku,
    post: Sudoku,
    r: int,
    c: int,
    d: u32,
    given: bool,
) -> bool {
    &&& post.grid@.len() == pre.grid@.len()
    &&& forall|i: int| 0 <= i < pre.grid@.len() ==> (#[trigger] post.grid@[i])@.len() == pre.grid@[i]@.len()
    &&& post.square_at(r, c).value == Some(d)
    &&& post.square_at(r, c).options@.len() == 0
    &&& post.square_at(r, c).given == given
    &&& forall|i: int, j: int|
        0 <= i < 9 && 0 <= j < 9 && !(i == r && j == c)
            ==> #[trigger] post.square_at(i, j) == pre.square_at(i, j)
    &&& post.solved == false
    &&& post.status@ == Seq::<char>::empty()
}

impl Sudoku {
    /// How many squares of row `r` at columns `c..9` are unfilled.
    pub open spec fn row_empties_from(self, r: int, c: int) -> nat
        decreases 9 - c,
    {
        if c < 0 || c >= 9 {
            0
        } else {
            (if self.value_at(r, c) is None {
                1nat
            } else {
                0nat
            }) + self.row_empties_from(r, c + 1)
        }
    }

    /// How many squares of rows `r..9` are unfilled.
    pub open spec fn empties_from(self, r: int) -> nat
        decreases 9 - r,
    {
        if r < 0 || r >= 9 {
            0
        } else {
            self.row_empties_from(r, 0) + self.empties_from(r + 1)
        }
    }

    /// How many squares of the board are unfilled.
    pub open spec fn empty_count(self) -> nat {
        self.empties_from(0)
    }

    /// Every square filled in `self` holds the same value in `post`.
    pub open spec fn fills_preserved(self, post: Sudoku) -> bool {
        forall|r: int, c: int|
            0 <= r < 9 && 0 <= c < 9 && (#[trigger] self.value_at(r, c)) is Some
                ==> post.value_at(r, c) == self.value_at(r, c)
    }

    /// No row, column, or box holds the same assigned digit twice.
    pub open spec fn board_valid(self) -> bool {
        &&& forall|r: int, c1: int, c2: int|
            0 <= r < 9 && 0 <= c1 < c2 < 9 && (#[trigger] self.value_at(r, c1)) is Some
                ==> self.value_at(r, c1) != #[trigger] self.value_at(r, c2)
        &&& forall|c: int, r1: int, r2: int|
            0 <= c < 9 && 0 <= r1 < r2 < 9 && (#[trigger] self.value_at(r1, c)) is Some
                ==> self.value_at(r1, c) != #[trigger] self.value_at(r2, c)
        &&& forall|r1: int, c1: int, r2: int, c2: int|
            0 <= r1 < 9 && 0 <= c1 < 9 && 0 <= r2 < 9 && 0 <= c2 < 9 && !(r1 == r2 && c1 == c2)
                && box_start(r1) == box_start(r2) && box_start(c1) == box_start(c2)
                && (#[trigger] self.value_at(r1, c1)) is Some
                ==> self.value_at(r1, c1) != #[trigger] self.value_at(r2, c2)
    }

    /// Every digit 1-9 is assigned somewhere in row `r`.
    pub open spec fn row_solved(self, r: int) -> bool {
        forall|d: u32| digit_ok(d) ==> self.row_has(r, d)
    }

    /// Every digit 1-9 is assigned somewhere in column `c`.
    pub open spec fn col_solved(self, c: int) -> bool {
        forall|d: u32| digit_ok(d) ==> self.col_has(c, d)
    }

    /// Every digit 1-9 is assigned somewhere in box `b` (boxes numbered 0-8,
    /// row-major).
    pub open spec fn box_solved(self, b: int) -> bool {
        forall|d: u32| digit_ok(d) ==> self.box_has((b / 3) * 3, (b % 3) * 3, d)
    }

    /// Every row, column, and box holds each digit 1-9.
    pub open spec fn board_solved(self) -> bool {
        forall|g: int|
            0 <= g < 9
                ==> (#[trigger] self.row_solved(g)) && self.col_solved(g) && self.box_solved(g)
    }
}

/// Unfilled squares never become more numerous: counting is monotone under
/// preservation of filled squares, row by row.
proof fn lemma_row_empties_monotone(pre: Sudoku, post: Sudoku, r: int, c: int)
    requires
        pre.fills_preserved(post),
        0 <= r < 9,
    ensures
        post.row_empties_from(r, c) <= pre.row_empties_from(r, c),
    decreases 9 - c,
{
    if 0 <= c < 9 {
        lemma_row_empties_monotone(pre, post, r, c + 1);
    }
}

proof fn lemma_empties_from_monotone(pre: Sudoku, post: Sudoku, r: int)
    requires
        pre.fills_preserved(post),
    ensures
        post.empties_from(r) <= pre.empties_from(r),
    decreases 9 - r,
{
    if 0 <= r < 9 {
        lemma_row_empties_monotone(pre, post, r, 0);
        lemma_empties_from_monotone(pre, post, r + 1);
    }
}

/// If every filled square keeps its value, the count of unfilled squares
/// cannot grow.
pub proof fn lemma_empty_count_monotone(pre: Sudoku, post: Sudoku)
    requires
        pre.fills_preserved(post),
    ensures
        post.empty_count() <= pre.empty_count(),
{
    lemma_empties_from_monotone(pre, post, 0);
}

proof fn lemma_row_empties_strict(pre: Sudoku, post: Sudoku, r: int, c: int, c0: int)
    requires
        pre.fills_preserved(post),
        0 <= r < 9,
        0 <= c <= c0 < 9,
        pre.value_at(r, c0) is None,
        post.value_at(r, c0) is Some,
    ensures
        post.row_empties_from(r, c) < pre.row_empties_from(r, c),
    decreases 9 - c,
{
    if c < c0 {
        lemma_row_empties_strict(pre, post, r, c + 1, c0);
    } else {
        lemma_row_empties_monotone(pre, post, r, c + 1);
    }
}

proof fn lemma_empties_from_strict(pre: Sudoku, post: Sudoku, r: int, r0: int, c0: int)
    requires
        pre.fills_preserved(post),
        r <= r0 < 9,
        0 <= r,
        0 <= c0 < 9,
        pre.value_at(r0, c0) is None,
        post.value_at(r0, c0) is Some,
    ensures
        post.empties_from(r) < pre.empties_from(r),
    decreases 9 - r,
{
    if r < r0 {
        lemma_row_empties_monotone(pre, post, r, 0);
        lemma_empties_from_strict(pre, post, r + 1, r0, c0);
    } else {
        lemma_row_empties_strict(pre, post, r, 0, c0);
        lemma_empties_from_monotone(pre, post, r + 1);
    }
}

/// Filling at least one previously unfilled square strictly shrinks the
/// count of unfilled squares.
pub proof fn lemma_empty_count_strict(pre: Sudoku, post: Sudoku, r0: int, c0: int)
    requires
        pre.fills_preserved(post),
        0 <= r0 < 9,
        0 <= c0 < 9,
        pre.value_at(r0, c0) is None,
        post.value_at(r0, c0) is Some,
    ensures
        post.empty_count() < pre.empty_count(),
{
    lemma_empties_from_strict(pre, post, 0, r0, c0);
}

/// Boards assigning the same values everywhere agree on validity.
pub proof fn lemma_valid_congruent(s1: Sudoku, s2: Sudoku)
    requires
        forall|i: int, j: int|
            0 <= i < 9 && 0 <= j < 9 ==> #[trigger] s1.value_at(i, j) == s2.value_at(i, j),
        s1.board_valid(),
    ensures
        s2.board_valid(),
{
    assert forall|r: int, c1: int, c2: int|
        0 <= r < 9 && 0 <= c1 < c2 < 9 && (#[trigger] s2.value_at(r, c1)) is Some
        implies s2.value_at(r, c1) != #[trigger] s2.value_at(r, c2) by {
        assert(s1.value_at(r, c1) == s2.value_at(r, c1));
        assert(s1.value_at(r, c2) == s2.value_at(r, c2));
    }
    assert forall|c: int, r1: int, r2: int|
        0 <= c < 9 && 0 <= r1 < r2 < 9 && (#[trigger] s2.value_at(r1, c)) is Some
        implies s2.value_at(r1, c) != #[trigger] s2.value_at(r2, c) by {
        assert(s1.value_at(r1, c) == s2.value_at(r1, c));
        assert(s1.value_at(r2, c) == s2.value_at(r2, c));
    }
    assert forall|r1: int, c1: int, r2: int, c2: int|
        0 <= r1 < 9 && 0 <= c1 < 9 && 0 <= r2 < 9 && 0 <= c2 < 9 && !(r1 == r2 && c1 == c2)
            && box_start(r1) == box_start(r2) && box_start(c1) == box_start(c2) && (
        #[trigger] s2.value_at(r1, c1)) is Some implies s2.value_at(r1, c1)
        != #[trigger] s2.value_at(r2, c2) by {
        assert(s1.value_at(r1, c1) == s2.value_at(r1, c1));
        assert(s1.value_at(r2, c2) == s2.value_at(r2, c2));
    }
}

/// A board assigning the same values as a solved board is solved too.
pub proof fn lemma_solved_congruent(s1: Sudoku, s2: Sudoku)
    requires
        forall|i: int, j: int|
            0 <= i < 9 && 0 <= j < 9 ==> #[trigger] s1.value_at(i, j) == s2.value_at(i, j),
        s1.board_solved(),
    ensures
        s2.board_solved(),
{
    assert forall|g: int| 0 <= g < 9 implies (#[trigger] s2.row_solved(g)) && s2.col_solved(g)
        && s2.box_solved(g) by {
        assert forall|d: u32| digit_ok(d) implies s2.row_has(g, d) && s2.col_has(g, d)
            && s2.box_has((g / 3) * 3, (g % 3) * 3, d) by {
            assert(s1.row_solved(g));
            assert(s1.col_solved(g));
            assert(s1.box_solved(g));
            assert(s1.row_has(g, d));
            assert(s1.col_has(g, d));
            assert(s1.box_has((g / 3) * 3, (g % 3) * 3, d));
            let i1 = choose|i: int| 0 <= i < 9 && s1.value_at(g, i) == Some(d);
            assert(s2.value_at(g, i1) == Some(d));
            let i2 = choose|i: int| 0 <= i < 9 && s1.value_at(i, g) == Some(d);
            assert(s2.value_at(i2, g) == Some(d));
            let r0 = (g / 3) * 3;
            let c0 = (g % 3) * 3;
            let (i3, j3) = choose|i: int, j: int|
                box_start(r0) <= i < box_start(r0) + 3 && box_start(c0) <= j < box_start(c0) + 3
                    && s1.value_at(i, j) == Some(d);
            assert(0 <= i3 < 9 && 0 <= j3 < 9);
            assert(s2.value_at(i3, j3) == Some(d));
        }
    }
}

/// Assigning a digit that no row, column, or box peer holds keeps the board
/// free of duplicates.
pub proof fn lemma_fill_preserves_valid(pre: Sudoku, post: Sudoku, r: int, c: int, d: u32)
    requires
        pre.board_valid(),
        0 <= r < 9,
        0 <= c < 9,
        pre.value_at(r, c) is None,
        pre.is_candidate(r, c, d),
        post.value_at(r, c) == Some(d),
        forall|i: int, j: int|
            0 <= i < 9 && 0 <= j < 9 && !(i == r && j == c)
                ==> #[trigger] post.value_at(i, j) == pre.value_at(i, j),
    ensures
        post.board_valid(),
{
    assert forall|i: int, j: int|
        0 <= i < 9 && 0 <= j < 9 && !(i == r && j == c) && (i == r || j == c || (box_start(i)
            == box_start(r) && box_start(j) == box_start(c)))
        implies #[trigger] post.value_at(i, j) != Some(d) by {
        if pre.value_at(i, j) == Some(d) {
            if i == r {
                assert(pre.row_has(r, d));
            } else if j == c {
                assert(pre.col_has(c, d));
            } else {
                assert(box_start(r) <= i < box_start(r) + 3);
                assert(box_start(c) <= j < box_start(c) + 3);
                assert(pre.box_has(r, c, d));
            }
        }
    }
    assert forall|rr: int, c1: int, c2: int|
        0 <= rr < 9 && 0 <= c1 < c2 < 9 && (#[trigger] post.value_at(rr, c1)) is Some
        implies post.value_at(rr, c1) != #[trigger] post.value_at(rr, c2) by {
        if !(rr == r && (c1 == c || c2 == c)) {
            assert(post.value_at(rr, c1) == pre.value_at(rr, c1));
            assert(post.value_at(rr, c2) == pre.value_at(rr, c2));
        }
    }
    assert forall|cc: int, r1: int, r2: int|
        0 <= cc < 9 && 0 <= r1 < r2 < 9 && (#[trigger] post.value_at(r1, cc)) is Some
        implies post.value_at(r1, cc) != #[trigger] post.value_at(r2, cc) by {
        if !(cc == c && (r1 == r || r2 == r)) {
            assert(post.value_at(r1, cc) == pre.value_at(r1, cc));
            assert(post.value_at(r2, cc) == pre.value_at(r2, cc));
        }
    }
    assert forall|r1: int, c1: int, r2: int, c2: int|
        0 <= r1 < 9 && 0 <= c1 < 9 && 0 <= r2 < 9 && 0 <= c2 < 9 && !(r1 == r2 && c1 == c2)
            && box_start(r1) == box_start(r2) && box_start(c1) == box_start(c2)
            && (#[trigger] post.value_at(r1, c1)) is Some
        implies post.value_at(r1, c1) != #[trigger] post.value_at(r2, c2) by {
        if !((r1 == r && c1 == c) || (r2 == r && c2 == c)) {
            assert(post.value_at(r1, c1) == pre.value_at(r1, c1));
            assert(post.value_at(r2, c2) == pre.value_at(r2, c2));
        }
    }
}

impl Sudoku {
    /// Whether every digit 1-9 is assigned somewhere in row `r`.
    pub fn is_row_solved(&self, r: usize) -> (b: bool)
        requires
            self.grid_wf(),
            r < 9,
        ensures
            b == self.row_solved(r as int),
    {
        let mut d: u32 = 1;
        while d <= 9
            invariant
                self.grid_wf(),
                r < 9,
                1 <= d <= 10,
                forall|e: u32| 1 <= e < d ==> self.row_has(r as int, e),
            decreases 10 - d,
        {
            if !self.row_value_present(r, d) {
                assert(digit_ok(d) && !self.row_has(r as int, d));
                return false;
            }
            d += 1;
        }
        true
    }

    /// Whether every digit 1-9 is assigned somewhere in column `c`.
    pub fn is_col_solved(&self, c: usize) -> (b: bool)
        requires
            self.grid_wf(),
            c < 9,
        ensures
            b == self.col_solved(c as int),
    {
        let mut d: u32 = 1;
        while d <= 9
            invariant
                self.grid_wf(),
                c < 9,
                1 <= d <= 10,
                forall|e: u32| 1 <= e < d ==> self.col_has(c as int, e),
            decreases 10 - d,
        {
            if !self.col_value_present(c, d) {
                assert(digit_ok(d) && !self.col_has(c as int, d));
                return false;
            }
            d += 1;
        }
        true
    }

    /// Whether every digit 1-9 is assigned somewhere in box `b` (numbered
    /// 0-8, row-major over the nine 3x3 boxes).
    pub fn is_box_solved(&self, b: usize) -> (sb: bool)
        requires
            self.grid_wf(),
            b < 9,
        ensures
            sb == self.box_solved(b as int),
    {
        let r0 = (b / 3) * 3;
        let c0 = (b % 3) * 3;
        assert(r0 as int == (b as int / 3) * 3 && c0 as int == (b as int % 3) * 3);
        let mut d: u32 = 1;
        while d <= 9
            invariant
                self.grid_wf(),
                b < 9,
                r0 < 9,
                c0 < 9,
                r0 as int == (b as int / 3) * 3,
                c0 as int == (b as int % 3) * 3,
                1 <= d <= 10,
                forall|e: u32| 1 <= e < d ==> self.box_has(r0 as int, c0 as int, e),
            decreases 10 - d,
        {
            if !self.box_value_present(r0, c0, d) {
                assert(digit_ok(d) && !self.box_has(r0 as int, c0 as int, d));
                return false;
            }
            d += 1;
        }
        true
    }

    /// Decides whether the board is completely and correctly solved: every
    /// row, column, and box holds each digit 1-9.  Never changes the grid;
    /// records the verdict in the solved flag, and clears the status line on
    /// success.
    pub fn check_solved(&mut self) -> (solved: bool)
        requires
            old(self).grid_wf(),
        ensures
            final(self).grid_wf(),
            check_rel(*old(self), *final(self), solved),
    {
        let mut g: usize = 0;
        while g < 9
            invariant
                *self == *old(self),
                old(self).grid_wf(),
                g <= 9,
                forall|i: int| 0 <= i < g ==> #[trigger] self.row_solved(i),
                forall|i: int| 0 <= i < g ==> #[trigger] self.col_solved(i),
                forall|i: int| 0 <= i < g ==> #[trigger] self.box_solved(i),
            decreases 9 - g,
        {
            if !self.is_row_solved(g) {
                self.solved = false;
                proof {
                    lemma_same_grid_wf(*old(self), *self);
                }
                return false;
            }
            if !self.is_col_solved(g) {
                self.solved = false;
                proof {
                    lemma_same_grid_wf(*old(self), *self);
                }
                return false;
            }
            if !self.is_box_solved(g) {
                self.solved = false;
                proof {
                    lemma_same_grid_wf(*old(self), *self);
                }
                return false;
            }
            assert(self.row_solved(g as int));
            assert(self.col_solved(g as int));
            assert(self.box_solved(g as int));
            g += 1;
        }
        self.solved = true;
        self.status = String::new();
        proof {
            lemma_same_grid_wf(*old(self), *self);
            assert(old(self).board_solved());
        }
        true
    }
}

/// A board sharing a well-formed board's grid is well-formed, whatever its
/// other fields hold.
pub proof fn lemma_same_grid_wf(pre: Sudoku, post: Sudoku)
    requires
        pre.grid_wf(),
        post.grid == pre.grid,
    ensures
        post.grid_wf(),
{
    assert forall|r: int, c: int|
        0 <= r < 9 && 0 <= c < 9 && (#[trigger] post.value_at(r, c)) is Some implies digit_ok(
        post.value_at(r, c)->0,
    ) by {
        assert(post.value_at(r, c) == pre.value_at(r, c));
    }
}

/// `post` is `pre` with an untouched grid, the solved flag set to the
/// verdict (whether every row, column, and box of `pre` holds each digit
/// 1-9), and the status line cleared exactly on a positive verdict.
pub open spec fn check_rel(pre: Sudoku, post: Sudoku, solved: bool) -> bool {
    &&& solved == pre.board_solved()
    &&& post.grid == pre.grid
    &&& post.solved == solved
    &&& post.status@ == (if solved {
        Seq::<char>::empty()
    } else {
        pre.status@
    })
}

/// The square `s` is what `sqr(d)` builds: a protected entry for a digit
/// 1-9, an untouched square otherwise, with no cached candidates.
pub open spec fn sq_built(s: SudokuSquare, d: u32) -> bool {
    &&& s.value == (if digit_ok(d) {
        Some(d)
    } else {
        None::<u32>
    })
    &&& s.given == digit_ok(d)
    &&& s.options@.len() == 0
}

/// The digits of the bundled sample puzzle, 0 standing for an empty square.
pub open spec fn med_digits() -> Seq<Seq<u32>> {
    seq![
        seq![0u32, 1, 0, 0, 0, 8, 0, 9, 0],
        seq![0u32, 0, 0, 0, 0, 1, 0, 8, 7],
        seq![0u32, 7, 8, 0, 0, 0, 1, 0, 0],
        seq![8u32, 0, 7, 0, 1, 0, 3, 0, 2],
        seq![0u32, 0, 0, 8, 2, 4, 0, 0, 0],
        seq![4u32, 0, 9, 0, 6, 0, 5, 0, 8],
        seq![0u32, 0, 4, 0, 0, 0, 6, 5, 0],
        seq![2u32, 8, 0, 3, 0, 0, 0, 0, 0],
        seq![0u32, 5, 0, 1, 0, 0, 0, 2, 0],
    ]
}

/// A 9x9 grid whose squares are exactly the `sqr`-built squares of the
/// sample puzzle's digits.
pub open spec fn med_grid_built(grid: Seq<Vec<SudokuSquare>>) -> bool {
    &&& grid.len() == 9
    &&& forall|r: int| 0 <= r < 9 ==> (#[trigger] grid[r])@.len() == 9
    &&& forall|r: int, c: int|
        0 <= r < 9 && 0 <= c < 9 ==> sq_built(#[trigger] grid[r]@[c], med_digits()[r][c])
}

/// One row of nine `sqr`-built squares from the nine digits given.
fn sqr_row(
    d0: u32,
    d1: u32,
    d2: u32,
    d3: u32,
    d4: u32,
    d5: u32,
    d6: u32,
    d7: u32,
    d8: u32,
) -> (row: Vec<SudokuSquare>)
    ensures
        row@.len() == 9,
        forall|k: int|
            0 <= k < 9 ==> sq_built(
                #[trigger] row@[k],
                seq![d0, d1, d2, d3, d4, d5, d6, d7, d8][k],
            ),
{
    let mut row: Vec<SudokuSquare> = Vec::new();
    row.push(sqr(d0));
    row.push(sqr(d1));
    row.push(sqr(d2));
    row.push(sqr(d3));
    row.push(sqr(d4));
    row.push(sqr(d5));
    row.push(sqr(d6));
    row.push(sqr(d7));
    row.push(sqr(d8));
    assert forall|k: int| 0 <= k < 9 implies sq_built(
        row@[k],
        seq![d0, d1, d2, d3, d4, d5, d6, d7, d8][k],
    ) by {
        if k == 0 {
        } else if k == 1 {
        } else if k == 2 {
        } else if k == 3 {
        } else if k == 4 {
        } else if k == 5 {
        } else if k == 6 {
        } else if k == 7 {
        } else {
            assert(k == 8);
        }
    }
    row
}

/// Builds the bundled sample puzzle: a medium-difficulty grid whose filled
/// squares are protected entries.
pub fn med_board_1() -> (grid: Vec<Vec<SudokuSquare>>)
    ensures
        med_grid_built(grid@),
{
    let mut grid: Vec<Vec<SudokuSquare>> = Vec::new();
    grid.push(sqr_row(0, 1, 0, 0, 0, 8, 0, 9, 0));
    grid.push(sqr_row(0, 0, 0, 0, 0, 1, 0, 8, 7));
    grid.push(sqr_row(0, 7, 8, 0, 0, 0, 1, 0, 0));
    grid.push(sqr_row(8, 0, 7, 0, 1, 0, 3, 0, 2));
    grid.push(sqr_row(0, 0, 0, 8, 2, 4, 0, 0, 0));
    grid.push(sqr_row(4, 0, 9, 0, 6, 0, 5, 0, 8));
    grid.push(sqr_row(0, 0, 4, 0, 0, 0, 6, 5, 0));
    grid.push(sqr_row(2, 8, 0, 3, 0, 0, 0, 0, 0));
    grid.push(sqr_row(0, 5, 0, 1, 0, 0, 0, 2, 0));
    assert forall|r: int, c: int| 0 <= r < 9 && 0 <= c < 9 implies sq_built(
        #[trigger] grid@[r]@[c],
        med_digits()[r][c],
    ) by {
        if r == 0 {
        } else if r == 1 {
        } else if r == 2 {
        } else if r == 3 {
        } else if r == 4 {
        } else if r == 5 {
        } else if r == 6 {
        } else if r == 7 {
        } else {
            assert(r == 8);
        }
    }
    grid
}

impl Default for Sudoku {
    /// The starting state: the bundled sample puzzle, not yet solved, with an
    /// empty status line.
    fn default() -> (s: Sudoku)
        ensures
            s.grid_wf(),
            med_grid_built(s.grid@),
            s.solved == false,
            s.status@ == Seq::<char>::empty(),
    {
        let s = Sudoku { grid: med_board_1(), solved: false, status: String::new() };
        assert(s.grid_wf()) by {
            assert forall|r: int, c: int|
                0 <= r < 9 && 0 <= c < 9 && (#[trigger] s.value_at(r, c)) is Some implies digit_ok(
                s.value_at(r, c)->0,
            ) by {
                assert(sq_built(s.grid@[r]@[c], med_digits()[r][c]));
            }
        }
        s
    }
}

} // verus!
