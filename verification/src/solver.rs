//! The deduction passes and the solve loop: naked singles (a square whose
//! fresh candidate list has exactly one member), hidden singles (a candidate
//! digit that fits nowhere else in a row, column, or box, judged from the
//! cached candidate lists), and the fixed-point iteration that alternates
//! them and then checks the result.

use vstd::prelude::*;

use crate::board::box_start;
use crate::board::set_square_rel;
use crate::board::Sudoku;
use crate::candidates::lemma_candidates_congruent;

verus! {

impl Sudoku {
    /// No other square of row `r` holds digit `d` or lists it among its
    /// cached candidates.
    pub open spec fn unique_in_row(self, r: int, c: int, d: u32) -> bool {
        forall|j: int|
            0 <= j < 9 && j != c ==> ((#[trigger] self.square_at(r, j)).value != Some(d) && (
            self.square_at(r, j).value is None ==> !self.square_at(r, j).options@.contains(d)))
    }

    /// No other square of column `c` holds digit `d` or lists it among its
    /// cached candidates.
    pub open spec fn unique_in_col(self, r: int, c: int, d: u32) -> bool {
        forall|i: int|
            0 <= i < 9 && i != r ==> ((#[trigger] self.square_at(i, c)).value != Some(d) && (
            self.square_at(i, c).value is None ==> !self.square_at(i, c).options@.contains(d)))
    }

    /// No other square of the box of `(r, c)` holds digit `d` or lists it
    /// among its cached candidates.  Every other square of the box counts,
    /// including those sharing the target's row or column.
    pub open spec fn unique_in_box(self, r: int, c: int, d: u32) -> bool {
        forall|i: int, j: int|
            box_start(r) <= i < box_start(r) + 3 && box_start(c) <= j < box_start(c) + 3 && !(i == r
                && j == c) ==> ((#[trigger] self.square_at(i, j)).value != Some(d) && (
            self.square_at(i, j).value is None ==> !self.square_at(i, j).options@.contains(d)))
    }

    /// Digit `d` has nowhere else to go in the row, column, or box of
    /// `(r, c)`.
    pub open spec fn hidden_single(self, r: int, c: int, d: u32) -> bool {
        ||| self.unique_in_row(r, c, d)
        ||| self.unique_in_col(r, c, d)
        ||| self.unique_in_box(r, c, d)
    }

    /// The first digit at position `k` or later of `(r, c)`'s cached
    /// candidate list that is a hidden single there.
    pub open spec fn first_hidden_option_from(self, r: int, c: int, k: int) -> Option<u32>
        decreases self.square_at(r, c).options@.len() - k,
    {
        let opts = self.square_at(r, c).options@;
        if k < 0 || k >= opts.len() {
            None
        } else if self.hidden_single(r, c, opts[k]) {
            Some(opts[k])
        } else {
            self.first_hidden_option_from(r, c, k + 1)
        }
    }

    /// The first digit of `(r, c)`'s cached candidate list that is a hidden
    /// single there, if any.
    pub open spec fn first_hidden_option(self, r: int, c: int) -> Option<u32> {
        self.first_hidden_option_from(r, c, 0)
    }

    /// The first unfilled square, scanning row-major from `(r, c)`, holding a
    /// hidden single, together with the digit assigned there.
    pub open spec fn hidden_scan_from(self, r: int, c: int) -> Option<(int, int, u32)>
        decreases 9 - r, 9 - c,
    {
        if r < 0 || c < 0 || r >= 9 {
            None
        } else if c >= 9 {
            self.hidden_scan_from(r + 1, 0)
        } else if self.value_at(r, c) is None && self.first_hidden_option(r, c) is Some {
            Some((r, c, self.first_hidden_option(r, c)->0))
        } else {
            self.hidden_scan_from(r, c + 1)
        }
    }

    /// Every cached candidate of every unfilled square really is a candidate
    /// of the board's current assignments.
    pub open spec fn options_sound(self) -> bool {
        forall|i: int, j: int, k: int|
            0 <= i < 9 && 0 <= j < 9 && self.value_at(i, j) is None && 0 <= k < self.square_at(
                i,
                j,
            ).options@.len() ==> self.is_candidate(
                i,
                j,
                #[trigger] self.square_at(i, j).options@[k],
            )
    }

    /// Whether digit `d` is a hidden single for `(r, c)` within its row.
    fn digit_unique_in_row(&self, r: usize, c: usize, d: u32) -> (u: bool)
        requires
            self.grid_wf(),
            r < 9,
            c < 9,
        ensures
            u == self.unique_in_row(r as int, c as int, d),
    {
        let mut j: usize = 0;
        while j < 9
            invariant
                self.grid_wf(),
                r < 9,
                c < 9,
                j <= 9,
                forall|j0: int|
                    0 <= j0 < j && j0 != c ==> ((#[trigger] self.square_at(r as int, j0)).value
                        != Some(d) && (self.square_at(r as int, j0).value is None
                        ==> !self.square_at(r as int, j0).options@.contains(d))),
            decreases 9 - j,
        {
            if j != c {
                let square = &self.grid[r][j];
                match square.value {
                    Some(v) => {
                        if v == d {
                            assert(self.square_at(r as int, j as int).value == Some(d));
                            return false;
                        }
                    },
                    None => {
                        if crate::candidates::vec_contains(&square.options, d) {
                            assert(self.square_at(r as int, j as int).value is None
                                && self.square_at(r as int, j as int).options@.contains(d));
                            return false;
                        }
                    },
                }
            }
            j += 1;
        }
        true
    }

    /// Whether digit `d` is a hidden single for `(r, c)` within its column.
    fn digit_unique_in_col(&self, r: usize, c: usize, d: u32) -> (u: bool)
        requires
            self.grid_wf(),
            r < 9,
            c < 9,
        ensures
            u == self.unique_in_col(r as int, c as int, d),
    {
        let mut i: usize = 0;
        while i < 9
            invariant
                self.grid_wf(),
                r < 9,
                c < 9,
                i <= 9,
                forall|i0: int|
                    0 <= i0 < i && i0 != r ==> ((#[trigger] self.square_at(i0, c as int)).value
                        != Some(d) && (self.square_at(i0, c as int).value is None
                        ==> !self.square_at(i0, c as int).options@.contains(d))),
            decreases 9 - i,
        {
            if i != r {
                let square = &self.grid[i][c];
                match square.value {
                    Some(v) => {
                        if v == d {
                            assert(self.square_at(i as int, c as int).value == Some(d));
                            return false;
                        }
                    },
                    None => {
                        if crate::candidates::vec_contains(&square.options, d) {
                            assert(self.square_at(i as int, c as int).value is None
                                && self.square_at(i as int, c as int).options@.contains(d));
                            return false;
                        }
                    },
                }
            }
            i += 1;
        }
        true
    }

    /// Whether digit `d` is a hidden single for `(r, c)` within its box.
    /// Every other box square is compared, those sharing the target's row or
    /// column included.
    fn digit_unique_in_box(&self, r: usize, c: usize, d: u32) -> (u: bool)
        requires
            self.grid_wf(),
            r < 9,
            c < 9,
        ensures
            u == self.unique_in_box(r as int, c as int, d),
    {
        let r_start = r - r % 3;
        let c_start = c - c % 3;
        assert(r_start == box_start(r as int) && c_start == box_start(c as int));
        let mut i: usize = r_start;
        while i < r_start + 3
            invariant
                self.grid_wf(),
                r < 9,
                c < 9,
                r_start == box_start(r as int),
                c_start == box_start(c as int),
                r_start <= i <= r_start + 3,
                r_start + 3 <= 9,
                c_start + 3 <= 9,
                forall|i0: int, j0: int|
                    r_start <= i0 < i && c_start <= j0 < c_start + 3 && !(i0 == r as int && j0
                        == c as int) ==> ((#[trigger] self.square_at(i0, j0)).value != Some(d) && (
                    self.square_at(i0, j0).value is None ==> !self.square_at(
                        i0,
                        j0,
                    ).options@.contains(d))),
            decreases r_start + 3 - i,
        {
            let mut j: usize = c_start;
            while j < c_start + 3
                invariant
                    self.grid_wf(),
                    r < 9,
                    c < 9,
                    r_start == box_start(r as int),
                    c_start == box_start(c as int),
                    r_start <= i < r_start + 3,
                    r_start + 3 <= 9,
                    c_start <= j <= c_start + 3,
                    c_start + 3 <= 9,
                    forall|i0: int, j0: int|
                        r_start <= i0 < i && c_start <= j0 < c_start + 3 && !(i0 == r as int && j0
                            == c as int) ==> ((#[trigger] self.square_at(i0, j0)).value != Some(d)
                            && (self.square_at(i0, j0).value is None ==> !self.square_at(
                            i0,
                            j0,
                        ).options@.contains(d))),
                    forall|j0: int|
                        c_start <= j0 < j && !(i == r as int && j0 == c as int) ==> ((
                        #[trigger] self.square_at(i as int, j0)).value != Some(d) && (
                        self.square_at(i as int, j0).value is None ==> !self.square_at(
                            i as int,
                            j0,
                        ).options@.contains(d))),
                decreases c_start + 3 - j,
            {
                if !(i == r && j == c) {
                    let square = &self.grid[i][j];
                    match square.value {
                        Some(v) => {
                            if v == d {
                                assert(self.square_at(i as int, j as int).value == Some(d));
                                return false;
                            }
                        },
                        None => {
                            if crate::candidates::vec_contains(&square.options, d) {
                                assert(self.square_at(i as int, j as int).value is None
                                    && self.square_at(i as int, j as int).options@.contains(d));
                                return false;
                            }
                        },
                    }
                }
                j += 1;
            }
            i += 1;
        }
        true
    }

    /// Scans the cached candidates of the unfilled square `(r, c)` in list
    /// order; the first digit that is a hidden single in the square's row,
    /// column, or box (tested in that order) is assigned, and whether an
    /// assignment happened is returned.
    pub fn update_only_options(&mut self, r: usize, c: usize) -> (found: bool)
        requires
            old(self).grid_wf(),
            r < 9,
            c < 9,
            old(self).value_at(r as int, c as int) is None,
        ensures
            final(self).grid_wf(),
            only_option_rel(*old(self), *final(self), r as int, c as int, found),
    {
        let n = self.grid[r][c].options.len();
        let mut k: usize = 0;
        while k < n
            invariant
                *self == *old(self),
                self.grid_wf(),
                r < 9,
                c < 9,
                n == self.square_at(r as int, c as int).options@.len(),
                k <= n,
                self.first_hidden_option(r as int, c as int) == self.first_hidden_option_from(
                    r as int,
                    c as int,
                    k as int,
                ),
            decreases n - k,
        {
            let d = self.grid[r][c].options[k];
            assert(d == self.square_at(r as int, c as int).options@[k as int]);
            if self.digit_unique_in_row(r, c, d) || self.digit_unique_in_col(r, c, d)
                || self.digit_unique_in_box(r, c, d) {
                assert(self.hidden_single(r as int, c as int, d));
                assert(self.first_hidden_option_from(r as int, c as int, k as int) == Some(d));
                self.set_square(r, c, d, false);
                return true;
            }
            assert(!self.hidden_single(r as int, c as int, d));
            assert(self.first_hidden_option_from(r as int, c as int, k as int)
                == self.first_hidden_option_from(r as int, c as int, k as int + 1));
            k += 1;
        }
        false
    }
}

/// `post` is `pre` after one hidden-single scan of the cached candidates of
/// the unfilled square `(r, c)`: if some cached digit is a hidden single
/// there, the first such digit is assigned (solver-derived, not a given) and
/// `found` holds; otherwise nothing changes.
pub open spec fn only_option_rel(pre: Sudoku, post: Sudoku, r: int, c: int, found: bool) -> bool {
    match pre.first_hidden_option(r, c) {
        None => !found && post == pre,
        Some(d) => {
            &&& found
            &&& crate::board::digit_ok(d) ==> set_square_rel(pre, post, r, c, d, false)
            &&& !crate::board::digit_ok(d) ==> post == pre
        },
    }
}

impl Sudoku {
    /// The first unfilled square, scanning row-major from `(r, c)`, whose
    /// freshly computed candidate list has exactly one member, together with
    /// that digit.
    pub open spec fn naked_scan_from(self, r: int, c: int) -> Option<(int, int, u32)>
        decreases 9 - r, 9 - c,
    {
        if r < 0 || c < 0 || r >= 9 {
            None
        } else if c >= 9 {
            self.naked_scan_from(r + 1, 0)
        } else if self.value_at(r, c) is None && self.candidate_seq(r, c).len() == 1 {
            Some((r, c, self.candidate_seq(r, c)[0]))
        } else {
            self.naked_scan_from(r, c + 1)
        }
    }
}

/// `(i, j)` comes strictly before `(r, c)` in a row-major scan.
pub open spec fn lex_before(i: int, j: int, r: int, c: int) -> bool {
    i < r || (i == r && j < c)
}

/// A row-major naked-single scan finds nothing exactly when no unfilled
/// square at or after its start has a one-member candidate list.
pub proof fn lemma_naked_scan_none(s: Sudoku, r: int, c: int)
    requires
        0 <= r <= 9,
        0 <= c <= 9,
    ensures
        s.naked_scan_from(r, c) is None <==> forall|i: int, j: int|
            0 <= i < 9 && 0 <= j < 9 && (i > r || (i == r && j >= c)) && (
            #[trigger] s.value_at(i, j)) is None ==> s.candidate_seq(i, j).len() != 1,
    decreases 9 - r, 9 - c,
{
    if r >= 9 {
    } else if c >= 9 {
        lemma_naked_scan_none(s, r + 1, 0);
    } else {
        lemma_naked_scan_none(s, r, c + 1);
    }
}

/// A row-major hidden-single scan finds nothing exactly when no unfilled
/// square at or after its start has a hidden single among its cached
/// candidates.
pub proof fn lemma_hidden_scan_none(s: Sudoku, r: int, c: int)
    requires
        0 <= r <= 9,
        0 <= c <= 9,
    ensures
        s.hidden_scan_from(r, c) is None <==> forall|i: int, j: int|
            0 <= i < 9 && 0 <= j < 9 && (i > r || (i == r && j >= c)) && (
            #[trigger] s.value_at(i, j)) is None ==> s.first_hidden_option(i, j) is None,
    decreases 9 - r, 9 - c,
{
    if r >= 9 {
    } else if c >= 9 {
        lemma_hidden_scan_none(s, r + 1, 0);
    } else {
        lemma_hidden_scan_none(s, r, c + 1);
    }
}

/// A candidate list with no first hidden single holds no hidden single
/// anywhere.
pub proof fn lemma_first_hidden_none(s: Sudoku, r: int, c: int, k: int)
    requires
        0 <= k,
        s.first_hidden_option_from(r, c, k) is None,
    ensures
        forall|m: int|
            k <= m < s.square_at(r, c).options@.len() ==> !s.hidden_single(
                r,
                c,
                #[trigger] s.square_at(r, c).options@[m],
            ),
    decreases s.square_at(r, c).options@.len() - k,
{
    let opts = s.square_at(r, c).options@;
    if 0 <= k < opts.len() {
        lemma_first_hidden_none(s, r, c, k + 1);
    }
}

/// `post` is `pre` after one hidden-single pass: the scan stops at the first
/// unfilled square holding a hidden single among its cached candidates and
/// assigns that digit there; with no such square, nothing changes.
pub open spec fn hidden_rel(pre: Sudoku, post: Sudoku, progress: bool) -> bool {
    match pre.hidden_scan_from(0, 0) {
        None => !progress && post == pre,
        Some((r, c, d)) => {
            &&& progress
            &&& crate::board::digit_ok(d) ==> set_square_rel(pre, post, r, c, d, false)
            &&& !crate::board::digit_ok(d) ==> post == pre
        },
    }
}

/// `post` is `pre` after a naked-single scan that stopped at its first find:
/// the squares before `(r, c)` keep their values and `given` flags, unfilled
/// ones among them get fresh candidate caches, `(r, c)` itself is assigned
/// `d`, and everything after is untouched.
pub open spec fn naked_found_rel(pre: Sudoku, post: Sudoku, r: int, c: int, d: u32) -> bool {
    &&& post.grid@.len() == pre.grid@.len()
    &&& forall|i: int|
        0 <= i < pre.grid@.len() ==> (#[trigger] post.grid@[i])@.len() == pre.grid@[i]@.len()
    &&& post.square_at(r, c).value == Some(d)
    &&& post.square_at(r, c).options@.len() == 0
    &&& post.square_at(r, c).given == false
    &&& forall|i: int, j: int|
        0 <= i < 9 && 0 <= j < 9 && !(i == r && j == c) ==> if lex_before(i, j, r, c)
            && pre.value_at(i, j) is None {
            (#[trigger] post.square_at(i, j)).value is None && post.square_at(i, j).given
                == pre.square_at(i, j).given && post.square_at(i, j).options@ == pre.candidate_seq(
                i,
                j,
            )
        } else {
            post.square_at(i, j) == pre.square_at(i, j)
        }
    &&& post.solved == false
    &&& post.status@ == Seq::<char>::empty()
}

/// `post` is `pre` after one single-step naked-single scan: unfilled squares
/// are visited row-major and their caches recomputed; the first whose fresh
/// candidate list has exactly one member is assigned that digit and the scan
/// stops; with no such square every cache is refreshed and nothing is
/// assigned.
pub open spec fn naked_step_rel(pre: Sudoku, post: Sudoku, progress: bool) -> bool {
    match pre.naked_scan_from(0, 0) {
        None => !progress && crate::ops::refresh_all_rel(pre, post),
        Some((r, c, d)) => progress && naked_found_rel(pre, post, r, c, d),
    }
}

/// Boards with the same squares everywhere agree on every hidden-single
/// judgement.
pub proof fn lemma_hidden_single_congruent(s1: Sudoku, s2: Sudoku, r: int, c: int, d: u32)
    requires
        forall|i: int, j: int|
            0 <= i < 9 && 0 <= j < 9 ==> #[trigger] s1.square_at(i, j) == s2.square_at(i, j),
        0 <= r < 9,
        0 <= c < 9,
    ensures
        s1.hidden_single(r, c, d) == s2.hidden_single(r, c, d),
{
    assert(s1.unique_in_row(r, c, d) == s2.unique_in_row(r, c, d)) by {
        if s1.unique_in_row(r, c, d) {
            assert forall|j: int| 0 <= j < 9 && j != c implies ((#[trigger] s2.square_at(
                r,
                j,
            )).value != Some(d) && (s2.square_at(r, j).value is None ==> !s2.square_at(
                r,
                j,
            ).options@.contains(d))) by {
                assert(s2.square_at(r, j) == s1.square_at(r, j));
            }
        }
        if s2.unique_in_row(r, c, d) {
            assert forall|j: int| 0 <= j < 9 && j != c implies ((#[trigger] s1.square_at(
                r,
                j,
            )).value != Some(d) && (s1.square_at(r, j).value is None ==> !s1.square_at(
                r,
                j,
            ).options@.contains(d))) by {
                assert(s1.square_at(r, j) == s2.square_at(r, j));
            }
        }
    }
    assert(s1.unique_in_col(r, c, d) == s2.unique_in_col(r, c, d)) by {
        if s1.unique_in_col(r, c, d) {
            assert forall|i: int| 0 <= i < 9 && i != r implies ((#[trigger] s2.square_at(
                i,
                c,
            )).value != Some(d) && (s2.square_at(i, c).value is None ==> !s2.square_at(
                i,
                c,
            ).options@.contains(d))) by {
                assert(s2.square_at(i, c) == s1.square_at(i, c));
            }
        }
        if s2.unique_in_col(r, c, d) {
            assert forall|i: int| 0 <= i < 9 && i != r implies ((#[trigger] s1.square_at(
                i,
                c,
            )).value != Some(d) && (s1.square_at(i, c).value is None ==> !s1.square_at(
                i,
                c,
            ).options@.contains(d))) by {
                assert(s1.square_at(i, c) == s2.square_at(i, c));
            }
        }
    }
    assert(s1.unique_in_box(r, c, d) == s2.unique_in_box(r, c, d)) by {
        if s1.unique_in_box(r, c, d) {
            assert forall|i: int, j: int|
                box_start(r) <= i < box_start(r) + 3 && box_start(c) <= j < box_start(c) + 3 && !(i
                    == r && j == c) implies ((#[trigger] s2.square_at(i, j)).value != Some(d) && (
                s2.square_at(i, j).value is None ==> !s2.square_at(i, j).options@.contains(
                    d,
                ))) by {
                assert(0 <= i < 9 && 0 <= j < 9);
                assert(s2.square_at(i, j) == s1.square_at(i, j));
            }
        }
        if s2.unique_in_box(r, c, d) {
            assert forall|i: int, j: int|
                box_start(r) <= i < box_start(r) + 3 && box_start(c) <= j < box_start(c) + 3 && !(i
                    == r && j == c) implies ((#[trigger] s1.square_at(i, j)).value != Some(d) && (
                s1.square_at(i, j).value is None ==> !s1.square_at(i, j).options@.contains(
                    d,
                ))) by {
                assert(0 <= i < 9 && 0 <= j < 9);
                assert(s1.square_at(i, j) == s2.square_at(i, j));
            }
        }
    }
}

impl Sudoku {
    /// One hidden-single pass over the whole board: assigns the first hidden
    /// single found in row-major order and reports whether one was found.
    #[verifier::loop_isolation(false)]
    pub(crate) fn hidden_pass(&mut self) -> (progress: bool)
        requires
            old(self).grid_wf(),
        ensures
            final(self).grid_wf(),
            hidden_rel(*old(self), *final(self), progress),
    {
        let mut r: usize = 0;
        while r < 9
            invariant
                *self == *old(self),
                self.grid_wf(),
                r <= 9,
                old(self).hidden_scan_from(0, 0) == old(self).hidden_scan_from(r as int, 0),
            decreases 9 - r,
        {
            let mut c: usize = 0;
            while c < 9
                invariant
                    *self == *old(self),
                    self.grid_wf(),
                    r < 9,
                    c <= 9,
                    old(self).hidden_scan_from(0, 0) == old(self).hidden_scan_from(
                        r as int,
                        c as int,
                    ),
                decreases 9 - c,
            {
                if self.grid[r][c].value.is_none() {
                    assert(old(self).value_at(r as int, c as int) is None);
                    if self.update_only_options(r, c) {
                        proof {
                            let d = old(self).first_hidden_option(r as int, c as int)->0;
                            assert(old(self).hidden_scan_from(r as int, c as int) == Some(
                                (r as int, c as int, d),
                            ));
                        }
                        return true;
                    }
                    assert(old(self).first_hidden_option(r as int, c as int) is None);
                }
                assert(old(self).hidden_scan_from(r as int, c as int) == old(
                    self,
                ).hidden_scan_from(r as int, c as int + 1));
                c += 1;
            }
            assert(old(self).hidden_scan_from(r as int, 9) == old(self).hidden_scan_from(
                r as int + 1,
                0,
            ));
            r += 1;
        }
        assert(old(self).hidden_scan_from(0, 0) is None);
        false
    }

    /// One single-step naked-single pass: recomputes candidate caches in
    /// row-major order, assigns the first square whose fresh candidate list
    /// has exactly one member, and reports whether one was found.
    #[verifier::loop_isolation(false)]
    pub(crate) fn naked_single_step(&mut self) -> (progress: bool)
        requires
            old(self).grid_wf(),
        ensures
            final(self).grid_wf(),
            naked_step_rel(*old(self), *final(self), progress),
    {
        let mut r: usize = 0;
        while r < 9
            invariant
                self.grid_wf(),
                r <= 9,
                self.solved == old(self).solved,
                self.status == old(self).status,
                forall|i: int, j: int|
                    0 <= i < 9 && 0 <= j < 9 ==> #[trigger] self.value_at(i, j) == old(
                        self,
                    ).value_at(i, j),
                forall|i: int, j: int|
                    0 <= i < 9 && 0 <= j < 9 ==> (#[trigger] self.square_at(i, j)).value == old(
                        self,
                    ).square_at(i, j).value,
                forall|i: int, j: int|
                    0 <= i < 9 && 0 <= j < 9 ==> if lex_before(i, j, r as int, 0) && old(
                        self,
                    ).value_at(i, j) is None {
                        (#[trigger] self.square_at(i, j)).value is None && self.square_at(
                            i,
                            j,
                        ).given == old(self).square_at(i, j).given && self.square_at(
                            i,
                            j,
                        ).options@ == old(self).candidate_seq(i, j)
                    } else {
                        self.square_at(i, j) == old(self).square_at(i, j)
                    },
                old(self).naked_scan_from(0, 0) == old(self).naked_scan_from(r as int, 0),
            decreases 9 - r,
        {
            let mut c: usize = 0;
            while c < 9
                invariant
                    self.grid_wf(),
                    r < 9,
                    c <= 9,
                    self.solved == old(self).solved,
                    self.status == old(self).status,
                    forall|i: int, j: int|
                        0 <= i < 9 && 0 <= j < 9 ==> #[trigger] self.value_at(i, j) == old(
                            self,
                        ).value_at(i, j),
                    forall|i: int, j: int|
                        0 <= i < 9 && 0 <= j < 9 ==> (#[trigger] self.square_at(i, j)).value == old(
                            self,
                        ).square_at(i, j).value,
                    forall|i: int, j: int|
                        0 <= i < 9 && 0 <= j < 9 ==> if lex_before(i, j, r as int, c as int)
                            && old(self).value_at(i, j) is None {
                            (#[trigger] self.square_at(i, j)).value is None && self.square_at(
                                i,
                                j,
                            ).given == old(self).square_at(i, j).given && self.square_at(
                                i,
                                j,
                            ).options@ == old(self).candidate_seq(i, j)
                        } else {
                            self.square_at(i, j) == old(self).square_at(i, j)
                        },
                    old(self).naked_scan_from(0, 0) == old(self).naked_scan_from(
                        r as int,
                        c as int,
                    ),
                decreases 9 - c,
            {
                let ghost prev = *self;
                if self.grid[r][c].value.is_none() {
                    self.update_options(r, c);
                    proof {
                        assert(crate::candidates::refresh_rel(prev, *self, r as int, c as int));
                        lemma_candidates_congruent(prev, *old(self), r as int, c as int, 1);
                        assert(self.square_at(r as int, c as int).options@ == old(
                            self,
                        ).candidate_seq(r as int, c as int));
                        assert forall|i: int, j: int| 0 <= i < 9 && 0 <= j < 9
                            implies #[trigger] self.value_at(i, j) == prev.value_at(i, j) by {
                            if !(i == r as int && j == c as int) {
                                assert(self.square_at(i, j) == prev.square_at(i, j));
                            } else {
                                assert(self.square_at(i, j).value == prev.square_at(i, j).value);
                            }
                        }
                    }
                    if self.grid[r][c].options.len() == 1 {
                        let d = self.grid[r][c].options[0];
                        proof {
                            assert(d == old(self).candidate_seq(r as int, c as int)[0]);
                            assert(old(self).value_at(r as int, c as int) is None);
                            assert(old(self).candidate_seq(r as int, c as int).len() == 1);
                            assert(old(self).naked_scan_from(r as int, c as int) == Some(
                                (r as int, c as int, d),
                            ));
                            crate::candidates::lemma_candidate_seq(*old(self), r as int, c as int);
                            assert(old(self).is_candidate(r as int, c as int, d));
                        }
                        let ghost mid = *self;
                        self.set_square(r, c, d, false);
                        proof {
                            assert(set_square_rel(mid, *self, r as int, c as int, d, false));
                            assert(naked_found_rel(
                                *old(self),
                                *self,
                                r as int,
                                c as int,
                                d,
                            )) by {
                                assert forall|i: int, j: int|
                                    0 <= i < 9 && 0 <= j < 9 && !(i == r as int && j == c as int)
                                    implies (if lex_before(i, j, r as int, c as int) && old(
                                    self,
                                ).value_at(i, j) is None {
                                    (#[trigger] self.square_at(i, j)).value is None
                                        && self.square_at(i, j).given == old(self).square_at(
                                        i,
                                        j,
                                    ).given && self.square_at(i, j).options@ == old(
                                        self,
                                    ).candidate_seq(i, j)
                                } else {
                                    self.square_at(i, j) == old(self).square_at(i, j)
                                }) by {
                                    assert(self.square_at(i, j) == mid.square_at(i, j));
                                }
                            }
                        }
                        return true;
                    }
                    assert(old(self).candidate_seq(r as int, c as int).len() != 1);
                } else {
                    assert(old(self).value_at(r as int, c as int) is Some);
                }
                assert(old(self).naked_scan_from(r as int, c as int) == old(self).naked_scan_from(
                    r as int,
                    c as int + 1,
                ));
                c += 1;
            }
            assert(old(self).naked_scan_from(r as int, 9) == old(self).naked_scan_from(
                r as int + 1,
                0,
            ));
            r += 1;
        }
        assert(old(self).naked_scan_from(0, 0) is None);
        false
    }
}

/// What the found result of a naked-single scan means: the square is in
/// range and unfilled, its candidate list is the one-member list headed by
/// the digit found, and every unfilled square scanned before it has a
/// candidate list of another size.
pub proof fn lemma_naked_scan_some(s: Sudoku, r0: int, c0: int, r: int, c: int, d: u32)
    requires
        0 <= r0 <= 9,
        0 <= c0 <= 9,
        s.naked_scan_from(r0, c0) == Some((r, c, d)),
    ensures
        0 <= r < 9,
        0 <= c < 9,
        s.value_at(r, c) is None,
        s.candidate_seq(r, c).len() == 1,
        d == s.candidate_seq(r, c)[0],
        forall|i: int, j: int|
            0 <= i < 9 && 0 <= j < 9 && (i > r0 || (i == r0 && j >= c0)) && lex_before(i, j, r, c)
                && (#[trigger] s.value_at(i, j)) is None ==> s.candidate_seq(i, j).len() != 1,
    decreases 9 - r0, 9 - c0,
{
    if r0 >= 9 {
    } else if c0 >= 9 {
        lemma_naked_scan_some(s, r0 + 1, 0, r, c, d);
    } else if s.value_at(r0, c0) is None && s.candidate_seq(r0, c0).len() == 1 {
    } else {
        lemma_naked_scan_some(s, r0, c0 + 1, r, c, d);
    }
}

/// What the found result of a hidden-single scan means: the square is in
/// range and unfilled and the digit is the first hidden single of its cached
/// candidate list.
pub proof fn lemma_hidden_scan_some(s: Sudoku, r0: int, c0: int, r: int, c: int, d: u32)
    requires
        0 <= r0 <= 9,
        0 <= c0 <= 9,
        s.hidden_scan_from(r0, c0) == Some((r, c, d)),
    ensures
        0 <= r < 9,
        0 <= c < 9,
        s.value_at(r, c) is None,
        s.first_hidden_option(r, c) == Some(d),
    decreases 9 - r0, 9 - c0,
{
    if r0 >= 9 {
    } else if c0 >= 9 {
        lemma_hidden_scan_some(s, r0 + 1, 0, r, c, d);
    } else if s.value_at(r0, c0) is None && s.first_hidden_option(r0, c0) is Some {
    } else {
        lemma_hidden_scan_some(s, r0, c0 + 1, r, c, d);
    }
}

/// A first hidden single comes from the cached candidate list and really is
/// a hidden single.
pub proof fn lemma_first_hidden_some(s: Sudoku, r: int, c: int, k: int, d: u32)
    requires
        0 <= k,
        s.first_hidden_option_from(r, c, k) == Some(d),
    ensures
        s.square_at(r, c).options@.contains(d),
        s.hidden_single(r, c, d),
    decreases s.square_at(r, c).options@.len() - k,
{
    let opts = s.square_at(r, c).options@;
    if k < opts.len() {
        if s.hidden_single(r, c, opts[k]) {
            assert(opts[k] == d);
        } else {
            lemma_first_hidden_some(s, r, c, k + 1, d);
        }
    }
}

/// What every deduction step keeps: filled squares are untouched, new
/// assignments are solver-derived with empty caches, the count of unfilled
/// squares never grows, and a board without duplicates stays so.
pub open spec fn solve_keeps(pre: Sudoku, post: Sudoku) -> bool {
    &&& forall|i: int, j: int|
        0 <= i < 9 && 0 <= j < 9 && (#[trigger] pre.value_at(i, j)) is Some ==> post.square_at(
            i,
            j,
        ) == pre.square_at(i, j)
    &&& forall|i: int, j: int|
        0 <= i < 9 && 0 <= j < 9 && pre.value_at(i, j) is None && (#[trigger] post.value_at(i, j))
            is Some ==> post.square_at(i, j).given == false && post.square_at(i, j).options@.len()
            == 0
    &&& post.empty_count() <= pre.empty_count()
    &&& pre.board_valid() ==> post.board_valid()
}

/// Consequences of a single-step naked pass, for its callers.
pub proof fn lemma_naked_step_facts(pre: Sudoku, mid: Sudoku, progress: bool)
    requires
        pre.grid_wf(),
        naked_step_rel(pre, mid, progress),
    ensures
        pre.fills_preserved(mid),
        solve_keeps(pre, mid),
        progress <==> mid.empty_count() < pre.empty_count(),
        progress <==> pre.naked_scan_from(0, 0) is Some,
        !progress ==> {
            &&& forall|i: int, j: int|
                0 <= i < 9 && 0 <= j < 9 ==> #[trigger] mid.value_at(i, j) == pre.value_at(i, j)
            &&& mid.solved == pre.solved
            &&& mid.status == pre.status
            &&& mid.options_sound()
            &&& forall|i: int, j: int|
                0 <= i < 9 && 0 <= j < 9 && (#[trigger] mid.value_at(i, j)) is None
                    ==> mid.candidate_seq(i, j).len() != 1 && mid.square_at(i, j).options@
                    == mid.candidate_seq(i, j)
        },
        progress ==> mid.solved == false && mid.status@ == Seq::<char>::empty(),
{
    match pre.naked_scan_from(0, 0) {
        None => {
            assert forall|i: int, j: int| 0 <= i < 9 && 0 <= j < 9 implies #[trigger] mid.value_at(
                i,
                j,
            ) == pre.value_at(i, j) by {
                if pre.value_at(i, j) is Some {
                    assert(mid.square_at(i, j) == pre.square_at(i, j));
                } else {
                    assert(mid.square_at(i, j).value is None);
                }
            }
            assert(pre.fills_preserved(mid));
            assert(mid.fills_preserved(pre));
            crate::board::lemma_empty_count_monotone(pre, mid);
            crate::board::lemma_empty_count_monotone(mid, pre);
            lemma_naked_scan_none(pre, 0, 0);
            assert forall|i: int, j: int|
                0 <= i < 9 && 0 <= j < 9 && (#[trigger] mid.value_at(i, j)) is None
                implies mid.candidate_seq(i, j).len() != 1 && mid.square_at(i, j).options@
                == mid.candidate_seq(i, j) by {
                lemma_candidates_congruent(pre, mid, i, j, 1);
                assert(pre.value_at(i, j) is None);
                assert(pre.candidate_seq(i, j).len() != 1);
            }
            assert(mid.options_sound()) by {
                assert forall|i: int, j: int, k: int|
                    0 <= i < 9 && 0 <= j < 9 && mid.value_at(i, j) is None && 0 <= k
                        < mid.square_at(i, j).options@.len() implies mid.is_candidate(
                    i,
                    j,
                    #[trigger] mid.square_at(i, j).options@[k],
                ) by {
                    assert(mid.square_at(i, j).options@ == mid.candidate_seq(i, j));
                    crate::candidates::lemma_candidate_seq(mid, i, j);
                }
            }
            if pre.board_valid() {
                crate::board::lemma_valid_congruent(pre, mid);
            }
            assert forall|i: int, j: int|
                0 <= i < 9 && 0 <= j < 9 && (#[trigger] pre.value_at(i, j)) is Some
                implies mid.square_at(i, j) == pre.square_at(i, j) by {}
        },
        Some((r, c, d)) => {
            lemma_naked_scan_some(pre, 0, 0, r, c, d);
            assert forall|i: int, j: int|
                0 <= i < 9 && 0 <= j < 9 && (#[trigger] pre.value_at(i, j)) is Some
                implies mid.square_at(i, j) == pre.square_at(i, j) && mid.value_at(i, j)
                == pre.value_at(i, j) by {
                assert(!(i == r && j == c));
            }
            assert(pre.fills_preserved(mid));
            crate::board::lemma_empty_count_strict(pre, mid, r, c);
            crate::candidates::lemma_candidate_seq(pre, r, c);
            assert(pre.is_candidate(r, c, d));
            if pre.board_valid() {
                assert forall|i: int, j: int|
                    0 <= i < 9 && 0 <= j < 9 && !(i == r && j == c)
                    implies #[trigger] mid.value_at(i, j) == pre.value_at(i, j) by {}
                crate::board::lemma_fill_preserves_valid(pre, mid, r, c, d);
            }
        },
    }
}

/// Consequences of a hidden-single pass over sound candidate caches, for its
/// callers.
pub proof fn lemma_hidden_facts(pre: Sudoku, post: Sudoku, progress: bool)
    requires
        pre.grid_wf(),
        pre.options_sound(),
        hidden_rel(pre, post, progress),
    ensures
        pre.fills_preserved(post),
        solve_keeps(pre, post),
        progress <==> post.empty_count() < pre.empty_count(),
        progress <==> pre.hidden_scan_from(0, 0) is Some,
        !progress ==> post == pre,
        progress ==> post.solved == false && post.status@ == Seq::<char>::empty(),
{
    match pre.hidden_scan_from(0, 0) {
        None => {
            assert(pre.fills_preserved(post));
            assert(post.fills_preserved(pre));
            crate::board::lemma_empty_count_monotone(pre, post);
            crate::board::lemma_empty_count_monotone(post, pre);
        },
        Some((r, c, d)) => {
            lemma_hidden_scan_some(pre, 0, 0, r, c, d);
            lemma_first_hidden_some(pre, r, c, 0, d);
            let k = choose|k: int|
                0 <= k < pre.square_at(r, c).options@.len() && pre.square_at(r, c).options@[k]
                    == d;
            assert(pre.is_candidate(r, c, d));
            assert(crate::board::digit_ok(d));
            assert forall|i: int, j: int|
                0 <= i < 9 && 0 <= j < 9 && (#[trigger] pre.value_at(i, j)) is Some
                implies post.square_at(i, j) == pre.square_at(i, j) && post.value_at(i, j)
                == pre.value_at(i, j) by {
                assert(!(i == r && j == c));
            }
            assert(pre.fills_preserved(post));
            crate::board::lemma_empty_count_strict(pre, post, r, c);
            if pre.board_valid() {
                assert forall|i: int, j: int|
                    0 <= i < 9 && 0 <= j < 9 && !(i == r && j == c)
                    implies #[trigger] post.value_at(i, j) == pre.value_at(i, j) by {}
                crate::board::lemma_fill_preserves_valid(pre, post, r, c, d);
            }
        },
    }
}

/// What each deduction step keeps, chained over two steps.
pub proof fn lemma_keeps_trans(a: Sudoku, b: Sudoku, c: Sudoku)
    requires
        solve_keeps(a, b),
        solve_keeps(b, c),
        a.fills_preserved(b),
        b.fills_preserved(c),
    ensures
        solve_keeps(a, c),
        a.fills_preserved(c),
{
    assert forall|i: int, j: int|
        0 <= i < 9 && 0 <= j < 9 && (#[trigger] a.value_at(i, j)) is Some implies c.square_at(
        i,
        j,
    ) == a.square_at(i, j) && c.value_at(i, j) == a.value_at(i, j) by {
        assert(b.square_at(i, j) == a.square_at(i, j));
        assert(b.value_at(i, j) == a.value_at(i, j));
    }
    assert forall|i: int, j: int|
        0 <= i < 9 && 0 <= j < 9 && a.value_at(i, j) is None && (#[trigger] c.value_at(i, j))
            is Some implies c.square_at(i, j).given == false && c.square_at(i, j).options@.len()
        == 0 by {
        if b.value_at(i, j) is Some {
            assert(c.square_at(i, j) == b.square_at(i, j));
        }
    }
}

/// One solving step as the caller sees it: the first naked single is
/// assigned if one exists; otherwise every cache is refreshed and the first
/// hidden single of the refreshed board, if any, is assigned.
pub open spec fn solve_step_rel(pre: Sudoku, post: Sudoku) -> bool {
    match pre.naked_scan_from(0, 0) {
        Some(found) => naked_step_rel(pre, post, true),
        None => exists|mid: Sudoku|
            (#[trigger] naked_step_rel(pre, mid, false)) && hidden_rel(
                mid,
                post,
                mid.hidden_scan_from(0, 0) is Some,
            ),
    }
}

/// A finished full solve: the board is at a fixed point of both deduction
/// passes (no naked single, caches fresh, no hidden single among them), the
/// solved flag states exactly whether the board is solved, and the status
/// line is cleared exactly if something was deduced or the board is solved.
pub open spec fn solve_done_rel(pre: Sudoku, post: Sudoku) -> bool {
    &&& forall|i: int, j: int|
        0 <= i < 9 && 0 <= j < 9 && (#[trigger] post.value_at(i, j)) is None
            ==> post.candidate_seq(i, j).len() != 1
    &&& forall|i: int, j: int|
        0 <= i < 9 && 0 <= j < 9 && (#[trigger] post.value_at(i, j)) is None ==> post.square_at(
            i,
            j,
        ).options@ == post.candidate_seq(i, j)
    &&& forall|i: int, j: int, k: int|
        0 <= i < 9 && 0 <= j < 9 && post.value_at(i, j) is None && 0 <= k < post.square_at(
            i,
            j,
        ).options@.len() ==> !post.hidden_single(i, j, #[trigger] post.square_at(i, j).options@[k])
    &&& post.solved == post.board_solved()
    &&& post.status@ == (if post.solved || post.empty_count() < pre.empty_count() {
        Seq::<char>::empty()
    } else {
        pre.status@
    })
}

impl Sudoku {
    /// Drives the solver.  With `next` false, alternates naked-single and
    /// hidden-single passes until neither advances, then records whether the
    /// board is solved.  With `next` true, stops after the first assignment
    /// either pass makes, leaving the rest for later calls.
    #[verifier::loop_isolation(false)]
    pub fn solve(&mut self, next: bool)
        requires
            old(self).grid_wf(),
        ensures
            final(self).grid_wf(),
            old(self).fills_preserved(*final(self)),
            solve_keeps(*old(self), *final(self)),
            next ==> solve_step_rel(*old(self), *final(self)),
            !next ==> solve_done_rel(*old(self), *final(self)),
    {
        if next {
            if self.naked_single_step() {
                proof {
                    lemma_naked_step_facts(*old(self), *self, true);
                }
                return;
            }
            proof {
                lemma_naked_step_facts(*old(self), *self, false);
            }
            let ghost mid = *self;
            let found = self.hidden_pass();
            proof {
                lemma_hidden_facts(mid, *self, found);
                lemma_keeps_trans(*old(self), mid, *self);
                assert(naked_step_rel(*old(self), mid, false));
                assert(found == (mid.hidden_scan_from(0, 0) is Some));
                assert(hidden_rel(mid, *self, mid.hidden_scan_from(0, 0) is Some));
            }
            return;
        }
        let mut run = true;
        while run
            invariant
                self.grid_wf(),
                old(self).fills_preserved(*self),
                solve_keeps(*old(self), *self),
                self.empty_count() < old(self).empty_count() ==> self.solved == false
                    && self.status@ == Seq::<char>::empty(),
                self.empty_count() >= old(self).empty_count() ==> self.solved == old(self).solved
                    && self.status == old(self).status,
                !run ==> {
                    &&& self.options_sound()
                    &&& forall|i: int, j: int|
                        0 <= i < 9 && 0 <= j < 9 && (#[trigger] self.value_at(i, j)) is None
                            ==> self.candidate_seq(i, j).len() != 1 && self.square_at(
                            i,
                            j,
                        ).options@ == self.candidate_seq(i, j)
                    &&& self.hidden_scan_from(0, 0) is None
                },
            decreases self.empty_count() * 2 + (if run {
                1int
            } else {
                0int
            }),
        {
            run = false;
            let ghost s0 = *self;
            if self.naked_single_step() {
                run = true;
                proof {
                    lemma_naked_step_facts(s0, *self, true);
                    lemma_keeps_trans(*old(self), s0, *self);
                }
            } else {
                proof {
                    lemma_naked_step_facts(s0, *self, false);
                    lemma_keeps_trans(*old(self), s0, *self);
                }
                let ghost s1 = *self;
                if self.hidden_pass() {
                    run = true;
                    proof {
                        lemma_hidden_facts(s1, *self, true);
                        lemma_keeps_trans(*old(self), s1, *self);
                    }
                } else {
                    proof {
                        lemma_hidden_facts(s1, *self, false);
                        assert(*self == s1);
                    }
                }
            }
        }
        let ghost fin = *self;
        let verdict = self.check_solved();
        proof {
            assert forall|i: int, j: int| 0 <= i < 9 && 0 <= j < 9
                implies #[trigger] self.square_at(i, j) == fin.square_at(i, j) && self.value_at(
                i,
                j,
            ) == fin.value_at(i, j) by {
                assert(self.grid == fin.grid);
            }
            assert(fin.fills_preserved(*self));
            assert(self.fills_preserved(fin));
            crate::board::lemma_empty_count_monotone(fin, *self);
            crate::board::lemma_empty_count_monotone(*self, fin);
            assert(solve_keeps(fin, *self)) by {
                if fin.board_valid() {
                    crate::board::lemma_valid_congruent(fin, *self);
                }
            }
            lemma_keeps_trans(*old(self), fin, *self);
            assert forall|i: int, j: int|
                0 <= i < 9 && 0 <= j < 9 && (#[trigger] self.value_at(i, j)) is None
                implies self.candidate_seq(i, j).len() != 1 && self.square_at(i, j).options@
                == self.candidate_seq(i, j) by {
                lemma_candidates_congruent(fin, *self, i, j, 1);
                assert(fin.value_at(i, j) is None);
            }
            lemma_hidden_scan_none(fin, 0, 0);
            assert forall|i: int, j: int, k: int|
                0 <= i < 9 && 0 <= j < 9 && self.value_at(i, j) is None && 0 <= k < self.square_at(
                    i,
                    j,
                ).options@.len() implies !self.hidden_single(
                i,
                j,
                #[trigger] self.square_at(i, j).options@[k],
            ) by {
                assert(fin.value_at(i, j) is None);
                assert(fin.first_hidden_option(i, j) is None);
                lemma_first_hidden_none(fin, i, j, 0);
                assert(fin.square_at(i, j).options@ == self.square_at(i, j).options@);
                assert(!fin.hidden_single(i, j, fin.square_at(i, j).options@[k]));
                lemma_hidden_single_congruent(fin, *self, i, j, self.square_at(i, j).options@[k]);
            }
            if fin.board_solved() {
                crate::board::lemma_solved_congruent(fin, *self);
            }
            if self.board_solved() {
                crate::board::lemma_solved_congruent(*self, fin);
            }
            assert(self.solved == self.board_solved());
        }
    }
}

} // verus!
