//! Candidate computation: for an unfilled square, the digits not already
//! assigned anywhere in its row, column, or 3x3 box.

use vstd::prelude::*;

use crate::board::box_start;
use crate::board::digit_ok;
use crate::board::Sudoku;

verus! {

impl Sudoku {
    /// The candidate digits of `(r, c)` in ascending order, starting from
    /// digit `d`.
    pub open spec fn candidates_from(self, r: int, c: int, d: u32) -> Seq<u32>
        decreases 10 - d,
    {
        if d > 9 {
            Seq::<u32>::empty()
        } else if self.is_candidate(r, c, d) {
            seq![d] + self.candidates_from(r, c, (d + 1) as u32)
        } else {
            self.candidates_from(r, c, (d + 1) as u32)
        }
    }

    /// The full candidate list of `(r, c)`: every digit 1-9 not excluded by
    /// an assigned peer, in ascending order.
    pub open spec fn candidate_seq(self, r: int, c: int) -> Seq<u32> {
        self.candidates_from(r, c, 1)
    }
}

/// Every entry of `candidates_from` is a candidate at least `d`, every
/// candidate at least `d` is an entry, and the entries ascend strictly.
pub proof fn lemma_candidates_from(s: Sudoku, r: int, c: int, d: u32)
    ensures
        forall|k: int|
            0 <= k < s.candidates_from(r, c, d).len()
                ==> s.is_candidate(r, c, #[trigger] s.candidates_from(r, c, d)[k])
                    && d <= s.candidates_from(r, c, d)[k],
        forall|e: u32| s.is_candidate(r, c, e) && d <= e ==> s.candidates_from(r, c, d).contains(e),
        forall|k1: int, k2: int|
            0 <= k1 < k2 < s.candidates_from(r, c, d).len()
                ==> s.candidates_from(r, c, d)[k1] < s.candidates_from(r, c, d)[k2],
    decreases 10 - d,
{
    if d <= 9 {
        lemma_candidates_from(s, r, c, (d + 1) as u32);
        let tail = s.candidates_from(r, c, (d + 1) as u32);
        if s.is_candidate(r, c, d) {
            let whole = s.candidates_from(r, c, d);
            assert(whole == seq![d] + tail);
            assert forall|e: u32| s.is_candidate(r, c, e) && d <= e implies whole.contains(e) by {
                if e == d {
                    assert(whole[0] == d);
                } else {
                    let k = choose|k: int| 0 <= k < tail.len() && tail[k] == e;
                    assert(whole[k + 1] == e);
                }
            }
        }
    }
}

/// The candidate list of a square, with the facts of `lemma_candidates_from`
/// specialised to its head.
pub proof fn lemma_candidate_seq(s: Sudoku, r: int, c: int)
    ensures
        forall|k: int|
            0 <= k < s.candidate_seq(r, c).len()
                ==> s.is_candidate(r, c, #[trigger] s.candidate_seq(r, c)[k]),
        forall|e: u32| s.is_candidate(r, c, e) ==> s.candidate_seq(r, c).contains(e),
        forall|k1: int, k2: int|
            0 <= k1 < k2 < s.candidate_seq(r, c).len()
                ==> s.candidate_seq(r, c)[k1] < s.candidate_seq(r, c)[k2],
{
    lemma_candidates_from(s, r, c, 1);
    assert forall|e: u32| s.is_candidate(r, c, e) implies s.candidate_seq(r, c).contains(e) by {
        assert(digit_ok(e));
    }
}

/// Two boards with the same assigned values everywhere have the same
/// candidates everywhere.
pub proof fn lemma_candidates_congruent(s1: Sudoku, s2: Sudoku, r: int, c: int, d: u32)
    requires
        forall|i: int, j: int|
            0 <= i < 9 && 0 <= j < 9 ==> #[trigger] s1.value_at(i, j) == s2.value_at(i, j),
        0 <= r < 9,
        0 <= c < 9,
    ensures
        s1.candidates_from(r, c, d) == s2.candidates_from(r, c, d),
    decreases 10 - d,
{
    assert forall|e: u32| #[trigger] s1.is_candidate(r, c, e) == s2.is_candidate(r, c, e) by {
        assert(s1.row_has(r, e) == s2.row_has(r, e)) by {
            if s1.row_has(r, e) {
                let i = choose|i: int| 0 <= i < 9 && s1.value_at(r, i) == Some(e);
                assert(s2.value_at(r, i) == Some(e));
            }
            if s2.row_has(r, e) {
                let i = choose|i: int| 0 <= i < 9 && s2.value_at(r, i) == Some(e);
                assert(s1.value_at(r, i) == Some(e));
            }
        }
        assert(s1.col_has(c, e) == s2.col_has(c, e)) by {
            if s1.col_has(c, e) {
                let i = choose|i: int| 0 <= i < 9 && s1.value_at(i, c) == Some(e);
                assert(s2.value_at(i, c) == Some(e));
            }
            if s2.col_has(c, e) {
                let i = choose|i: int| 0 <= i < 9 && s2.value_at(i, c) == Some(e);
                assert(s1.value_at(i, c) == Some(e));
            }
        }
        assert(s1.box_has(r, c, e) == s2.box_has(r, c, e)) by {
            if 0 <= r < 9 && 0 <= c < 9 {
                if s1.box_has(r, c, e) {
                    let (i, j) = choose|i: int, j: int|
                        box_start(r) <= i < box_start(r) + 3 && box_start(c) <= j < box_start(c)
                            + 3 && s1.value_at(i, j) == Some(e);
                    assert(s2.value_at(i, j) == Some(e));
                }
                if s2.box_has(r, c, e) {
                    let (i, j) = choose|i: int, j: int|
                        box_start(r) <= i < box_start(r) + 3 && box_start(c) <= j < box_start(c)
                            + 3 && s2.value_at(i, j) == Some(e);
                    assert(s1.value_at(i, j) == Some(e));
                }
            }
        }
    }
    if d <= 9 {
        lemma_candidates_congruent(s1, s2, r, c, (d + 1) as u32);
    }
}

/// Membership in a pushed sequence: the old members plus the new element.
pub proof fn lemma_push_keeps(s: Seq<u32>, x: u32)
    ensures
        forall|e: u32| #[trigger] s.push(x).contains(e) <==> s.contains(e) || e == x,
{
    assert forall|e: u32| #[trigger] s.push(x).contains(e) implies s.contains(e) || e == x by {
        let k = choose|k: int| 0 <= k < s.push(x).len() && s.push(x)[k] == e;
        if k < s.len() {
            assert(s[k] == e);
        }
    }
    assert forall|e: u32| s.contains(e) || e == x implies s.push(x).contains(e) by {
        if s.contains(e) {
            let k = choose|k: int| 0 <= k < s.len() && s[k] == e;
            assert(s.push(x)[k] == e);
        } else {
            assert(s.push(x)[s.len() as int] == x);
        }
    }
}

/// Two strictly ascending sequences with the same members are equal.
pub proof fn lemma_sorted_unique(a: Seq<u32>, b: Seq<u32>)
    requires
        forall|k1: int, k2: int| 0 <= k1 < k2 < a.len() ==> a[k1] < a[k2],
        forall|k1: int, k2: int| 0 <= k1 < k2 < b.len() ==> b[k1] < b[k2],
        forall|d: u32| a.contains(d) <==> b.contains(d),
    ensures
        a == b,
    decreases a.len(),
{
    if a.len() == 0 {
        if b.len() > 0 {
            assert(b.contains(b[0]));
            assert(a.contains(b[0]));
        }
        assert(a =~= b);
    } else {
        assert(a.contains(a[0]));
        assert(b.contains(a[0]));
        if b.len() == 0 {
            assert(false);
        }
        assert(b.contains(b[0]));
        assert(a.contains(b[0]));
        let ka = choose|k: int| 0 <= k < b.len() && b[k] == a[0];
        let kb = choose|k: int| 0 <= k < a.len() && a[k] == b[0];
        assert(a[0] <= a[kb] && b[0] <= b[ka]);
        assert(a[0] == b[0]);
        let at = a.drop_first();
        let bt = b.drop_first();
        assert(at.len() == a.len() - 1 && bt.len() == b.len() - 1);
        assert(forall|k: int| 0 <= k < at.len() ==> at[k] == a[k + 1]);
        assert(forall|k: int| 0 <= k < bt.len() ==> bt[k] == b[k + 1]);
        assert forall|d: u32| at.contains(d) implies bt.contains(d) by {
            let k = choose|k: int| 0 <= k < at.len() && at[k] == d;
            assert(a[k + 1] == d);
            assert(a.contains(d));
            assert(b.contains(d));
            let j = choose|j: int| 0 <= j < b.len() && b[j] == d;
            assert(a[0] < a[k + 1]);
            assert(j != 0);
            assert(bt[j - 1] == d);
        }
        assert forall|d: u32| bt.contains(d) implies at.contains(d) by {
            let k = choose|k: int| 0 <= k < bt.len() && bt[k] == d;
            assert(b[k + 1] == d);
            assert(b.contains(d));
            assert(a.contains(d));
            let j = choose|j: int| 0 <= j < a.len() && a[j] == d;
            assert(b[0] < b[k + 1]);
            assert(j != 0);
            assert(at[j - 1] == d);
        }
        lemma_sorted_unique(at, bt);
        assert forall|k: int| 0 <= k < a.len() implies a[k] == b[k] by {
            if k > 0 {
                assert(a[k] == at[k - 1]);
                assert(b[k] == bt[k - 1]);
            }
        }
        assert(a =~= b);
    }
}

/// Whether `v` holds `x`.
pub(crate) fn vec_contains(v: &Vec<u32>, x: u32) -> (b: bool)
    ensures
        b == v@.contains(x),
{
    let mut i: usize = 0;
    while i < v.len()
        invariant
            i <= v@.len(),
            forall|k: int| 0 <= k < i ==> v@[k] != x,
        decreases v@.len() - i,
    {
        if v[i] == x {
            return true;
        }
        i += 1;
    }
    false
}

impl Sudoku {
    /// Whether digit `d` is assigned somewhere in row `r`.
    pub(crate) fn row_value_present(&self, r: usize, d: u32) -> (b: bool)
        requires
            self.grid_wf(),
            r < 9,
        ensures
            b == self.row_has(r as int, d),
    {
        let mut i: usize = 0;
        while i < 9
            invariant
                self.grid_wf(),
                r < 9,
                i <= 9,
                forall|j: int| 0 <= j < i ==> self.value_at(r as int, j) != Some(d),
            decreases 9 - i,
        {
            if let Some(v) = self.grid[r][i].value {
                if v == d {
                    assert(self.value_at(r as int, i as int) == Some(d));
                    return true;
                }
            }
            i += 1;
        }
        false
    }

    /// Whether digit `d` is assigned somewhere in column `c`.
    pub(crate) fn col_value_present(&self, c: usize, d: u32) -> (b: bool)
        requires
            self.grid_wf(),
            c < 9,
        ensures
            b == self.col_has(c as int, d),
    {
        let mut i: usize = 0;
        while i < 9
            invariant
                self.grid_wf(),
                c < 9,
                i <= 9,
                forall|j: int| 0 <= j < i ==> self.value_at(j, c as int) != Some(d),
            decreases 9 - i,
        {
            if let Some(v) = self.grid[i][c].value {
                if v == d {
                    assert(self.value_at(i as int, c as int) == Some(d));
                    return true;
                }
            }
            i += 1;
        }
        false
    }

    /// Whether digit `d` is assigned somewhere in the 3x3 box of `(r, c)`.
    pub(crate) fn box_value_present(&self, r: usize, c: usize, d: u32) -> (b: bool)
        requires
            self.grid_wf(),
            r < 9,
            c < 9,
        ensures
            b == self.box_has(r as int, c as int, d),
    {
        let r_start = r - r % 3;
        let c_start = c - c % 3;
        assert(r_start == box_start(r as int) && c_start == box_start(c as int));
        let mut i: usize = r_start;
        while i < r_start + 3
            invariant
                self.grid_wf(),
                r < 9,
                c < 9,
                r_start == box_start(r as int),
                c_start == box_start(c as int),
                r_start <= i <= r_start + 3,
                r_start + 3 <= 9,
                c_start + 3 <= 9,
                forall|i0: int, j0: int|
                    r_start <= i0 < i && c_start <= j0 < c_start + 3 ==> self.value_at(i0, j0)
                        != Some(d),
            decreases r_start + 3 - i,
        {
            let mut j: usize = c_start;
            while j < c_start + 3
                invariant
                    self.grid_wf(),
                    r < 9,
                    c < 9,
                    r_start == box_start(r as int),
                    c_start == box_start(c as int),
                    r_start <= i < r_start + 3,
                    r_start + 3 <= 9,
                    c_start <= j <= c_start + 3,
                    c_start + 3 <= 9,
                    forall|i0: int, j0: int|
                        r_start <= i0 < i && c_start <= j0 < c_start + 3 ==> self.value_at(i0, j0)
                            != Some(d),
                    forall|j0: int| c_start <= j0 < j ==> self.value_at(i as int, j0) != Some(d),
                decreases c_start + 3 - j,
            {
                if let Some(v) = self.grid[i][j].value {
                    if v == d {
                        assert(self.value_at(i as int, j as int) == Some(d));
                        return true;
                    }
                }
                j += 1;
            }
            i += 1;
        }
        false
    }

    /// Lists the digits not yet assigned anywhere in row `r`, ascending.
    pub fn row_options(&self, r: usize) -> (options: Vec<u32>)
        requires
            self.grid_wf(),
            r < 9,
        ensures
            forall|k: int|
                0 <= k < options@.len()
                    ==> digit_ok(#[trigger] options@[k]) && !self.row_has(r as int, options@[k]),
            forall|d: u32| digit_ok(d) && !self.row_has(r as int, d) ==> options@.contains(d),
            forall|k1: int, k2: int|
                0 <= k1 < k2 < options@.len() ==> options@[k1] < options@[k2],
    {
        let mut options: Vec<u32> = Vec::new();
        let mut d: u32 = 1;
        while d <= 9
            invariant
                self.grid_wf(),
                r < 9,
                1 <= d <= 10,
                forall|k: int|
                    0 <= k < options@.len()
                        ==> digit_ok(#[trigger] options@[k]) && !self.row_has(
                            r as int,
                            options@[k],
                        ) && options@[k] < d,
                forall|e: u32|
                    digit_ok(e) && e < d && !self.row_has(r as int, e) ==> options@.contains(e),
                forall|k1: int, k2: int|
                    0 <= k1 < k2 < options@.len() ==> options@[k1] < options@[k2],
            decreases 10 - d,
        {
            let ghost prev = options@;
            if !self.row_value_present(r, d) {
                options.push(d);
                proof {
                    lemma_push_keeps(prev, d);
                }
            }
            d += 1;
        }
        options
    }

    /// Lists the digits not yet assigned anywhere in column `c`, ascending.
    pub fn col_options(&self, c: usize) -> (options: Vec<u32>)
        requires
            self.grid_wf(),
            c < 9,
        ensures
            forall|k: int|
                0 <= k < options@.len()
                    ==> digit_ok(#[trigger] options@[k]) && !self.col_has(c as int, options@[k]),
            forall|d: u32| digit_ok(d) && !self.col_has(c as int, d) ==> options@.contains(d),
            forall|k1: int, k2: int|
                0 <= k1 < k2 < options@.len() ==> options@[k1] < options@[k2],
    {
        let mut options: Vec<u32> = Vec::new();
        let mut d: u32 = 1;
        while d <= 9
            invariant
                self.grid_wf(),
                c < 9,
                1 <= d <= 10,
                forall|k: int|
                    0 <= k < options@.len()
                        ==> digit_ok(#[trigger] options@[k]) && !self.col_has(
                            c as int,
                            options@[k],
                        ) && options@[k] < d,
                forall|e: u32|
                    digit_ok(e) && e < d && !self.col_has(c as int, e) ==> options@.contains(e),
                forall|k1: int, k2: int|
                    0 <= k1 < k2 < options@.len() ==> options@[k1] < options@[k2],
            decreases 10 - d,
        {
            let ghost prev = options@;
            if !self.col_value_present(c, d) {
                options.push(d);
                proof {
                    lemma_push_keeps(prev, d);
                }
            }
            d += 1;
        }
        options
    }

    /// Lists the digits not yet assigned anywhere in the box of `(r, c)`,
    /// ascending.
    pub fn box_options(&self, r: usize, c: usize) -> (options: Vec<u32>)
        requires
            self.grid_wf(),
            r < 9,
            c < 9,
        ensures
            forall|k: int|
                0 <= k < options@.len()
                    ==> digit_ok(#[trigger] options@[k]) && !self.box_has(
                        r as int,
                        c as int,
                        options@[k],
                    ),
            forall|d: u32|
                digit_ok(d) && !self.box_has(r as int, c as int, d) ==> options@.contains(d),
            forall|k1: int, k2: int|
                0 <= k1 < k2 < options@.len() ==> options@[k1] < options@[k2],
    {
        let mut options: Vec<u32> = Vec::new();
        let mut d: u32 = 1;
        while d <= 9
            invariant
                self.grid_wf(),
                r < 9,
                c < 9,
                1 <= d <= 10,
                forall|k: int|
                    0 <= k < options@.len()
                        ==> digit_ok(#[trigger] options@[k]) && !self.box_has(
                            r as int,
                            c as int,
                            options@[k],
                        ) && options@[k] < d,
                forall|e: u32|
                    digit_ok(e) && e < d && !self.box_has(r as int, c as int, e)
                        ==> options@.contains(e),
                forall|k1: int, k2: int|
                    0 <= k1 < k2 < options@.len() ==> options@[k1] < options@[k2],
            decreases 10 - d,
        {
            let ghost prev = options@;
            if !self.box_value_present(r, c, d) {
                options.push(d);
                proof {
                    lemma_push_keeps(prev, d);
                }
            }
            d += 1;
        }
        options
    }

    /// Keeps the digits common to the row, column, and box option lists,
    /// ascending.
    pub fn combine_options(
        row_options: Vec<u32>,
        col_options: Vec<u32>,
        box_options: Vec<u32>,
    ) -> (options: Vec<u32>)
        ensures
            forall|k: int|
                0 <= k < options@.len()
                    ==> digit_ok(#[trigger] options@[k]) && row_options@.contains(options@[k])
                        && col_options@.contains(options@[k]) && box_options@.contains(
                        options@[k],
                    ),
            forall|d: u32|
                digit_ok(d) && row_options@.contains(d) && col_options@.contains(d)
                    && box_options@.contains(d) ==> options@.contains(d),
            forall|k1: int, k2: int|
                0 <= k1 < k2 < options@.len() ==> options@[k1] < options@[k2],
    {
        let mut options: Vec<u32> = Vec::new();
        let mut d: u32 = 1;
        while d <= 9
            invariant
                1 <= d <= 10,
                forall|k: int|
                    0 <= k < options@.len()
                        ==> digit_ok(#[trigger] options@[k]) && row_options@.contains(options@[k])
                            && col_options@.contains(options@[k]) && box_options@.contains(
                            options@[k],
                        ) && options@[k] < d,
                forall|e: u32|
                    digit_ok(e) && e < d && row_options@.contains(e) && col_options@.contains(e)
                        && box_options@.contains(e) ==> options@.contains(e),
                forall|k1: int, k2: int|
                    0 <= k1 < k2 < options@.len() ==> options@[k1] < options@[k2],
            decreases 10 - d,
        {
            let ghost prev = options@;
            if vec_contains(&row_options, d) && vec_contains(&col_options, d) && vec_contains(
                &box_options,
                d,
            ) {
                options.push(d);
                proof {
                    lemma_push_keeps(prev, d);
                }
            }
            d += 1;
        }
        options
    }

    /// Recomputes the candidate cache of square `(r, c)` from the digits
    /// currently assigned among its row, column, and box peers; nothing else
    /// on the board changes.
    pub fn update_options(&mut self, r: usize, c: usize)
        requires
            old(self).grid_wf(),
            r < 9,
            c < 9,
        ensures
            final(self).grid_wf(),
            refresh_rel(*old(self), *final(self), r as int, c as int),
    {
        let row_options: Vec<u32> = self.row_options(r);
        let col_options: Vec<u32> = self.col_options(c);
        let box_options: Vec<u32> = self.box_options(r, c);
        let combined: Vec<u32> = Sudoku::combine_options(row_options, col_options, box_options);
        proof {
            lemma_candidate_seq(*self, r as int, c as int);
            let cs = self.candidate_seq(r as int, c as int);
            assert forall|d: u32| combined@.contains(d) implies cs.contains(d) by {
                let k = choose|k: int| 0 <= k < combined@.len() && combined@[k] == d;
                assert(digit_ok(combined@[k]));
                let kr = choose|k2: int| 0 <= k2 < row_options@.len() && row_options@[k2] == d;
                assert(!self.row_has(r as int, row_options@[kr]));
                let kc = choose|k2: int| 0 <= k2 < col_options@.len() && col_options@[k2] == d;
                assert(!self.col_has(c as int, col_options@[kc]));
                let kb = choose|k2: int| 0 <= k2 < box_options@.len() && box_options@[k2] == d;
                assert(!self.box_has(r as int, c as int, box_options@[kb]));
                assert(self.is_candidate(r as int, c as int, d));
            }
            assert forall|d: u32| cs.contains(d) implies combined@.contains(d) by {
                let k = choose|k: int| 0 <= k < cs.len() && cs[k] == d;
                assert(self.is_candidate(r as int, c as int, cs[k]));
            }
            lemma_sorted_unique(combined@, cs);
        }
        self.grid[r][c].options = combined;
        proof {
            assert forall|i: int, j: int|
                0 <= i < 9 && 0 <= j < 9 && !(i == r as int && j == c as int)
                implies #[trigger] self.square_at(i, j) == old(self).square_at(i, j) by {
                if i != r as int {
                    assert(self.grid@[i] == old(self).grid@[i]);
                }
            }
            assert forall|i: int, j: int| 0 <= i < 9 && 0 <= j < 9
                implies #[trigger] self.value_at(i, j) == old(self).value_at(i, j) by {
                if !(i == r as int && j == c as int) {
                    assert(self.square_at(i, j) == old(self).square_at(i, j));
                }
            }
        }
    }
}

/// `post` is `pre` with the candidate cache of `(r, c)` replaced by `pre`'s
/// candidate list for that square; every value, every `given` flag, every
/// other cache, and the solved and status fields are unchanged.
pub open spec fn refresh_rel(pre: Sudoku, post: Sudoku, r: int, c: int) -> bool {
    &&& post.grid@.len() == pre.grid@.len()
    &&& forall|i: int|
        0 <= i < pre.grid@.len() ==> (#[trigger] post.grid@[i])@.len() == pre.grid@[i]@.len()
    &&& post.square_at(r, c).options@ == pre.candidate_seq(r, c)
    &&& post.square_at(r, c).value == pre.square_at(r, c).value
    &&& post.square_at(r, c).given == pre.square_at(r, c).given
    &&& forall|i: int, j: int|
        0 <= i < 9 && 0 <= j < 9 && !(i == r && j == c) ==> #[trigger] post.square_at(i, j)
            == pre.square_at(i, j)
    &&& post.solved == pre.solved
    &&& post.status == pre.status
}

} // verus!
