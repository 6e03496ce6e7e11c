//! Whole-board operations driven by the presentation layer: locking the
//! current entries, clearing unprotected entries, resetting the grid, and
//! refreshing every candidate cache for display.

use vstd::prelude::*;

use crate::board::Sudoku;
use crate::board::SudokuSquare;
use crate::candidates::lemma_candidates_congruent;
use crate::candidates::refresh_rel;

verus! {

/// `post` is `pre` with its `given` flag also set wherever a value stands.
pub open spec fn locked_square(pre: SudokuSquare, post: SudokuSquare) -> bool {
    &&& post.value == pre.value
    &&& post.options == pre.options
    &&& post.given == (pre.given || pre.value is Some)
}

/// `post` is `pre` with every filled square frozen as a given; values,
/// caches, and the solved and status fields are untouched.
pub open spec fn lock_rel(pre: Sudoku, post: Sudoku) -> bool {
    &&& post.grid@.len() == pre.grid@.len()
    &&& forall|i: int|
        0 <= i < pre.grid@.len() ==> (#[trigger] post.grid@[i])@.len() == pre.grid@[i]@.len()
    &&& forall|i: int, j: int|
        0 <= i < 9 && 0 <= j < 9 ==> locked_square(
            pre.square_at(i, j),
            #[trigger] post.square_at(i, j),
        )
    &&& post.solved == pre.solved
    &&& post.status == pre.status
}

/// `post` is `pre` where a protected square is untouched and any other
/// square has lost its value (its cache is kept, as the display expects).
pub open spec fn cleared_square(pre: SudokuSquare, post: SudokuSquare) -> bool {
    if pre.given {
        post == pre
    } else {
        post.value is None && post.given == false && post.options == pre.options
    }
}

/// `post` is `pre` with every unprotected square emptied, the solved flag
/// cleared, and the status line emptied.
pub open spec fn clear_rel(pre: Sudoku, post: Sudoku) -> bool {
    &&& post.grid@.len() == pre.grid@.len()
    &&& forall|i: int|
        0 <= i < pre.grid@.len() ==> (#[trigger] post.grid@[i])@.len() == pre.grid@[i]@.len()
    &&& forall|i: int, j: int|
        0 <= i < 9 && 0 <= j < 9 ==> cleared_square(
            pre.square_at(i, j),
            #[trigger] post.square_at(i, j),
        )
    &&& post.solved == false
    &&& post.status@ == Seq::<char>::empty()
}

/// A board of eighty-one unfilled, unprotected squares with empty caches,
/// not solved, with an empty status line.
pub open spec fn board_blank(s: Sudoku) -> bool {
    &&& s.grid@.len() == 9
    &&& forall|i: int| 0 <= i < 9 ==> (#[trigger] s.grid@[i])@.len() == 9
    &&& forall|i: int, j: int|
        0 <= i < 9 && 0 <= j < 9 ==> (#[trigger] s.square_at(i, j)).value is None && s.square_at(
            i,
            j,
        ).given == false && s.square_at(i, j).options@.len() == 0
    &&& s.solved == false
    &&& s.status@ == Seq::<char>::empty()
}

/// `post` is `pre` with the candidate cache of every unfilled square
/// recomputed from `pre`'s assignments; values, `given` flags, the caches of
/// filled squares, and the solved and status fields are untouched.
pub open spec fn refresh_all_rel(pre: Sudoku, post: Sudoku) -> bool {
    &&& post.grid@.len() == pre.grid@.len()
    &&& forall|i: int|
        0 <= i < pre.grid@.len() ==> (#[trigger] post.grid@[i])@.len() == pre.grid@[i]@.len()
    &&& forall|i: int, j: int|
        0 <= i < 9 && 0 <= j < 9 ==> if pre.value_at(i, j) is None {
            (#[trigger] post.square_at(i, j)).value is None && post.square_at(i, j).given
                == pre.square_at(i, j).given && post.square_at(i, j).options@ == pre.candidate_seq(
                i,
                j,
            )
        } else {
            post.square_at(i, j) == pre.square_at(i, j)
        }
    &&& post.solved == pre.solved
    &&& post.status == pre.status
}

impl Sudoku {
    /// Freezes the puzzle as entered: every filled square becomes a given,
    /// immune to `clear_non_givens`.
    #[verifier::loop_isolation(false)]
    pub fn lock_givens(&mut self)
        requires
            old(self).grid_wf(),
        ensures
            final(self).grid_wf(),
            lock_rel(*old(self), *final(self)),
    {
        let mut r: usize = 0;
        while r < 9
            invariant
                self.grid_wf(),
                r <= 9,
                self.solved == old(self).solved,
                self.status == old(self).status,
                forall|i: int, j: int|
                    0 <= i < 9 && 0 <= j < 9 ==> if i < r {
                        locked_square(old(self).square_at(i, j), #[trigger] self.square_at(i, j))
                    } else {
                        self.square_at(i, j) == old(self).square_at(i, j)
                    },
            decreases 9 - r,
        {
            let mut c: usize = 0;
            while c < 9
                invariant
                    self.grid_wf(),
                    r < 9,
                    c <= 9,
                    self.solved == old(self).solved,
                    self.status == old(self).status,
                    forall|i: int, j: int|
                        0 <= i < 9 && 0 <= j < 9 ==> if i < r || (i == r && j < c) {
                            locked_square(
                                old(self).square_at(i, j),
                                #[trigger] self.square_at(i, j),
                            )
                        } else {
                            self.square_at(i, j) == old(self).square_at(i, j)
                        },
                decreases 9 - c,
            {
                let ghost prev = *self;
                if self.grid[r][c].value.is_some() {
                    self.grid[r][c].given = true;
                    proof {
                        assert forall|i: int, j: int|
                            0 <= i < 9 && 0 <= j < 9 && !(i == r as int && j == c as int)
                            implies #[trigger] self.square_at(i, j) == prev.square_at(i, j) by {
                            if i != r as int {
                                assert(self.grid@[i] == prev.grid@[i]);
                            }
                        }
                        assert forall|i: int, j: int| 0 <= i < 9 && 0 <= j < 9
                            implies #[trigger] self.value_at(i, j) == prev.value_at(i, j) by {
                            if !(i == r as int && j == c as int) {
                                assert(self.square_at(i, j) == prev.square_at(i, j));
                            }
                        }
                    }
                }
                c += 1;
            }
            r += 1;
        }
    }

    /// Empties every square not marked as a given; protected squares are
    /// untouched.  Clears the solved flag and the status line.
    #[verifier::loop_isolation(false)]
    pub fn clear_non_givens(&mut self)
        requires
            old(self).grid_wf(),
        ensures
            final(self).grid_wf(),
            clear_rel(*old(self), *final(self)),
    {
        let mut r: usize = 0;
        while r < 9
            invariant
                self.grid_wf(),
                r <= 9,
                self.solved == old(self).solved,
                self.status == old(self).status,
                forall|i: int, j: int|
                    0 <= i < 9 && 0 <= j < 9 ==> if i < r {
                        cleared_square(old(self).square_at(i, j), #[trigger] self.square_at(i, j))
                    } else {
                        self.square_at(i, j) == old(self).square_at(i, j)
                    },
            decreases 9 - r,
        {
            let mut c: usize = 0;
            while c < 9
                invariant
                    self.grid_wf(),
                    r < 9,
                    c <= 9,
                    self.solved == old(self).solved,
                    self.status == old(self).status,
                    forall|i: int, j: int|
                        0 <= i < 9 && 0 <= j < 9 ==> if i < r || (i == r && j < c) {
                            cleared_square(
                                old(self).square_at(i, j),
                                #[trigger] self.square_at(i, j),
                            )
                        } else {
                            self.square_at(i, j) == old(self).square_at(i, j)
                        },
                decreases 9 - c,
            {
                let ghost prev = *self;
                if !self.grid[r][c].given {
                    self.grid[r][c].value = None;
                    self.grid[r][c].given = false;
                    proof {
                        assert forall|i: int, j: int|
                            0 <= i < 9 && 0 <= j < 9 && !(i == r as int && j == c as int)
                            implies #[trigger] self.square_at(i, j) == prev.square_at(i, j) by {
                            if i != r as int {
                                assert(self.grid@[i] == prev.grid@[i]);
                            }
                        }
                        assert(self.square_at(r as int, c as int).value is None);
                        assert(self.square_at(r as int, c as int).given == false);
                        assert(self.square_at(r as int, c as int).options == prev.square_at(
                            r as int,
                            c as int,
                        ).options);
                        assert forall|i: int, j: int|
                            0 <= i < 9 && 0 <= j < 9 && (#[trigger] self.value_at(i, j)) is Some
                            implies self.value_at(i, j) == prev.value_at(i, j) by {
                            if !(i == r as int && j == c as int) {
                                assert(self.square_at(i, j) == prev.square_at(i, j));
                            }
                        }
                    }
                }
                c += 1;
            }
            r += 1;
        }
        let ghost mid = *self;
        self.solved = false;
        self.status = String::new();
        proof {
            crate::board::lemma_same_grid_wf(mid, *self);
            assert forall|i: int, j: int| 0 <= i < 9 && 0 <= j < 9
                implies #[trigger] self.square_at(i, j) == mid.square_at(i, j) by {
                assert(self.grid == mid.grid);
            }
        }
    }

    /// Replaces the whole board by a blank grid for manual entry.
    pub fn reset_board(&mut self)
        ensures
            final(self).grid_wf(),
            board_blank(*final(self)),
    {
        let mut grid: Vec<Vec<SudokuSquare>> = Vec::new();
        let mut r: usize = 0;
        while r < 9
            invariant
                r <= 9,
                grid@.len() == r,
                forall|i: int| 0 <= i < r ==> (#[trigger] grid@[i])@.len() == 9,
                forall|i: int, j: int|
                    0 <= i < r && 0 <= j < 9 ==> (#[trigger] grid@[i]@[j]).value is None
                        && grid@[i]@[j].given == false && grid@[i]@[j].options@.len() == 0,
            decreases 9 - r,
        {
            let mut row: Vec<SudokuSquare> = Vec::new();
            let mut c: usize = 0;
            while c < 9
                invariant
                    c <= 9,
                    row@.len() == c,
                    forall|j: int|
                        0 <= j < c ==> (#[trigger] row@[j]).value is None && row@[j].given == false
                            && row@[j].options@.len() == 0,
                decreases 9 - c,
            {
                row.push(SudokuSquare { value: None, options: Vec::new(), given: false });
                c += 1;
            }
            grid.push(row);
            r += 1;
        }
        self.grid = grid;
        self.solved = false;
        self.status = String::new();
    }

    /// Recomputes the candidate cache of every unfilled square for display,
    /// assigning nothing.
    #[verifier::loop_isolation(false)]
    pub fn refresh_all_candidates(&mut self)
        requires
            old(self).grid_wf(),
        ensures
            final(self).grid_wf(),
            refresh_all_rel(*old(self), *final(self)),
    {
        let mut r: usize = 0;
        while r < 9
            invariant
                self.grid_wf(),
                r <= 9,
                self.solved == old(self).solved,
                self.status == old(self).status,
                forall|i: int, j: int|
                    0 <= i < 9 && 0 <= j < 9 ==> #[trigger] self.value_at(i, j) == old(
                        self,
                    ).value_at(i, j),
                forall|i: int, j: int|
                    0 <= i < 9 && 0 <= j < 9 ==> (#[trigger] self.square_at(i, j)).value == old(
                        self,
                    ).square_at(i, j).value,
                forall|i: int, j: int|
                    0 <= i < 9 && 0 <= j < 9 ==> if i < r && old(self).value_at(i, j) is None {
                        (#[trigger] self.square_at(i, j)).value is None && self.square_at(
                            i,
                            j,
                        ).given == old(self).square_at(i, j).given && self.square_at(
                            i,
                            j,
                        ).options@ == old(self).candidate_seq(i, j)
                    } else {
                        self.square_at(i, j) == old(self).square_at(i, j)
                    },
            decreases 9 - r,
        {
            let mut c: usize = 0;
            while c < 9
                invariant
                    self.grid_wf(),
                    r < 9,
                    c <= 9,
                    self.solved == old(self).solved,
                    self.status == old(self).status,
                    forall|i: int, j: int|
                        0 <= i < 9 && 0 <= j < 9 ==> #[trigger] self.value_at(i, j) == old(
                            self,
                        ).value_at(i, j),
                    forall|i: int, j: int|
                        0 <= i < 9 && 0 <= j < 9 ==> (#[trigger] self.square_at(i, j)).value
                            == old(self).square_at(i, j).value,
                    forall|i: int, j: int|
                        0 <= i < 9 && 0 <= j < 9 ==> if (i < r || (i == r && j < c)) && old(
                            self,
                        ).value_at(i, j) is None {
                            (#[trigger] self.square_at(i, j)).value is None && self.square_at(
                                i,
                                j,
                            ).given == old(self).square_at(i, j).given && self.square_at(
                                i,
                                j,
                            ).options@ == old(self).candidate_seq(i, j)
                        } else {
                            self.square_at(i, j) == old(self).square_at(i, j)
                        },
                decreases 9 - c,
            {
                let ghost prev = *self;
                if self.grid[r][c].value.is_none() {
                    self.update_options(r, c);
                    proof {
                        assert(refresh_rel(prev, *self, r as int, c as int));
                        lemma_candidates_congruent(prev, *old(self), r as int, c as int, 1);
                        assert(self.square_at(r as int, c as int).options@ == old(
                            self,
                        ).candidate_seq(r as int, c as int));
                        assert forall|i: int, j: int| 0 <= i < 9 && 0 <= j < 9
                            implies #[trigger] self.value_at(i, j) == prev.value_at(i, j) by {
                            if !(i == r as int && j == c as int) {
                                assert(self.square_at(i, j) == prev.square_at(i, j));
                            } else {
                                assert(self.square_at(i, j).value == prev.square_at(i, j).value);
                            }
                        }
                    }
                }
                c += 1;
            }
            r += 1;
        }
    }
}

} // verus!
