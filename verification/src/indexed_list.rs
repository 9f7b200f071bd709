//! A 2-D container with a fixed column count and a dynamic row count,
//! backed by row-major flat storage.  Rows can be appended, inserted and
//! removed; elements are addressed by `(row, col)`.

use vstd::prelude::*;

verus! {

/// Row-major table of `T` with a fixed number of columns.
///
/// The view is the sequence of rows, each row a sequence of exactly
/// `spec_cols()` elements.
#[derive(Clone)]
pub struct IndexedList<T: Clone> {
    data: Vec<T>,
    n_cols: usize,
    n_rows: usize,
}

impl<T: Clone> View for IndexedList<T> {
    type V = Seq<Seq<T>>;

    closed spec fn view(&self) -> Seq<Seq<T>> {
        Seq::new(
            self.n_rows as nat,
            |r: int| self.data@.subrange(r * self.n_cols, (r + 1) * self.n_cols),
        )
    }
}

impl<T: Clone> IndexedList<T> {
    /// The flat storage holds exactly one slot per row and column.
    pub closed spec fn inv(&self) -> bool {
        self.data.len() == self.n_rows * self.n_cols
    }

    /// The fixed column count.
    pub closed spec fn spec_cols(&self) -> int {
        self.n_cols as int
    }

    /// Every row of the view has exactly `spec_cols()` entries.
    pub proof fn lemma_row_lens(&self)
        requires
            self.inv(),
        ensures
            forall|r: int| 0 <= r < self@.len() ==> (#[trigger] self@[r]).len() == self.spec_cols(),
    {
        assert forall|r: int| 0 <= r < self@.len() implies (#[trigger] self@[r]).len()
            == self.spec_cols() by {
            self.lemma_flat_bounds(r);
        }
    }

    /// Row `r` occupies the flat slots `r * cols .. (r + 1) * cols`.
    proof fn lemma_flat_bounds(&self, r: int)
        requires
            self.inv(),
            0 <= r < self.n_rows,
        ensures
            0 <= r * self.n_cols,
            (r + 1) * self.n_cols == r * self.n_cols + self.n_cols,
            (r + 1) * self.n_cols <= self.data@.len(),
            self@[r] == self.data@.subrange(r * self.n_cols, (r + 1) * self.n_cols),
            self@[r].len() == self.n_cols,
    {
        assert(0 <= r * self.n_cols && (r + 1) * self.n_cols == r * self.n_cols + self.n_cols && (r
            + 1) * self.n_cols <= self.n_rows * self.n_cols) by (nonlinear_arith)
            requires
                0 <= r < self.n_rows,
        ;
    }

    pub fn new(n_cols: usize) -> (s: Self)
        ensures
            s.inv(),
            s@ == Seq::<Seq<T>>::empty(),
            s.spec_cols() == n_cols,
    {
        let s = Self { data: Vec::new(), n_cols, n_rows: 0 };
        proof {
            assert(s@ =~= Seq::<Seq<T>>::empty());
        }
        s
    }

    /// The number of rows currently stored.
    pub fn num_rows(&self) -> (n: usize)
        ensures
            n == self@.len(),
    {
        self.n_rows
    }

    /// The fixed column count.
    pub fn cols(&self) -> (n: usize)
        ensures
            n == self.spec_cols(),
    {
        self.n_cols
    }

    /// The backing row-major storage.
    pub fn flat(&self) -> (d: &Vec<T>)
        requires
            self.inv(),
        ensures
            d@.len() == self@.len() * self.spec_cols(),
            forall|r: int, c: int|
                0 <= r < self@.len() && 0 <= c < self.spec_cols() ==> d@[r * self.spec_cols() + c]
                    == #[trigger] self@[r][c],
    {
        proof {
            assert forall|r: int, c: int|
                0 <= r < self@.len() && 0 <= c < self.spec_cols() implies self.data@[r
                * self.spec_cols() + c] == #[trigger] self@[r][c] by {
                self.lemma_flat_bounds(r);
            }
        }
        &self.data
    }

    /// Flat index of `(row, col)`.
    fn flat_idx(&self, row: usize, col: usize) -> (i: usize)
        requires
            self.inv(),
            row < self@.len(),
            col < self.spec_cols(),
        ensures
            i == row * self.spec_cols() + col,
            i < self.data@.len(),
            self.data@[i as int] == self@[row as int][col as int],
    {
        proof {
            self.lemma_flat_bounds(row as int);
            assert(row * self.n_cols + col < (row + 1) * self.n_cols) by (nonlinear_arith)
                requires
                    col < self.n_cols,
            ;
        }
        row * self.n_cols + col
    }

    /// Element at `(row, col)`; the bounds are the caller's obligation.
    pub fn get(&self, row: usize, col: usize) -> (e: &T)
        requires
            self.inv(),
            row < self@.len(),
            col < self.spec_cols(),
        ensures
            *e == self@[row as int][col as int],
    {
        let i = self.flat_idx(row, col);
        &self.data[i]
    }
}

impl<T: Copy> IndexedList<T> {
    /// Overwrite the element at `(row, col)`.
    pub fn set(&mut self, row: usize, col: usize, value: T)
        requires
            old(self).inv(),
            row < old(self)@.len(),
            col < old(self).spec_cols(),
        ensures
            final(self).inv(),
            final(self).spec_cols() == old(self).spec_cols(),
            final(self)@ == old(self)@.update(
                row as int,
                old(self)@[row as int].update(col as int, value),
            ),
    {
        let i = self.flat_idx(row, col);
        self.data.set(i, value);
        proof {
            let target = old(self)@.update(
                row as int,
                old(self)@[row as int].update(col as int, value),
            );
            assert forall|r: int| 0 <= r < self.n_rows implies self@[r] =~= target[r] by {
                self.lemma_flat_bounds(r);
                old(self).lemma_flat_bounds(r);
                assert forall|c: int| 0 <= c < self.n_cols implies self@[r][c] == target[r][c] by {
                    assert(r * self.n_cols + c < (r + 1) * self.n_cols && (r != row || c != col
                        ==> r * self.n_cols + c != row as int * self.n_cols + col) && (r == row && c
                        == col ==> r * self.n_cols + c == row as int * self.n_cols + col))
                        by (nonlinear_arith)
                        requires
                            0 <= c < self.n_cols,
                            0 <= col < self.n_cols,
                            0 <= r,
                            0 <= row,
                    ;
                }
            }
            assert(self@ =~~= target);
        }
    }

    /// Append a row at the bottom.
    pub fn push_row(&mut self, element: &Vec<T>)
        requires
            old(self).inv(),
            element@.len() == old(self).spec_cols(),
            old(self)@.len() < usize::MAX,
            old(self)@.len() * old(self).spec_cols() + old(self).spec_cols() <= usize::MAX,
        ensures
            final(self).inv(),
            final(self).spec_cols() == old(self).spec_cols(),
            final(self)@ == old(self)@.push(element@),
    {
        let ghost old_data = self.data@;
        proof {
            assert(self.data@ =~= old_data + element@.subrange(0, 0));
        }
        let mut i: usize = 0;
        while i < element.len()
            invariant
                i <= element@.len(),
                self.data@ == old_data + element@.subrange(0, i as int),
                self.n_cols == old(self).n_cols,
                self.n_rows == old(self).n_rows,
                element@.len() == self.n_cols,
                old_data.len() == self.n_rows * self.n_cols,
                old_data.len() + self.n_cols <= usize::MAX,
            decreases element@.len() - i,
        {
            self.data.push(element[i]);
            proof {
                assert(self.data@ =~= old_data + element@.subrange(0, i + 1));
            }
            i = i + 1;
        }
        proof {
            assert(element@.subrange(0, element@.len() as int) =~= element@);
        }
        self.n_rows = self.n_rows + 1;
        proof {
            let ghost orows = old(self).n_rows as int;
            assert(self.data.len() == self.n_rows * self.n_cols) by (nonlinear_arith)
                requires
                    self.data.len() == orows * self.n_cols + self.n_cols,
                    self.n_rows == orows + 1,
            ;
            let target = old(self)@.push(element@);
            assert forall|r: int| 0 <= r < self.n_rows implies self@[r] =~= target[r] by {
                self.lemma_flat_bounds(r);
                if r < old(self).n_rows {
                    old(self).lemma_flat_bounds(r);
                } else {
                    assert(r == old(self).n_rows);
                    assert(r * self.n_cols == old_data.len() && (r + 1) * self.n_cols
                        == old_data.len() + self.n_cols) by (nonlinear_arith)
                        requires
                            r == orows,
                            old_data.len() == orows * self.n_cols,
                    ;
                }
            }
            assert(self@ =~~= target);
        }
    }

    /// Insert a row at `index`, shifting the rows at `index` and below it down.
    pub fn insert_row(&mut self, index: usize, element: &Vec<T>)
        requires
            old(self).inv(),
            index <= old(self)@.len(),
            element@.len() == old(self).spec_cols(),
            old(self)@.len() < usize::MAX,
            old(self)@.len() * old(self).spec_cols() + old(self).spec_cols() <= usize::MAX,
        ensures
            final(self).inv(),
            final(self).spec_cols() == old(self).spec_cols(),
            final(self)@ == old(self)@.insert(index as int, element@),
    {
        let ghost old_data = self.data@;
        proof {
            assert(index * self.n_cols <= self.n_rows * self.n_cols) by (nonlinear_arith)
                requires
                    index <= self.n_rows,
                    0 <= self.n_cols,
            ;
        }
        let pos = index * self.n_cols;
        proof {
            assert(self.data@ =~= old_data.subrange(0, pos as int) + element@.subrange(0, 0)
                + old_data.subrange(pos as int, old_data.len() as int));
        }
        let mut i: usize = 0;
        while i < element.len()
            invariant
                i <= element@.len(),
                pos == index * self.n_cols,
                pos <= old_data.len(),
                self.data@ == old_data.subrange(0, pos as int) + element@.subrange(0, i as int)
                    + old_data.subrange(pos as int, old_data.len() as int),
                self.n_cols == old(self).n_cols,
                self.n_rows == old(self).n_rows,
                element@.len() == self.n_cols,
                old_data.len() == self.n_rows * self.n_cols,
                old_data.len() + self.n_cols <= usize::MAX,
            decreases element@.len() - i,
        {
            proof {
                assert(self.data@.len() == old_data.len() + i);
            }
            self.data.insert(pos + i, element[i]);
            proof {
                assert(self.data@ =~= old_data.subrange(0, pos as int) + element@.subrange(
                    0,
                    i + 1,
                ) + old_data.subrange(pos as int, old_data.len() as int));
            }
            i = i + 1;
        }
        self.n_rows = self.n_rows + 1;
        proof {
            assert(element@.subrange(0, element@.len() as int) =~= element@);
            let ghost orows = old(self).n_rows as int;
            assert(self.data.len() == self.n_rows * self.n_cols) by (nonlinear_arith)
                requires
                    self.data.len() == orows * self.n_cols + self.n_cols,
                    self.n_rows == orows + 1,
            ;
            let target = old(self)@.insert(index as int, element@);
            assert forall|r: int| 0 <= r < self.n_rows implies self@[r] =~= target[r] by {
                self.lemma_flat_bounds(r);
                if r < index {
                    old(self).lemma_flat_bounds(r);
                    assert((r + 1) * self.n_cols <= index * self.n_cols) by (nonlinear_arith)
                        requires
                            r < index,
                            0 <= self.n_cols,
                    ;
                } else if r == index {
                } else {
                    old(self).lemma_flat_bounds(r - 1);
                    assert(index * self.n_cols + self.n_cols <= r * self.n_cols && (r - 1)
                        * self.n_cols == r * self.n_cols - self.n_cols) by (nonlinear_arith)
                        requires
                            index < r,
                            0 <= self.n_cols,
                    ;
                }
            }
            assert(self@ =~~= target);
        }
    }

    /// Remove the row at `index`, shifting the rows below it up.
    pub fn remove_row(&mut self, index: usize)
        requires
            old(self).inv(),
            index < old(self)@.len(),
        ensures
            final(self).inv(),
            final(self).spec_cols() == old(self).spec_cols(),
            final(self)@ == old(self)@.remove(index as int),
    {
        let ghost old_data = self.data@;
        proof {
            old(self).lemma_flat_bounds(index as int);
        }
        let pos = index * self.n_cols;
        proof {
            assert(self.data@ =~= old_data.subrange(0, pos as int) + old_data.subrange(
                pos as int,
                old_data.len() as int,
            ));
        }
        let mut i: usize = 0;
        while i < self.n_cols
            invariant
                i <= self.n_cols,
                pos == index * self.n_cols,
                pos + self.n_cols <= old_data.len(),
                self.data@ == old_data.subrange(0, pos as int) + old_data.subrange(
                    pos + i,
                    old_data.len() as int,
                ),
                self.n_cols == old(self).n_cols,
                self.n_rows == old(self).n_rows,
                old_data.len() == self.n_rows * self.n_cols,
            decreases self.n_cols - i,
        {
            self.data.remove(pos);
            proof {
                assert(self.data@ =~= old_data.subrange(0, pos as int) + old_data.subrange(
                    pos + i + 1,
                    old_data.len() as int,
                ));
            }
            i = i + 1;
        }
        self.n_rows = self.n_rows - 1;
        proof {
            let ghost orows = old(self).n_rows as int;
            assert(self.data.len() == self.n_rows * self.n_cols) by (nonlinear_arith)
                requires
                    self.data.len() == orows * self.n_cols - self.n_cols,
                    self.n_rows == orows - 1,
                    orows >= 1,
            ;
            let target = old(self)@.remove(index as int);
            assert forall|r: int| 0 <= r < self.n_rows implies self@[r] =~= target[r] by {
                self.lemma_flat_bounds(r);
                if r < index {
                    old(self).lemma_flat_bounds(r);
                    assert((r + 1) * self.n_cols <= index * self.n_cols) by (nonlinear_arith)
                        requires
                            r < index,
                            0 <= self.n_cols,
                    ;
                } else {
                    old(self).lemma_flat_bounds(r + 1);
                    assert(index * self.n_cols + self.n_cols <= (r + 1) * self.n_cols && (r + 1)
                        * self.n_cols == r * self.n_cols + self.n_cols) by (nonlinear_arith)
                        requires
                            index <= r,
                            0 <= self.n_cols,
                    ;
                }
            }
            assert(self@ =~~= target);
        }
    }
}

} // verus!
