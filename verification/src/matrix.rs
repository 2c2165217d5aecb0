//! A dense row-major matrix of fixed-point values.

use vstd::prelude::*;

verus! {

/// Dense row-major matrix of fixed-point entries. Rows index tempo (or
/// frequency) bins, columns index time frames.
pub struct Matrix {
    pub rows: usize,
    pub cols: usize,
    pub data: Vec<i64>,
}

impl Matrix {
    /// The backing vector holds exactly `rows * cols` entries.
    pub open spec fn wf(self) -> bool {
        self.data@.len() == self.rows * self.cols
    }

    pub open spec fn spec_rows(self) -> int {
        self.rows as int
    }

    pub open spec fn spec_cols(self) -> int {
        self.cols as int
    }

    /// The entry in row `r`, column `c`.
    pub open spec fn entry(self, r: int, c: int) -> int {
        self.data@[r * self.cols + c] as int
    }

    /// Every entry lies within `[lo, hi]`.
    pub open spec fn entries_within(self, lo: int, hi: int) -> bool {
        forall|r: int, c: int|
            0 <= r < self.spec_rows() && 0 <= c < self.spec_cols()
                ==> lo <= #[trigger] self.entry(r, c) <= hi
    }

    proof fn lemma_index_in_range(self, r: int, c: int)
        requires
            self.wf(),
            0 <= r < self.spec_rows(),
            0 <= c < self.spec_cols(),
        ensures
            0 <= r * self.spec_cols() + c < self.data@.len(),
            r * self.spec_cols() + c == r * (self.cols as int) + c,
    {
        assert(r * self.spec_cols() + c < self.rows * self.cols) by (nonlinear_arith)
            requires
                0 <= r < self.rows as int,
                0 <= c < self.cols as int,
        ;
        assert(r * self.spec_cols() + c >= 0) by (nonlinear_arith)
            requires
                0 <= r,
                0 <= c,
                self.cols >= 0,
        ;
    }

    pub fn rows(&self) -> (r: usize)
        ensures
            r == self.spec_rows(),
    {
        self.rows
    }

    pub fn cols(&self) -> (c: usize)
        ensures
            c == self.spec_cols(),
    {
        self.cols
    }

    /// A matrix of zeros.
    pub fn zeros(rows: usize, cols: usize) -> (m: Matrix)
        requires
            rows * cols <= usize::MAX,
        ensures
            m.wf(),
            m.spec_rows() == rows,
            m.spec_cols() == cols,
            forall|r: int, c: int|
                0 <= r < rows && 0 <= c < cols ==> #[trigger] m.entry(r, c) == 0,
    {
        let n = rows * cols;
        let mut data: Vec<i64> = Vec::new();
        let mut i: usize = 0;
        while i < n
            invariant
                i <= n,
                data@.len() == i,
                forall|k: int| 0 <= k < i ==> #[trigger] data@[k] == 0i64,
            decreases n - i,
        {
            data.push(0);
            i += 1;
        }
        let m = Matrix { rows, cols, data };
        proof {
            assert forall|r: int, c: int|
                0 <= r < rows && 0 <= c < cols implies #[trigger] m.entry(r, c) == 0 by {
                m.lemma_index_in_range(r, c);
            }
        }
        m
    }

    /// Builds a matrix from a row-major data vector.
    pub fn from_data(rows: usize, cols: usize, data: Vec<i64>) -> (m: Matrix)
        requires
            data@.len() == rows * cols,
        ensures
            m.wf(),
            m.spec_rows() == rows,
            m.spec_cols() == cols,
            forall|r: int, c: int|
                0 <= r < rows && 0 <= c < cols
                    ==> #[trigger] m.entry(r, c) == data@[r * (cols as int) + c],
    {
        Matrix { rows, cols, data }
    }

    pub fn get(&self, r: usize, c: usize) -> (v: i64)
        requires
            self.wf(),
            r < self.spec_rows(),
            c < self.spec_cols(),
        ensures
            v == self.entry(r as int, c as int),
    {
        let _n = self.data.len();
        proof {
            self.lemma_index_in_range(r as int, c as int);
        }
        self.data[r * self.cols + c]
    }

    pub fn set(&mut self, r: usize, c: usize, v: i64)
        requires
            old(self).wf(),
            r < old(self).spec_rows(),
            c < old(self).spec_cols(),
        ensures
            final(self).wf(),
            final(self).spec_rows() == old(self).spec_rows(),
            final(self).spec_cols() == old(self).spec_cols(),
            final(self).entry(r as int, c as int) == v,
            forall|i: int, j: int|
                0 <= i < old(self).spec_rows() && 0 <= j < old(self).spec_cols()
                    && !(i == r && j == c)
                    ==> #[trigger] final(self).entry(i, j) == old(self).entry(i, j),
    {
        let _n = self.data.len();
        proof {
            self.lemma_index_in_range(r as int, c as int);
        }
        let idx = r * self.cols + c;
        self.data.set(idx, v);
        proof {
            assert forall|i: int, j: int|
                0 <= i < self.spec_rows() && 0 <= j < self.spec_cols() && !(i == r && j == c)
                    implies #[trigger] self.entry(i, j) == old(self).entry(i, j) by {
                self.lemma_index_in_range(i, j);
                if i * self.spec_cols() + j == r * self.spec_cols() + c {
                    assert(i == r && j == c) by (nonlinear_arith)
                        requires
                            0 <= j < self.cols as int,
                            0 <= c < self.cols as int,
                            0 <= i,
                            0 <= r,
                            i * (self.cols as int) + j == r * (self.cols as int) + c,
                    ;
                }
            }
        }
    }
}

} // verus!
