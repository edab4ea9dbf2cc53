//! A dense row-major two-dimensional buffer of fixed-point probabilities.
//!
//! The decoders use one of these as the per-beam-slot probability scratch:
//! two columns per slot, one for blank-ending and one for non-blank-ending
//! path mass. The view of a buffer is the sequence of its rows, each a
//! sequence of cells.

use vstd::prelude::*;

verus! {

/// A fixed-shape 2-D buffer of `u64` cells, stored row-major.
pub struct Vec2D {
    data: Vec<u64>,
    rows: usize,
    cols: usize,
}

impl View for Vec2D {
    type V = Seq<Seq<u64>>;

    closed spec fn view(&self) -> Seq<Seq<u64>> {
        Seq::new(
            self.rows as nat,
            |r: int| Seq::new(self.cols as nat, |c: int| self.data@[r * self.cols as int + c]),
        )
    }
}

/// Row and column indices lie inside the flat buffer.
proof fn lemma_flat_index(r: int, c: int, rows: int, cols: int)
    requires
        0 <= r < rows,
        0 <= c < cols,
    ensures
        0 <= r * cols + c < rows * cols,
{
    assert(0 <= r * cols + c < rows * cols) by (nonlinear_arith)
        requires 0 <= r < rows, 0 <= c < cols,
    ;
}

/// Two distinct (row, column) pairs occupy distinct flat positions.
proof fn lemma_flat_index_injective(r1: int, c1: int, r2: int, c2: int, cols: int)
    requires
        0 <= c1 < cols,
        0 <= c2 < cols,
        0 <= r1,
        0 <= r2,
        r1 * cols + c1 == r2 * cols + c2,
    ensures
        r1 == r2 && c1 == c2,
{
    assert(r1 == r2 && c1 == c2) by (nonlinear_arith)
        requires
            0 <= c1 < cols,
            0 <= c2 < cols,
            0 <= r1,
            0 <= r2,
            r1 * cols + c1 == r2 * cols + c2,
    ;
}

impl Vec2D {
    /// The flat buffer matches the declared shape.
    pub closed spec fn wf(&self) -> bool {
        self.data@.len() == self.rows * self.cols
    }

    /// The number of rows.
    pub fn rows(&self) -> (r: usize)
        ensures r == self@.len(),
    {
        self.rows
    }

    /// The number of columns.
    pub fn cols(&self) -> (r: usize)
        requires self.wf(),
        ensures self@.len() > 0 ==> r == self@[0].len(),
                r == self.spec_cols(),
    {
        self.cols
    }

    /// The declared column count, for use in contracts.
    pub closed spec fn spec_cols(&self) -> int {
        self.cols as int
    }

    /// Builds a `rows` by `cols` buffer with every cell set to `fill`.
    pub fn new(rows: usize, cols: usize, fill: u64) -> (out: Vec2D)
        requires
            rows * cols <= usize::MAX,
        ensures
            out.wf(),
            out@.len() == rows,
            out.spec_cols() == cols,
            forall|r: int, c: int| 0 <= r < rows && 0 <= c < cols ==> out@[r][c] == fill,
    {
        proof {
            assert(rows * cols >= 0) by (nonlinear_arith) requires 0 <= rows, 0 <= cols,;
        }
        let n = rows * cols;
        let mut data: Vec<u64> = Vec::new();
        let mut i: usize = 0;
        while i < n
            invariant
                i <= n,
                data@.len() == i,
                forall|j: int| 0 <= j < i ==> data@[j] == fill,
            decreases n - i,
        {
            data.push(fill);
            i += 1;
        }
        let out = Vec2D { data, rows, cols };
        proof {
            assert forall|r: int, c: int| 0 <= r < rows && 0 <= c < cols implies out@[r][c] == fill by {
                lemma_flat_index(r, c, rows as int, cols as int);
            }
        }
        out
    }

    /// Reads the cell at (`r`, `c`).
    pub fn get(&self, r: usize, c: usize) -> (v: u64)
        requires
            self.wf(),
            r < self@.len(),
            c < self.spec_cols(),
        ensures
            v == self@[r as int][c as int],
    {
        let n = self.data.len();
        proof {
            lemma_flat_index(r as int, c as int, self.rows as int, self.cols as int);
            assert((r as int) * (self.cols as int) + (c as int) < n as int);
        }
        self.data[r * self.cols + c]
    }

    /// Writes `v` into the cell at (`r`, `c`); every other cell is kept.
    pub fn set(&mut self, r: usize, c: usize, v: u64)
        requires
            old(self).wf(),
            r < old(self)@.len(),
            c < old(self).spec_cols(),
        ensures
            final(self).wf(),
            final(self)@ == old(self)@.update(r as int, old(self)@[r as int].update(c as int, v)),
            final(self)@.len() == old(self)@.len(),
            final(self).spec_cols() == old(self).spec_cols(),
    {
        let n = self.data.len();
        proof {
            lemma_flat_index(r as int, c as int, self.rows as int, self.cols as int);
            assert((r as int) * (self.cols as int) + (c as int) < n as int);
        }
        let i = r * self.cols + c;
        self.data.set(i, v);
        proof {
            let target = old(self)@.update(r as int, old(self)@[r as int].update(c as int, v));
            assert forall|rr: int| 0 <= rr < self.rows implies self@[rr] =~= target[rr] by {
                assert forall|cc: int| 0 <= cc < self.cols implies
                    self@[rr][cc] == target[rr][cc] by {
                    lemma_flat_index(rr, cc, self.rows as int, self.cols as int);
                    if rr * self.cols as int + cc == i as int {
                        lemma_flat_index_injective(rr, cc, r as int, c as int, self.cols as int);
                    }
                }
            }
            assert(self@ =~= target);
        }
    }

    /// Sets every cell to `fill`, keeping the shape.
    pub fn reset(&mut self, fill: u64)
        requires
            old(self).wf(),
        ensures
            final(self).wf(),
            final(self)@.len() == old(self)@.len(),
            final(self).spec_cols() == old(self).spec_cols(),
            forall|r: int, c: int|
                0 <= r < final(self)@.len() && 0 <= c < final(self).spec_cols() ==> final(self)@[r][c] == fill,
    {
        let n = self.data.len();
        let mut i: usize = 0;
        while i < n
            invariant
                i <= n,
                n == self.data@.len(),
                self.data@.len() == old(self).data@.len(),
                self.rows == old(self).rows,
                self.cols == old(self).cols,
                forall|j: int| 0 <= j < i ==> self.data@[j] == fill,
            decreases n - i,
        {
            self.data.set(i, fill);
            i += 1;
        }
        proof {
            assert forall|r: int, c: int|
                0 <= r < self@.len() && 0 <= c < self.spec_cols() implies self@[r][c] == fill by {
                lemma_flat_index(r, c, self.rows as int, self.cols as int);
            }
        }
    }

    /// Swaps rows `r1` and `r2` in place.
    pub fn swap_rows(&mut self, r1: usize, r2: usize)
        requires
            old(self).wf(),
            r1 < old(self)@.len(),
            r2 < old(self)@.len(),
        ensures
            final(self).wf(),
            final(self)@ == old(self)@.update(r1 as int, old(self)@[r2 as int])
                                      .update(r2 as int, old(self)@[r1 as int]),
            final(self)@.len() == old(self)@.len(),
            final(self).spec_cols() == old(self).spec_cols(),
    {
        let row1 = self.row(r1);
        let row2 = self.row(r2);
        let cols = self.cols();
        let mut c: usize = 0;
        while c < cols
            invariant
                c <= cols,
                self.wf(),
                cols == self.spec_cols(),
                self.spec_cols() == old(self).spec_cols(),
                self@.len() == old(self)@.len(),
                r1 < self@.len(),
                r2 < self@.len(),
                row1@ == old(self)@[r1 as int],
                row2@ == old(self)@[r2 as int],
                row1@.len() == cols,
                row2@.len() == cols,
                forall|cc: int| 0 <= cc < c ==> #[trigger] self@[r1 as int][cc] == old(self)@[r2 as int][cc],
                forall|cc: int| 0 <= cc < c ==> #[trigger] self@[r2 as int][cc] == old(self)@[r1 as int][cc],
                forall|cc: int| c <= cc < cols ==> #[trigger] self@[r1 as int][cc] == old(self)@[r1 as int][cc],
                forall|cc: int| c <= cc < cols ==> #[trigger] self@[r2 as int][cc] == old(self)@[r2 as int][cc],
                forall|rr: int| 0 <= rr < self@.len() && rr != r1 && rr != r2
                    ==> #[trigger] self@[rr] == old(self)@[rr],
                forall|rr: int| 0 <= rr < self@.len() ==> (#[trigger] self@[rr]).len() == cols,
            decreases cols - c,
        {
            let a = row2[c];
            let b = row1[c];
            self.set(r1, c, a);
            self.set(r2, c, b);
            c += 1;
        }
        proof {
            let target = old(self)@.update(r1 as int, old(self)@[r2 as int])
                                   .update(r2 as int, old(self)@[r1 as int]);
            assert forall|rr: int| 0 <= rr < self@.len() implies self@[rr] =~= target[rr] by {
            }
            assert(self@ =~= target);
        }
    }

    /// Copies row `r` out as a vector.
    pub fn row(&self, r: usize) -> (out: Vec<u64>)
        requires
            self.wf(),
            r < self@.len(),
        ensures
            out@ == self@[r as int],
    {
        let cols = self.cols;
        let mut out: Vec<u64> = Vec::new();
        let mut c: usize = 0;
        while c < cols
            invariant
                c <= cols,
                cols == self.cols,
                self.wf(),
                r < self@.len(),
                out@.len() == c,
                forall|cc: int| 0 <= cc < c ==> out@[cc] == self@[r as int][cc],
            decreases cols - c,
        {
            let v = self.get(r, c);
            out.push(v);
            c += 1;
        }
        proof {
            assert(out@ =~= self@[r as int]);
        }
        out
    }
}

} // verus!
