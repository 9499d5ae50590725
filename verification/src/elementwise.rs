//! Element-wise maps and binary combinators over the logical region.
//!
//! These operate only on logical elements; padding is regenerated as
//! `T::default()` so it can never leak into a result. On hardware these map to
//! the vector unit, which is why they preserve tiling exactly.

use crate::error::LatticeError;
use crate::lattice::{is_default, PaddedTileLattice};
use vstd::prelude::*;

verus! {

broadcast use PaddedTileLattice::lemma_view_dims;

impl<T: Copy + Default> PaddedTileLattice<T> {
    /// Apply `f` to every logical element, returning a new lattice of the same shape.
    pub fn map<U, F>(&self, f: F) -> (out: PaddedTileLattice<U>) where
        U: Copy + Default,
        F: FnMut(&T) -> U,

        requires
            self.wf(),
            forall|r: int, c: int|
                0 <= r < self.spec_rows() && 0 <= c < self.spec_cols() ==> call_requires(
                    f,
                    (&#[trigger] self@[r][c],),
                ),
        ensures
            out.wf(),
            out.spec_rows() == self.spec_rows(),
            out.spec_cols() == self.spec_cols(),
            out.spec_geometry() == self.spec_geometry(),
            forall|r: int, c: int|
                0 <= r < self.spec_rows() && 0 <= c < self.spec_cols() ==> call_ensures(
                    f,
                    (&self@[r][c],),
                    #[trigger] out@[r][c],
                ),
            // Padding is regenerated as the default value, so it never leaks.
            exists|d: U| is_default(d) && out.padding_is(d),
    {
        let mut g = f;
        self.shape_facts();
        let rows = self.rows();
        let cols = self.cols();
        let mut out = PaddedTileLattice::<U>::zeroed(rows, cols, *self.geometry()).unwrap();
        let ghost d = choose|d: U| is_default(d) && out.padding_is(d);
        let mut row: usize = 0;
        while row < rows
            invariant
                g == f,
                row <= rows,
                rows == self.spec_rows(),
                cols == self.spec_cols(),
                self.wf(),
                out.wf(),
                out.spec_rows() == rows,
                out.spec_cols() == cols,
                out.spec_geometry() == self.spec_geometry(),
                is_default(d),
                out.padding_is(d),
                forall|r: int, c: int|
                    0 <= r < rows && 0 <= c < cols ==> call_requires(f, (&#[trigger] self@[r][c],)),
                forall|r: int, c: int|
                    0 <= r < row && 0 <= c < cols ==> call_ensures(
                        f,
                        (&self@[r][c],),
                        #[trigger] out@[r][c],
                    ),
            decreases rows - row,
        {
            let mut col: usize = 0;
            while col < cols
                invariant
                    g == f,
                    row < rows,
                    col <= cols,
                    rows == self.spec_rows(),
                    cols == self.spec_cols(),
                    self.wf(),
                    out.wf(),
                    out.spec_rows() == rows,
                    out.spec_cols() == cols,
                    out.spec_geometry() == self.spec_geometry(),
                    is_default(d),
                    out.padding_is(d),
                    forall|r: int, c: int|
                        0 <= r < rows && 0 <= c < cols ==> call_requires(
                            f,
                            (&#[trigger] self@[r][c],),
                        ),
                    forall|r: int, c: int|
                        (0 <= r < row && 0 <= c < cols) || (r == row && 0 <= c < col)
                            ==> call_ensures(f, (&self@[r][c],), #[trigger] out@[r][c]),
                decreases cols - col,
            {
                let x = self.get(row, col).unwrap();
                let mapped = g(x);
                out.set(row, col, mapped).unwrap();
                col = col + 1;
            }
            row = row + 1;
        }
        out
    }

    /// Apply `f` to every logical element in place.
    pub fn map_in_place<F>(&mut self, f: F) where F: FnMut(&T) -> T
        requires
            old(self).wf(),
            forall|r: int, c: int|
                0 <= r < old(self).spec_rows() && 0 <= c < old(self).spec_cols() ==> call_requires(
                    f,
                    (&#[trigger] old(self)@[r][c],),
                ),
        ensures
            final(self).wf(),
            final(self).spec_rows() == old(self).spec_rows(),
            final(self).spec_cols() == old(self).spec_cols(),
            final(self).spec_geometry() == old(self).spec_geometry(),
            forall|r: int, c: int|
                0 <= r < old(self).spec_rows() && 0 <= c < old(self).spec_cols() ==> call_ensures(
                    f,
                    (&old(self)@[r][c],),
                    #[trigger] final(self)@[r][c],
                ),
            // Only logical elements are rewritten: padding slots keep their values.
            final(self).spec_shape() == old(self).spec_shape(),
            final(self).spec_layout() == old(self).spec_layout(),
            forall|pr: int, pc: int|
                #[trigger] old(self).is_padding(pr, pc) ==> final(self).storage()[old(self).spec_layout().offset(pr, pc)]
                    == old(self).storage()[old(self).spec_layout().offset(pr, pc)],
    {
        let mut g = f;
        let ghost orig = self@;
        let rows = self.rows();
        let cols = self.cols();
        let mut row: usize = 0;
        while row < rows
            invariant
                g == f,
                row <= rows,
                rows == self.spec_rows(),
                cols == self.spec_cols(),
                self.wf(),
                self.spec_rows() == old(self).spec_rows(),
                self.spec_cols() == old(self).spec_cols(),
                self.spec_geometry() == old(self).spec_geometry(),
                self.spec_shape() == old(self).spec_shape(),
                self.spec_layout() == old(self).spec_layout(),
                forall|pr: int, pc: int|
                    #[trigger] old(self).is_padding(pr, pc) ==> self.storage()[old(self).spec_layout().offset(pr, pc)]
                        == old(self).storage()[old(self).spec_layout().offset(pr, pc)],
                orig == old(self)@,
                forall|r: int, c: int|
                    0 <= r < rows && 0 <= c < cols ==> call_requires(f, (&#[trigger] orig[r][c],)),
                forall|r: int, c: int|
                    0 <= r < row && 0 <= c < cols ==> call_ensures(
                        f,
                        (&orig[r][c],),
                        #[trigger] self@[r][c],
                    ),
                forall|r: int, c: int|
                    row <= r < rows && 0 <= c < cols ==> #[trigger] self@[r][c] == orig[r][c],
            decreases rows - row,
        {
            let mut col: usize = 0;
            while col < cols
                invariant
                    g == f,
                    row < rows,
                    col <= cols,
                    rows == self.spec_rows(),
                    cols == self.spec_cols(),
                    self.wf(),
                    self.spec_rows() == old(self).spec_rows(),
                    self.spec_cols() == old(self).spec_cols(),
                    self.spec_geometry() == old(self).spec_geometry(),
                    self.spec_shape() == old(self).spec_shape(),
                    self.spec_layout() == old(self).spec_layout(),
                    forall|pr: int, pc: int|
                        #[trigger] old(self).is_padding(pr, pc) ==> self.storage()[old(self).spec_layout().offset(pr, pc)]
                            == old(self).storage()[old(self).spec_layout().offset(pr, pc)],
                    orig == old(self)@,
                    forall|r: int, c: int|
                        0 <= r < rows && 0 <= c < cols ==> call_requires(
                            f,
                            (&#[trigger] orig[r][c],),
                        ),
                    forall|r: int, c: int|
                        (0 <= r < row && 0 <= c < cols) || (r == row && 0 <= c < col)
                            ==> call_ensures(f, (&orig[r][c],), #[trigger] self@[r][c]),
                    forall|r: int, c: int|
                        (row < r < rows && 0 <= c < cols) || (r == row && col <= c < cols)
                            ==> #[trigger] self@[r][c] == orig[r][c],
                decreases cols - col,
            {
                let x = *self.get(row, col).unwrap();
                let mapped = g(&x);
                let ghost prev = *self;
                self.set(row, col, mapped).unwrap();
                proof {
                    assert forall|pr: int, pc: int| #[trigger] old(self).is_padding(pr, pc) implies self.storage()[old(self).spec_layout().offset(pr, pc)]
                        == old(self).storage()[old(self).spec_layout().offset(pr, pc)] by {
                        assert(prev.is_padding(pr, pc));
                    }
                }
                col = col + 1;
            }
            row = row + 1;
        }
    }

    /// Combine two lattices element-wise with `f`. Both must share shape and
    /// geometry: a geometry mismatch is reported first, then a shape mismatch.
    pub fn zip_with<F>(&self, other: &PaddedTileLattice<T>, f: F) -> (r: Result<
        PaddedTileLattice<T>,
        LatticeError,
    >) where F: FnMut(&T, &T) -> T
        requires
            self.wf(),
            other.wf(),
            self.spec_rows() == other.spec_rows() && self.spec_cols() == other.spec_cols() ==> forall|
                r: int,
                c: int,
            |
                0 <= r < self.spec_rows() && 0 <= c < self.spec_cols() ==> call_requires(
                    f,
                    (&#[trigger] self@[r][c], &other@[r][c]),
                ),
        ensures
            self.spec_geometry() != other.spec_geometry() ==> r == Err::<
                PaddedTileLattice<T>,
                LatticeError,
            >(LatticeError::GeometryMismatch),
            self.spec_geometry() == other.spec_geometry() && (self.spec_rows() != other.spec_rows()
                || self.spec_cols() != other.spec_cols()) ==> r == Err::<
                PaddedTileLattice<T>,
                LatticeError,
            >(
                LatticeError::ContractionMismatch {
                    lhs_cols: self.spec_cols(),
                    rhs_rows: other.spec_rows(),
                },
            ),
            self.spec_geometry() == other.spec_geometry() && self.spec_rows() == other.spec_rows()
                && self.spec_cols() == other.spec_cols() ==> (r matches Ok(out) && out.wf()
                && out.spec_rows() == self.spec_rows() && out.spec_cols() == self.spec_cols()
                && out.spec_geometry() == self.spec_geometry() && forall|i: int, j: int|
                0 <= i < self.spec_rows() && 0 <= j < self.spec_cols() ==> call_ensures(
                f,
                (&self@[i][j], &other@[i][j]),
                #[trigger] out@[i][j],
            )),
            // Padding is regenerated as the default value, so it never leaks.
            self.spec_geometry() == other.spec_geometry() && self.spec_rows() == other.spec_rows()
                && self.spec_cols() == other.spec_cols() ==> (r matches Ok(out) && exists|d: T| is_default(d)
                && out.padding_is(d)),
    {
        let mut g = f;
        if self.geometry() != other.geometry() {
            return Err(LatticeError::GeometryMismatch);
        }
        if self.rows() != other.rows() || self.cols() != other.cols() {
            return Err(LatticeError::ContractionMismatch { lhs_cols: self.cols(), rhs_rows: other.rows() });
        }
        self.shape_facts();
        let rows = self.rows();
        let cols = self.cols();
        let mut out = PaddedTileLattice::<T>::zeroed(rows, cols, *self.geometry()).unwrap();
        let ghost d = choose|d: T| is_default(d) && out.padding_is(d);
        let mut row: usize = 0;
        while row < rows
            invariant
                g == f,
                is_default(d),
                out.padding_is(d),
                row <= rows,
                rows == self.spec_rows(),
                cols == self.spec_cols(),
                rows == other.spec_rows(),
                cols == other.spec_cols(),
                self.wf(),
                other.wf(),
                out.wf(),
                out.spec_rows() == rows,
                out.spec_cols() == cols,
                out.spec_geometry() == self.spec_geometry(),
                forall|r: int, c: int|
                    0 <= r < rows && 0 <= c < cols ==> call_requires(
                        f,
                        (&#[trigger] self@[r][c], &other@[r][c]),
                    ),
                forall|r: int, c: int|
                    0 <= r < row && 0 <= c < cols ==> call_ensures(
                        f,
                        (&self@[r][c], &other@[r][c]),
                        #[trigger] out@[r][c],
                    ),
            decreases rows - row,
        {
            let mut col: usize = 0;
            while col < cols
                invariant
                    g == f,
                    is_default(d),
                    out.padding_is(d),
                    row < rows,
                    col <= cols,
                    rows == self.spec_rows(),
                    cols == self.spec_cols(),
                    rows == other.spec_rows(),
                    cols == other.spec_cols(),
                    self.wf(),
                    other.wf(),
                    out.wf(),
                    out.spec_rows() == rows,
                    out.spec_cols() == cols,
                    out.spec_geometry() == self.spec_geometry(),
                    forall|r: int, c: int|
                        0 <= r < rows && 0 <= c < cols ==> call_requires(
                            f,
                            (&#[trigger] self@[r][c], &other@[r][c]),
                        ),
                    forall|r: int, c: int|
                        (0 <= r < row && 0 <= c < cols) || (r == row && 0 <= c < col)
                            ==> call_ensures(
                            f,
                            (&self@[r][c], &other@[r][c]),
                            #[trigger] out@[r][c],
                        ),
                decreases cols - col,
            {
                let a = self.get(row, col).unwrap();
                let b = other.get(row, col).unwrap();
                let combined = g(a, b);
                out.set(row, col, combined).unwrap();
                col = col + 1;
            }
            row = row + 1;
        }
        Ok(out)
    }
}

} // verus!
