//! Logical and padded shapes.
//!
//! Every lattice tracks two shapes at once: the *logical* shape the user cares
//! about, and the *padded* shape the hardware actually stores. Keeping both lets
//! the lattice mask away the padding when it converts back to a dense view.

use crate::geometry::{lemma_round_up, lemma_round_up_mono, spec_round_up, Geometry};
use vstd::prelude::*;

verus! {

/// A two-dimensional shape together with the padding implied by a [`Geometry`].
#[derive(Clone, Copy, Debug, PartialEq, Eq, Structural)]
pub struct Shape {
    /// The number of rows the user asked for.
    pub rows: usize,
    /// The number of columns the user asked for.
    pub cols: usize,
    /// The row count after padding up to a sublane-tile boundary.
    pub padded_rows: usize,
    /// The column count after padding up to a lane-tile boundary.
    pub padded_cols: usize,
}

/// The padded shape that a logical `rows x cols` takes on under `geom`.
pub open spec fn spec_shape(rows: int, cols: int, geom: Geometry) -> Shape {
    Shape {
        rows: rows as usize,
        cols: cols as usize,
        padded_rows: spec_round_up(rows, geom.sublanes as int) as usize,
        padded_cols: spec_round_up(cols, geom.lanes as int) as usize,
    }
}

/// Whether a logical `rows x cols` can be padded under `geom` without the padded
/// dimensions or the padded element count overflowing `usize`.
pub open spec fn shape_fits(rows: int, cols: int, geom: Geometry) -> bool {
    &&& geom.wf()
    &&& 0 <= rows
    &&& 0 <= cols
    &&& spec_round_up(rows, geom.sublanes as int) <= usize::MAX
    &&& spec_round_up(cols, geom.lanes as int) <= usize::MAX
    &&& spec_round_up(rows, geom.sublanes as int) * spec_round_up(cols, geom.lanes as int)
        <= usize::MAX
}

/// Padding never shrinks a dimension and always lands on a tile boundary; the
/// padded dimensions fit in `usize` whenever their product does.
pub proof fn lemma_shape_fits(rows: int, cols: int, geom: Geometry)
    requires
        shape_fits(rows, cols, geom),
    ensures
        rows <= spec_round_up(rows, geom.sublanes as int) < rows + geom.sublanes,
        cols <= spec_round_up(cols, geom.lanes as int) < cols + geom.lanes,
        spec_round_up(rows, geom.sublanes as int) % (geom.sublanes as int) == 0,
        spec_round_up(cols, geom.lanes as int) % (geom.lanes as int) == 0,
        rows * cols <= usize::MAX,
{
    lemma_round_up(rows as nat, geom.sublanes as nat);
    lemma_round_up(cols as nat, geom.lanes as nat);
    let pr = spec_round_up(rows, geom.sublanes as int);
    let pc = spec_round_up(cols, geom.lanes as int);
    assert(rows * cols <= pr * pc) by (nonlinear_arith)
        requires
            0 <= rows <= pr,
            0 <= cols <= pc,
    ;
}

/// A shape no larger than one that fits also fits.
pub proof fn lemma_shape_fits_mono(rows: int, cols: int, rows2: int, cols2: int, geom: Geometry)
    requires
        shape_fits(rows2, cols2, geom),
        0 <= rows <= rows2,
        0 <= cols <= cols2,
    ensures
        shape_fits(rows, cols, geom),
{
    lemma_round_up_mono(rows as nat, rows2 as nat, geom.sublanes as nat);
    lemma_round_up_mono(cols as nat, cols2 as nat, geom.lanes as nat);
    lemma_round_up(rows as nat, geom.sublanes as nat);
    lemma_round_up(cols as nat, geom.lanes as nat);
    let pr = spec_round_up(rows, geom.sublanes as int);
    let pc = spec_round_up(cols, geom.lanes as int);
    let pr2 = spec_round_up(rows2, geom.sublanes as int);
    let pc2 = spec_round_up(cols2, geom.lanes as int);
    assert(pr * pc <= pr2 * pc2) by (nonlinear_arith)
        requires
            0 <= pr <= pr2,
            0 <= pc <= pc2,
    ;
}

impl Shape {
    /// Derive a padded shape from a logical `rows x cols` and a geometry.
    pub fn new(rows: usize, cols: usize, geom: &Geometry) -> (s: Shape)
        requires
            geom.sublanes > 0,
            geom.lanes > 0,
            spec_round_up(rows as int, geom.sublanes as int) <= usize::MAX,
            spec_round_up(cols as int, geom.lanes as int) <= usize::MAX,
        ensures
            s == spec_shape(rows as int, cols as int, *geom),
    {
        Shape { rows, cols, padded_rows: geom.pad_rows(rows), padded_cols: geom.pad_cols(cols) }
    }

    /// Number of logical elements (`rows * cols`).
    pub fn logical_len(&self) -> (r: usize)
        requires
            self.rows * self.cols <= usize::MAX,
        ensures
            r == self.rows * self.cols,
    {
        self.rows * self.cols
    }

    /// Number of stored elements, padding included (`padded_rows * padded_cols`).
    pub fn padded_len(&self) -> (r: usize)
        requires
            self.padded_rows * self.padded_cols <= usize::MAX,
        ensures
            r == self.padded_rows * self.padded_cols,
    {
        self.padded_rows * self.padded_cols
    }
}

} // verus!
