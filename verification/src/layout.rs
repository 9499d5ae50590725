//! Address arithmetic that maps logical `(row, col)` coordinates to the linear
//! offset where the element actually lives in tiled `(sublane, lane)` order.
//!
//! Storage order is *row-major over tiles*, and within each tile *row-major over
//! `(sublane, lane)`*. This is the layout a TPU's vector memory uses, so writing
//! data in this order means a host-to-device copy is a straight `memcpy`.

use crate::geometry::{lemma_round_up, spec_round_up, Geometry};
use crate::shape::{lemma_shape_fits, shape_fits, spec_shape, Shape};
use vstd::arithmetic::div_mod::*;
use vstd::prelude::*;

verus! {

/// The storage offset of `(r, c)`: tile `(r / sl, c / ln)` in a grid of `tpr` tiles
/// per row, each tile `sl * ln` elements long, then `(r % sl, c % ln)` within it.
pub open spec fn spec_offset(sl: int, ln: int, tpr: int, r: int, c: int) -> int {
    ((r / sl) * tpr + c / ln) * (sl * ln) + (r % sl) * ln + c % ln
}

/// The row that lives at storage offset `o`.
pub open spec fn spec_decode_row(sl: int, ln: int, tpr: int, o: int) -> int {
    (o / ln / sl / tpr) * sl + (o / ln) % sl
}

/// The column that lives at storage offset `o`.
pub open spec fn spec_decode_col(sl: int, ln: int, tpr: int, o: int) -> int {
    ((o / ln / sl) % tpr) * ln + o % ln
}

/// The layout law: every padded coordinate lands inside the padded buffer, and the
/// coordinate can be read back from its offset, so distinct coordinates never
/// share a storage slot.
pub proof fn lemma_offset(sl: int, ln: int, tr: int, tpr: int, r: int, c: int)
    requires
        sl > 0,
        ln > 0,
        0 <= r < tr * sl,
        0 <= c < tpr * ln,
    ensures
        0 <= r / sl < tr,
        0 <= c / ln < tpr,
        0 <= (r / sl) * tpr + c / ln < tr * tpr,
        0 <= spec_offset(sl, ln, tpr, r, c) < tr * tpr * (sl * ln),
        ((r / sl) * tpr + c / ln) * (sl * ln) <= spec_offset(sl, ln, tpr, r, c),
        spec_decode_row(sl, ln, tpr, spec_offset(sl, ln, tpr, r, c)) == r,
        spec_decode_col(sl, ln, tpr, spec_offset(sl, ln, tpr, r, c)) == c,
{
    let rr = r / sl;
    let a = r % sl;
    let cc = c / ln;
    let b = c % ln;
    lemma_fundamental_div_mod(r, sl);
    lemma_fundamental_div_mod(c, ln);
    lemma_mod_pos_bound(r, sl);
    lemma_mod_pos_bound(c, ln);
    assert(0 <= rr && 0 <= cc) by (nonlinear_arith)
        requires
            r == sl * rr + a,
            c == ln * cc + b,
            0 <= r,
            0 <= c,
            a < sl,
            b < ln,
            sl > 0,
            ln > 0,
    ;
    assert(rr < tr) by (nonlinear_arith)
        requires
            r == sl * rr + a,
            0 <= a,
            r < tr * sl,
            sl > 0,
    ;
    assert(cc < tpr) by (nonlinear_arith)
        requires
            c == ln * cc + b,
            0 <= b,
            c < tpr * ln,
            ln > 0,
    ;
    let t = rr * tpr + cc;
    assert(0 <= t < tr * tpr) by (nonlinear_arith)
        requires
            t == rr * tpr + cc,
            0 <= rr < tr,
            0 <= cc < tpr,
    ;
    let o = spec_offset(sl, ln, tpr, r, c);
    assert(o == (t * sl + a) * ln + b) by (nonlinear_arith)
        requires
            o == t * (sl * ln) + a * ln + b,
    ;
    assert(0 <= a * ln + b < sl * ln) by (nonlinear_arith)
        requires
            0 <= a < sl,
            0 <= b < ln,
    ;
    assert(t * (sl * ln) + sl * ln <= tr * tpr * (sl * ln)) by (nonlinear_arith)
        requires
            t + 1 <= tr * tpr,
            sl * ln > 0,
    ;
    assert(0 <= t * (sl * ln)) by (nonlinear_arith)
        requires
            0 <= t,
            sl * ln > 0,
    ;
    lemma_fundamental_div_mod_converse(o, ln, t * sl + a, b);
    lemma_fundamental_div_mod_converse(t * sl + a, sl, t, a);
    lemma_fundamental_div_mod_converse(t, tpr, rr, cc);
    assert(r == rr * sl + a) by (nonlinear_arith)
        requires
            r == sl * rr + a,
    ;
    assert(c == cc * ln + b) by (nonlinear_arith)
        requires
            c == ln * cc + b,
    ;
}

/// Maps logical coordinates of one padded shape to offsets in tiled order.
#[derive(Clone, Copy, Debug, PartialEq, Eq, Structural)]
pub struct Layout {
    sublanes: usize,
    lanes: usize,
    tile_rows: usize,
    tiles_per_row: usize,
}

impl Layout {
    /// Rows per tile.
    pub closed spec fn sl(&self) -> int {
        self.sublanes as int
    }

    /// Columns per tile.
    pub closed spec fn ln(&self) -> int {
        self.lanes as int
    }

    /// Number of tile rows.
    pub closed spec fn tr(&self) -> int {
        self.tile_rows as int
    }

    /// Number of tiles per tile row.
    pub closed spec fn tpr(&self) -> int {
        self.tiles_per_row as int
    }

    /// The layout that `shape` takes on under `geom`.
    pub open spec fn describes(&self, shape: Shape, geom: Geometry) -> bool {
        &&& self.sl() == geom.sublanes
        &&& self.ln() == geom.lanes
        &&& self.tr() * geom.sublanes == shape.padded_rows
        &&& self.tpr() * geom.lanes == shape.padded_cols
    }

    /// The storage offset of `(r, c)` under this layout.
    pub open spec fn offset(&self, r: int, c: int) -> int {
        spec_offset(self.sl(), self.ln(), self.tpr(), r, c)
    }

    /// Build the layout of a padded shape.
    pub fn new(shape: &Shape, geom: &Geometry) -> (l: Layout)
        requires
            shape_fits(shape.rows as int, shape.cols as int, *geom),
            *shape == spec_shape(shape.rows as int, shape.cols as int, *geom),
        ensures
            l.describes(*shape, *geom),
    {
        proof {
            lemma_shape_fits(shape.rows as int, shape.cols as int, *geom);
            lemma_round_up(shape.rows as nat, geom.sublanes as nat);
            lemma_round_up(shape.cols as nat, geom.lanes as nat);
            lemma_fundamental_div_mod(shape.padded_rows as int, geom.sublanes as int);
            lemma_fundamental_div_mod(shape.padded_cols as int, geom.lanes as int);
        }
        let tile_rows = shape.padded_rows / geom.sublanes;
        let tiles_per_row = shape.padded_cols / geom.lanes;
        proof {
            assert(tile_rows * geom.sublanes == shape.padded_rows) by (nonlinear_arith)
                requires
                    shape.padded_rows == geom.sublanes * (shape.padded_rows / geom.sublanes) + 0,
                    tile_rows == shape.padded_rows / geom.sublanes,
            ;
            assert(tiles_per_row * geom.lanes == shape.padded_cols) by (nonlinear_arith)
                requires
                    shape.padded_cols == geom.lanes * (shape.padded_cols / geom.lanes) + 0,
                    tiles_per_row == shape.padded_cols / geom.lanes,
            ;
        }
        Layout { sublanes: geom.sublanes, lanes: geom.lanes, tile_rows, tiles_per_row }
    }

    /// Offset of the first element of tile `(tile_row, tile_col)`.
    pub fn tile_base(&self, tile_row: usize, tile_col: usize) -> (r: usize)
        requires
            self.sl() > 0,
            self.ln() > 0,
            tile_row < self.tr(),
            tile_col < self.tpr(),
            self.tr() * self.tpr() * (self.sl() * self.ln()) <= usize::MAX,
        ensures
            r == (tile_row * self.tpr() + tile_col) * (self.sl() * self.ln()),
            r + self.sl() * self.ln() <= self.tr() * self.tpr() * (self.sl() * self.ln()),
    {
        proof {
            let sl = self.sl();
            let ln = self.ln();
            let tr = self.tr();
            let tpr = self.tpr();
            assert(sl * ln > 0) by (nonlinear_arith)
                requires
                    sl > 0,
                    ln > 0,
            ;
            assert(tile_row * tpr + tile_col + 1 <= tr * tpr) by (nonlinear_arith)
                requires
                    0 <= tile_row < tr,
                    0 <= tile_col < tpr,
            ;
            assert((tile_row * tpr + tile_col) * (sl * ln) + sl * ln <= tr * tpr * (sl * ln))
                by (nonlinear_arith)
                requires
                    tile_row * tpr + tile_col + 1 <= tr * tpr,
                    sl * ln > 0,
            ;
            assert(0 <= (tile_row * tpr + tile_col) * (sl * ln) && sl * ln <= tr * tpr * (sl * ln)
                && tile_row * tpr <= tr * tpr && tr * tpr <= tr * tpr * (sl * ln)) by (nonlinear_arith)
                requires
                    (tile_row * tpr + tile_col) * (sl * ln) + sl * ln <= tr * tpr * (sl * ln),
                    0 <= tile_row < tr,
                    0 <= tile_col,
                    sl * ln > 0,
            ;
        }
        let tile_len = self.sublanes * self.lanes;
        (tile_row * self.tiles_per_row + tile_col) * tile_len
    }

    /// Storage offset of the padded coordinate `(row, col)`.
    pub fn offset_of(&self, row: usize, col: usize) -> (r: usize)
        requires
            self.sl() > 0,
            self.ln() > 0,
            row < self.tr() * self.sl(),
            col < self.tpr() * self.ln(),
            self.tr() * self.tpr() * (self.sl() * self.ln()) <= usize::MAX,
        ensures
            r == self.offset(row as int, col as int),
            r < self.tr() * self.tpr() * (self.sl() * self.ln()),
    {
        proof {
            lemma_offset(self.sl(), self.ln(), self.tr(), self.tpr(), row as int, col as int);
        }
        let base = self.tile_base(row / self.sublanes, col / self.lanes);
        base + (row % self.sublanes) * self.lanes + col % self.lanes
    }
}

} // verus!
