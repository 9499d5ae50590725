//! Tile geometry: the hardware-dictated tile shape every lattice is built around.
//!
//! A TPU addresses its vector memory as a grid of `(sublane, lane)` slots and its
//! matrix unit consumes square `mxu x mxu` blocks. A [`Geometry`] captures those
//! three numbers so the rest of the crate can pad, lay out, and iterate in the
//! order the hardware expects.

use crate::error::LatticeError;
use vstd::arithmetic::div_mod::*;
use vstd::arithmetic::mul::*;
use vstd::prelude::*;

verus! {

/// The hardware tile shape a lattice is padded and laid out to.
#[derive(Clone, Copy, Debug, PartialEq, Eq, Structural)]
pub struct Geometry {
    /// Rows per storage tile (the sublane count of a vector register).
    pub sublanes: usize,
    /// Columns per storage tile (the lane count of a vector register).
    pub lanes: usize,
    /// Side length of the square systolic matrix-unit block.
    pub mxu: usize,
}

/// `n` rounded up to the next multiple of `to` (for `to > 0`).
pub open spec fn spec_round_up(n: int, to: int) -> int {
    (n / to + (if n % to == 0 { 0int } else { 1int })) * to
}

/// Rounding up is monotone: a larger count never pads to a smaller size.
pub proof fn lemma_round_up_mono(n1: nat, n2: nat, to: nat)
    requires
        to > 0,
        n1 <= n2,
    ensures
        spec_round_up(n1 as int, to as int) <= spec_round_up(n2 as int, to as int),
{
    lemma_round_up(n1, to);
    lemma_round_up(n2, to);
    let r1 = spec_round_up(n1 as int, to as int);
    let r2 = spec_round_up(n2 as int, to as int);
    lemma_fundamental_div_mod(r1, to as int);
    lemma_fundamental_div_mod(r2, to as int);
    let k1 = r1 / (to as int);
    let k2 = r2 / (to as int);
    assert(k1 <= k2) by (nonlinear_arith)
        requires
            r1 == to * k1,
            r2 == to * k2,
            r1 < n1 + to,
            n1 <= n2,
            n2 <= r2,
            to > 0,
    ;
    assert(r1 <= r2) by (nonlinear_arith)
        requires
            r1 == to * k1,
            r2 == to * k2,
            k1 <= k2,
            to > 0,
    ;
}

/// The rounding law: the result is the least multiple of `to` that is at least `n`.
pub proof fn lemma_round_up(n: nat, to: nat)
    requires
        to > 0,
    ensures
        spec_round_up(n as int, to as int) % (to as int) == 0,
        n <= spec_round_up(n as int, to as int) < n + to,
        spec_round_up(n as int, to as int) / (to as int) == (n as int) / (to as int) + (if n % to == 0 { 0int } else { 1int }),
{
    let q = n as int / to as int;
    let r = n as int % to as int;
    let k = q + (if r == 0 { 0int } else { 1int });
    lemma_fundamental_div_mod(n as int, to as int);
    lemma_mod_multiples_basic(k, to as int);
    lemma_div_multiples_vanish(k, to as int);
    assert(k * to == q * to + (if r == 0 { 0int } else { to as int })) by (nonlinear_arith)
        requires k == q + (if r == 0 { 0int } else { 1int });
    assert(q * to == to * q) by (nonlinear_arith);
}

impl Geometry {
    /// The canonical TPU v-class geometry: 8 sublanes, 128 lanes, 128x128 MXU.
    pub open spec fn tpu_v_spec() -> Geometry {
        Geometry { sublanes: 8, lanes: 128, mxu: 128 }
    }

    /// The canonical TPU v-class geometry: 8 sublanes, 128 lanes, 128x128 MXU.
    pub fn tpu_v() -> (g: Geometry)
        ensures
            g == Geometry::tpu_v_spec(),
    {
        Geometry { sublanes: 8, lanes: 128, mxu: 128 }
    }

    /// A small geometry handy for tests and documentation examples.
    pub fn tiny() -> (g: Geometry)
        ensures
            g == (Geometry { sublanes: 2, lanes: 4, mxu: 4 }),
    {
        Geometry { sublanes: 2, lanes: 4, mxu: 4 }
    }

    /// Every dimension is non-zero.
    pub open spec fn wf(&self) -> bool {
        self.sublanes > 0 && self.lanes > 0 && self.mxu > 0
    }

    /// Build a geometry, validating that every dimension is non-zero.
    pub fn new(sublanes: usize, lanes: usize, mxu: usize) -> (r: Result<Geometry, LatticeError>)
        ensures
            sublanes > 0 && lanes > 0 && mxu > 0 ==> r == Ok::<Geometry, LatticeError>(
                Geometry { sublanes, lanes, mxu },
            ),
            !(sublanes > 0 && lanes > 0 && mxu > 0) ==> r == Err::<Geometry, LatticeError>(
                LatticeError::ZeroTileDimension,
            ),
    {
        if sublanes == 0 || lanes == 0 || mxu == 0 {
            return Err(LatticeError::ZeroTileDimension);
        }
        Ok(Geometry { sublanes, lanes, mxu })
    }

    /// Number of elements in a single storage tile (`sublanes * lanes`).
    pub fn tile_len(&self) -> (r: usize)
        requires
            self.sublanes * self.lanes <= usize::MAX,
        ensures
            r == self.sublanes * self.lanes,
    {
        self.sublanes * self.lanes
    }

    /// Round `n` up to the next multiple of `to`.
    pub fn round_up(n: usize, to: usize) -> (r: usize)
        requires
            to > 0,
            spec_round_up(n as int, to as int) <= usize::MAX,
        ensures
            r == spec_round_up(n as int, to as int),
            r % to == 0,
            n <= r < n + to,
    {
        proof {
            lemma_round_up(n as nat, to as nat);
        }
        let q = n / to + if n % to == 0 { 0 } else { 1 };
        assert(q * to == spec_round_up(n as int, to as int));
        q * to
    }

    /// Pad a row count up to a whole number of sublane tiles.
    pub fn pad_rows(&self, rows: usize) -> (r: usize)
        requires
            self.sublanes > 0,
            spec_round_up(rows as int, self.sublanes as int) <= usize::MAX,
        ensures
            r == spec_round_up(rows as int, self.sublanes as int),
    {
        Geometry::round_up(rows, self.sublanes)
    }

    /// Pad a column count up to a whole number of lane tiles.
    pub fn pad_cols(&self, cols: usize) -> (r: usize)
        requires
            self.lanes > 0,
            spec_round_up(cols as int, self.lanes as int) <= usize::MAX,
        ensures
            r == spec_round_up(cols as int, self.lanes as int),
    {
        Geometry::round_up(cols, self.lanes)
    }
}

} // verus!
