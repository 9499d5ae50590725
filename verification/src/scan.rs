//! `TensorScan` — prefix sums as a triangular matmul.
//!
//! A cumulative sum is usually a sequential loop with a carried accumulator. As a
//! matmul it is a single product with a triangular matrix of ones:
//!
//! ```text
//! inclusive prefix:  y = L · x      L[i,j] = 1 if j ≤ i
//! exclusive prefix:  y = Lˢ · x     Lˢ[i,j] = 1 if j < i
//! suffix sum:        y = U · x      U[i,j] = 1 if j ≥ i
//! ```
//!
//! The triangle's shape is decided here; the sums themselves are floating point.

use crate::geometry::Geometry;
use vstd::prelude::*;

verus! {

/// A matmul-based prefix-sum (scan) operator.
#[derive(Clone, Copy, Debug)]
pub struct TensorScan {
    geom: Geometry,
}

impl Default for TensorScan {
    fn default() -> (r: Self)
        ensures
            r.spec_geometry() == Geometry::tpu_v_spec(),
    {
        TensorScan { geom: Geometry::tpu_v() }
    }
}

/// Whether entry `(i, j)` of the scan's triangular matrix is a one: on or below
/// the diagonal, or on or above it for a suffix scan (`upper`); `strict` drops the
/// diagonal itself.
pub open spec fn spec_triangle_keep(i: int, j: int, strict: bool, upper: bool) -> bool {
    if upper {
        if strict {
            j > i
        } else {
            j >= i
        }
    } else if strict {
        j < i
    } else {
        j <= i
    }
}

impl TensorScan {
    /// The tile geometry used for the matmul.
    pub closed spec fn spec_geometry(&self) -> Geometry {
        self.geom
    }

    /// Create a scan operator with the default tile geometry.
    pub fn new() -> (r: Self)
        ensures
            r.spec_geometry() == Geometry::tpu_v_spec(),
    {
        TensorScan::default()
    }

    /// The tile geometry used for the matmul.
    pub fn geometry(&self) -> (g: Geometry)
        ensures
            g == self.spec_geometry(),
    {
        self.geom
    }

    /// The `n × n` triangular 0/1 pattern, row-major: `true` where the scan matrix
    /// holds a one.
    pub fn triangle(n: usize, strict: bool, upper: bool) -> (t: Vec<bool>)
        requires
            n * n <= usize::MAX,
        ensures
            t@.len() == n * n,
            forall|i: int, j: int| 0 <= i < n && 0 <= j < n ==> #[trigger] t@[i * n + j] == spec_triangle_keep(i, j, strict, upper),
    {
        let mut t: Vec<bool> = Vec::with_capacity(n * n);
        let mut i: usize = 0;
        while i < n
            invariant
                i <= n,
                n * n <= usize::MAX,
                t@.len() == i * n,
                forall|a: int, b: int| 0 <= a < i && 0 <= b < n ==> #[trigger] t@[a * n + b] == spec_triangle_keep(a, b, strict, upper),
            decreases n - i,
        {
            proof {
                assert((i + 1) * n <= n * n) by (nonlinear_arith)
                    requires i < n;
                assert((i + 1) * n == i * n + n) by (nonlinear_arith);
            }
            let mut j: usize = 0;
            while j < n
                invariant
                    i < n,
                    j <= n,
                    n * n <= usize::MAX,
                    (i + 1) * n <= n * n,
                    t@.len() == i * n + j,
                    forall|a: int, b: int| ((0 <= a < i && 0 <= b < n) || (a == i && 0 <= b < j)) ==> #[trigger] t@[a * n + b] == spec_triangle_keep(a, b, strict, upper),
                decreases n - j,
            {
                let keep = if upper {
                    if strict {
                        j > i
                    } else {
                        j >= i
                    }
                } else if strict {
                    j < i
                } else {
                    j <= i
                };
                t.push(keep);
                proof {
                    assert forall|a: int, b: int| ((0 <= a < i && 0 <= b < n) || (a == i && 0 <= b < j + 1)) implies #[trigger] t@[a * n + b] == spec_triangle_keep(a, b, strict, upper) by {
                        if a < i {
                            assert(a * n + b < i * n) by (nonlinear_arith)
                                requires a < i, b < n;
                        }
                    }
                }
                j = j + 1;
            }
            i = i + 1;
        }
        t
    }
}

} // verus!
