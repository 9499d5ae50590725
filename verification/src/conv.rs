//! `TensorConv` — 1-D pattern search as an im2col cross-correlation matmul.
//!
//! Sliding a kernel over a signal and taking a dot product at every offset is a
//! convolution. The matmul form is the classic **im2col** lowering: gather every
//! length-`k` window of the signal as a row of a matrix `W`, and the correlation
//! at all offsets is one product `W · kernel`. The engine is configured by its tile
//! geometry; the correlation values are floating point.

use crate::geometry::Geometry;
use vstd::prelude::*;

verus! {

/// A 1-D cross-correlation / pattern-search engine.
#[derive(Clone, Copy, Debug)]
pub struct TensorConv {
    geom: Geometry,
}

impl Default for TensorConv {
    fn default() -> (r: Self)
        ensures
            r.spec_geometry() == Geometry::tpu_v_spec(),
    {
        TensorConv { geom: Geometry::tpu_v() }
    }
}

impl TensorConv {
    /// The tile geometry used for the matmuls.
    pub closed spec fn spec_geometry(&self) -> Geometry {
        self.geom
    }

    /// Create a convolution engine with the default tile geometry.
    pub fn new() -> (r: Self)
        ensures
            r.spec_geometry() == Geometry::tpu_v_spec(),
    {
        TensorConv::default()
    }

    /// The tile geometry used for the matmuls.
    pub fn geometry(&self) -> (g: Geometry)
        ensures
            g == self.spec_geometry(),
    {
        self.geom
    }

    /// The number of valid correlation offsets of a `kernel_len` kernel over a
    /// `signal_len` signal: `signal_len − kernel_len + 1`, or `0` when the kernel
    /// is longer.
    pub fn windows(signal_len: usize, kernel_len: usize) -> (w: usize)
        requires
            kernel_len > 0,
        ensures
            w == (if signal_len < kernel_len { 0 } else { signal_len - kernel_len + 1 }),
    {
        if signal_len < kernel_len {
            0
        } else {
            signal_len - kernel_len + 1
        }
    }

    /// The im2col matrix of `signal` for a length-`k` kernel, row-major: row `w`
    /// is the window `signal[w .. w + k]`, one row per valid offset.
    pub fn im2col<T: Copy>(signal: &[T], k: usize) -> (cols: Vec<T>)
        requires
            k > 0,
            signal@.len() >= k ==> (signal@.len() - k + 1) * k <= usize::MAX,
        ensures
            cols@.len() == (if signal@.len() < k { 0 } else { (signal@.len() - k + 1) * k }),
            forall|w: int, j: int|
                0 <= w && 0 <= j < k && w * k + j < cols@.len() ==> #[trigger] cols@[w * k + j] == signal@[w + j],
    {
        let n = signal.len();
        let windows = TensorConv::windows(n, k);
        let mut cols: Vec<T> = Vec::new();
        let mut w: usize = 0;
        while w < windows
            invariant
                k > 0,
                n == signal@.len(),
                windows == (if signal@.len() < k { 0 } else { signal@.len() - k + 1 }),
                windows * k <= usize::MAX,
                w <= windows,
                cols@.len() == w * k,
                forall|a: int, j: int| 0 <= a < w && 0 <= j < k ==> #[trigger] cols@[a * k + j] == signal@[a + j],
            decreases windows - w,
        {
            proof {
                assert((w + 1) * k <= windows * k) by (nonlinear_arith)
                    requires w < windows;
                assert((w + 1) * k == w * k + k) by (nonlinear_arith);
            }
            let mut j: usize = 0;
            while j < k
                invariant
                    k > 0,
                    n == signal@.len(),
                    w < windows,
                    windows == (if signal@.len() < k { 0 } else { signal@.len() - k + 1 }),
                    windows * k <= usize::MAX,
                    (w + 1) * k <= windows * k,
                    j <= k,
                    cols@.len() == w * k + j,
                    forall|a: int, b: int|
                        ((0 <= a < w && 0 <= b < k) || (a == w && 0 <= b < j)) ==> #[trigger] cols@[a * k + b] == signal@[a + b],
                decreases k - j,
            {
                proof {
                    assert(w * k + j < (w + 1) * k) by (nonlinear_arith)
                        requires j < k;
                    assert(signal@.len() >= k);
                    assert(w + j < signal@.len());
                }
                cols.push(signal[w + j]);
                proof {
                    assert forall|a: int, b: int|
                        ((0 <= a < w && 0 <= b < k) || (a == w && 0 <= b < j + 1)) implies #[trigger] cols@[a * k + b] == signal@[a + b] by {
                        if a < w {
                            assert(a * k + b < w * k) by (nonlinear_arith)
                                requires a < w, b < k, 0 <= b;
                        } else {
                            assert(a * k == w * k);
                        }
                    }
                }
                j = j + 1;
            }
            w = w + 1;
        }
        proof {
            assert forall|a: int, j: int|
                0 <= a && 0 <= j < k && a * k + j < cols@.len() implies #[trigger] cols@[a * k + j] == signal@[a + j] by {
                assert(a < windows) by (nonlinear_arith)
                    requires a * k + j < windows * k, 0 <= j, k > 0, 0 <= a;
            }
        }
        cols
    }
}

} // verus!
