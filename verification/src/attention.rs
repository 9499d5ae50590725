//! `TensorAttention` — scaled dot-product attention as a soft retrieval memory.
//!
//! Attention is matmuls all the way down:
//!
//! ```text
//! scores  = Q · Kᵀ / √d         (Lq × Lk)
//! weights = softmax(scores)      (row-wise)
//! out     = weights · V          (Lq × dv)
//! ```
//!
//! The attention block itself is configured by its key/query dimension and tile
//! geometry; the attend computation is floating point.

use crate::geometry::Geometry;
use vstd::prelude::*;

verus! {

/// Scaled dot-product attention over `d`-dimensional keys and queries.
#[derive(Clone, Copy, Debug)]
pub struct TensorAttention {
    d: usize,
    geom: Geometry,
}

impl TensorAttention {
    /// Key/query dimension.
    pub closed spec fn spec_dim(&self) -> usize {
        self.d
    }

    /// The tile geometry used for the matmuls.
    pub closed spec fn spec_geometry(&self) -> Geometry {
        self.geom
    }

    /// Create an attention block for query/key dimension `d` (which must be
    /// positive).
    pub fn new(d: usize) -> (r: Self)
        requires
            d > 0,
        ensures
            r.spec_dim() == d,
            r.spec_geometry() == Geometry::tpu_v_spec(),
    {
        TensorAttention { d, geom: Geometry::tpu_v() }
    }

    /// Key/query dimension.
    pub fn dim(&self) -> (r: usize)
        ensures
            r == self.spec_dim(),
    {
        self.d
    }

    /// The tile geometry used for the matmuls.
    pub fn geometry(&self) -> (g: Geometry)
        ensures
            g == self.spec_geometry(),
    {
        self.geom
    }
}

} // verus!
