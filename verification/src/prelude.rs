//! The common imports: `use systile::prelude::*;` brings in the engines, the
//! lattice and its geometry, and the semirings.

pub use crate::attention::TensorAttention;
pub use crate::automaton::TensorAutomaton;
pub use crate::bf16::Bf16;
pub use crate::bloom::TensorBloom;
pub use crate::conv::TensorConv;
pub use crate::editdist::TensorEditDistance;
pub use crate::error::LatticeError;
pub use crate::geometry::Geometry;
pub use crate::graph::TensorGraph;
pub use crate::lattice::PaddedTileLattice;
pub use crate::mask::Mask;
pub use crate::pagerank::TensorPageRank;
pub use crate::resonator::{FactorSearch, Factorization};
pub use crate::scan::TensorScan;
pub use crate::semiring::{Boolean, Counting, Semiring, Tropical};
pub use crate::shape::Shape;
pub use crate::sketch::CountMinSketch;
