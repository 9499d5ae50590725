//! `systile`: matmul-native data structures and algorithms over a padded,
//! tile-laid-out lattice, with the integer-valued logic verified.

pub mod error;
pub mod bf16;
pub mod geometry;
pub mod shape;
pub mod layout;
pub mod mask;
pub mod lattice;
pub mod elementwise;
pub mod semiring;
pub mod editdist;
pub mod hyper;
pub mod classifier;
pub mod bloom;
pub mod sketch;
pub mod automaton;
pub mod graph;
pub mod pagerank;
pub mod attention;
pub mod conv;
pub mod scan;
pub mod resonator;
pub mod prelude;
