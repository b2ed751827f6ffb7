//! A static retrieval function: a compact, immutable map from a set of
//! 64-bit keys to 64-bit values, built by peeling a random 3-hypergraph
//! and queried in constant time by XOR-ing three cells of a flat array.

pub mod builder;
pub mod error;
pub mod edge;
pub mod func;
pub mod hash;
pub mod solve;
pub mod traits;
pub mod utils;
