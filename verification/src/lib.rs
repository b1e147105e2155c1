//! Synthetic relation generation for benchmarking relational join algorithms.
//!
//! A caller asks for a relation (a fixed-length sequence of key/payload
//! tuples) of a given cardinality and key-distribution shape; the library
//! fills a contiguous tuple buffer according to that distribution, either
//! sequentially or partitioned across workers, and hands back an owned
//! `Relation` handle. Every generator is deterministic in the state of the
//! explicit random source, so runs with the same seed reproduce the same
//! relation.

pub mod fill;
pub mod partition;
pub mod relation;
pub mod rng;

pub use relation::BuildMode;
pub use relation::Error;
pub use relation::Relation;
pub use relation::Tuple;
pub use rng::seed_generator;
pub use rng::Rng;
