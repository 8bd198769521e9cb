//! An F14-style hash map: a flat, chunk-partitioned open-addressed table.
//!
//! Keys and values live in a slot array that runs parallel to a control-byte
//! array.  Each control byte records whether its slot is empty, a tombstone
//! left by a removal, or full, and for a full slot it carries a 7-bit tag
//! drawn from the key's hash.  Lookups scan one 16-slot chunk at a time,
//! pre-filtering candidates by tag, and step between chunks by double
//! hashing.

pub mod error;
pub mod f14_map;
pub mod iterators;
pub mod probe_strategy;
pub mod simd_utils;
pub mod traits;

pub use error::MapError;
pub use f14_map::F14VectorMap;
