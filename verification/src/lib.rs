//! A bounded in-memory key-value cache with a frequency-based admission
//! filter, time-based expiration and predicate-driven invalidation.

pub mod base;
pub mod buffer;
pub mod cache;
pub mod clock;
pub mod hashing;
pub mod initializer;
pub mod laws;
pub mod model;
pub mod order;
pub mod policy;
pub mod segment;
pub mod sketch;
pub mod table;

pub use crate::base::PredicateError;
pub use crate::base::PredicateId;
pub use crate::cache::Cache;
pub use crate::segment::SegmentedCache;
