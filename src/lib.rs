//! Sharded transactional collections for the `stm` crate.
//!
//! A set or a map is split over a fixed number of buckets, each held in its
//! own transactional variable, so that transactions touching unrelated keys
//! do not conflict. A key's bucket is `hash(key) % bucket_count`.
pub mod router;
pub mod shard;
pub mod stm_specs;
pub mod set;
pub mod map;
pub mod model;

pub use map::THashMap;
pub use set::THashSet;
