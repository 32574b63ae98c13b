//! An LRU cache with a ghost region, epoch-based eviction and bucketed
//! reuse-distance counters.
//!
//! Keys are `u64`; values are of any type. Entries live in one list, most
//! recent first: the real region holds values, the ghost region keeps only
//! the keys of entries whose values were dropped. Each entry is stamped with
//! a bucket id; per-bucket counts of live entries give reuse distances
//! without walking the list.
use vstd::prelude::*;

pub mod buckets;
pub mod indexed;
pub mod laws;
mod list;
mod maps;
pub mod region;
pub mod scope;

pub use indexed::{CacheView, Epoch, IndexedLruCache};
pub use scope::{GetScope, GetToken, LruCache};

verus! {

} // verus!
