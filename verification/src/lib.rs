//! An in-memory, fixed-capacity key/value cache with a frequency-based
//! replacement policy: recency order is blended with per-entry reference
//! counts, counts are periodically aged, and eviction only ever removes
//! entries from the least recently used ("old") part of the list.

use vstd::prelude::*;

pub mod model;
pub mod cache;
pub mod laws;

pub use cache::FbrCache;

verus! {

/// Region in which a cache entry currently lives.
///
/// New inhibits the frequency count (counting one run of accesses as 1),
/// Old is where eviction happens.
#[derive(Debug, PartialEq, Eq, PartialOrd, Ord, Clone, Copy, Structural)]
pub enum Region {
    New,
    Middle,
    Old,
}

} // verus!
