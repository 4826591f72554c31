//! A fixed-capacity least-frequently-used (LFU) key-value cache.
//!
//! The cache stores a bounded number of key/value pairs, tracks per-key
//! access frequency, and evicts the least-frequently-accessed entry when a
//! new key must be admitted at full capacity. Ties at the minimum frequency
//! break first-in-first-out: the key that has sat at that frequency the
//! longest leaves first. Stored values are the identifier strings that a
//! counter-driven encoder produces on every insertion and update.

use vstd::prelude::*;

pub mod cache;
pub mod model;
pub mod shortener;

verus! {

/// Errors the cache reports to its callers.
#[derive(Debug, PartialEq, Eq, Structural, Clone, Copy)]
pub enum CacheError {
    /// The requested capacity was zero or negative.
    InvalidCapacity,
}

} // verus!
