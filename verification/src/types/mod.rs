//! The data the cache is made of: samples, buckets of samples, and the ring of buckets.

use vstd::prelude::*;

pub mod bucket;
pub mod market_data;
pub mod range_queries;

pub use bucket::Bucket;
pub use market_data::MarketDataCache;
pub use range_queries::RangeSegments;

verus! {

/// One admitted sample: when it was taken, and the spread (best ask less best bid) as an
/// ordered key.
#[derive(Clone, Copy, Debug, PartialEq, Eq)]
pub struct MarketDataEntry {
    pub utc_epoch_ns: u64,
    pub spread: u64,
}

} // verus!
