//! An in-memory, fixed-horizon cache of order-book spreads.
//!
//! Samples are `(timestamp in ns, spread)` pairs. The cache keeps a ring of equally wide,
//! contiguous time buckets that slides forward as newer samples arrive, and answers range
//! queries (count, least and greatest spread, and the material for rank sketches) by
//! combining the aggregates of whole buckets with scans of the two buckets at the ends of
//! the range.
//!
//! A spread is held as an ordered 64-bit key (see [`spread`]), so that everything the cache
//! decides is decided on integers.

pub mod layout;
pub mod ring;
pub mod samples;
pub mod spread;
pub mod types;
pub mod utils;

