//! Bucket-index arithmetic.

use vstd::prelude::*;

verus! {

/// The index of the bucket that covers `query_ns` in a ring whose first bucket starts at
/// `first_bucket_start_ns` and whose buckets are `bucket_duration_ns` wide; `None` when the
/// query lies before the first bucket.
pub open spec fn spec_find_bucket_index(
    first_bucket_start_ns: u64,
    query_ns: u64,
    bucket_duration_ns: u64,
) -> Option<usize> {
    if query_ns < first_bucket_start_ns {
        None
    } else {
        Some(((query_ns - first_bucket_start_ns) / (bucket_duration_ns as int)) as usize)
    }
}

/// Computes [`spec_find_bucket_index`]. The index is not bounded by any ring length: a
/// query past the last bucket yields the index that bucket would have, cut to the width of
/// `usize` where it does not fit.
pub fn find_bucket_index(first_bucket_start_ns: u64, query_ns: u64, bucket_duration_ns: u64) -> (r:
    Option<usize>)
    requires
        bucket_duration_ns > 0,
    ensures
        r == spec_find_bucket_index(first_bucket_start_ns, query_ns, bucket_duration_ns),
        query_ns >= first_bucket_start_ns && (query_ns - first_bucket_start_ns) / (
        bucket_duration_ns as int) <= usize::MAX ==> r.is_some() && r.unwrap() as int == (query_ns
            - first_bucket_start_ns) / (bucket_duration_ns as int),
{
    if query_ns < first_bucket_start_ns {
        return None;
    }
    let elapsed_ns: u64 = query_ns - first_bucket_start_ns;
    let index: usize = #[verifier::truncate]
    ((elapsed_ns / bucket_duration_ns) as usize);
    Some(index)
}

} // verus!
