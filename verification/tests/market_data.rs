use market_data_cache::spread::{spread_bits, spread_key, EMPTY_MAX_SPREAD, EMPTY_MIN_SPREAD};
use market_data_cache::samples::{greatest_spread_of, least_spread_of, spreads_of_entries};
use market_data_cache::types::market_data::{DEFAULT_BUCKET_NS, DEFAULT_NUM_BUCKETS};
use market_data_cache::types::{MarketDataCache, MarketDataEntry};
use tdigest::TDigest;

fn key(x: f64) -> u64 {
    spread_key(x.to_bits())
}

fn number(key: u64) -> f64 {
    f64::from_bits(spread_bits(key))
}

fn sample(ts: u64, spread: f64) -> MarketDataEntry {
    MarketDataEntry { utc_epoch_ns: ts, spread: key(spread) }
}

/// `new(4, 10)` fed with sixteen samples, five ns apart.
fn small_cache() -> MarketDataCache {
    let mut cache = MarketDataCache::new(4, 10);
    for i in 0..16u64 {
        cache.insert(sample(i * 5, i as f64));
    }
    cache
}

/// `new(10, 10)` fed with a hundred samples, one ns apart.
fn hundred_cache() -> MarketDataCache {
    let mut cache = MarketDataCache::new(10, 10);
    for i in 0..100u64 {
        cache.insert(sample(i, i as f64));
    }
    cache
}

fn percentiles(cache: &MarketDataCache, start: u64, end: u64) -> (f64, f64, f64) {
    let seg = cache.percentile_segments(start, end);
    let mut tdigests = Vec::new();
    if !seg.head.is_empty() {
        let spreads: Vec<f64> = seg.head.iter().map(|k| number(*k)).collect();
        tdigests.push(TDigest::new_with_size(1000).merge_unsorted(spreads));
    }
    for i in seg.first_whole..seg.end_whole {
        let spreads: Vec<f64> = cache.buckets[i].entries.iter().map(|e| number(e.spread)).collect();
        tdigests.push(TDigest::new_with_size(100).merge_unsorted(spreads));
    }
    if !seg.tail.is_empty() {
        let spreads: Vec<f64> = seg.tail.iter().map(|k| number(*k)).collect();
        tdigests.push(TDigest::new_with_size(1000).merge_unsorted(spreads));
    }
    let merged = TDigest::merge_digests(tdigests);
    (merged.estimate_quantile(0.1), merged.estimate_quantile(0.5), merged.estimate_quantile(0.9))
}

#[test]
fn test_new_market_data_cache() {
    let mut cache = MarketDataCache::new(10, 10);
    let entry = MarketDataEntry { utc_epoch_ns: 0, spread: key(1.0) };

    cache.insert(entry);
    assert_eq!(cache.count(), 1);

    for (i, bucket) in cache.buckets.iter().enumerate() {
        assert_eq!(bucket.start_time_ns, i as u64 * 10);
        assert_eq!(bucket.end_time_ns, (i + 1) as u64 * 10);
    }
    assert_eq!(cache.buckets.len(), 10);
}

#[test]
fn new_cache_has_no_buckets() {
    let cache = MarketDataCache::new(36_000, 100_000_000);
    assert_eq!(cache.count(), 0);
    assert_eq!(cache.buckets.len(), 0);
    assert_eq!(cache.num_buckets, 36_000);
    assert_eq!(cache.bucket_ns, 100_000_000);
}

#[test]
fn first_sample_aligns_the_ring() {
    let mut cache = MarketDataCache::new(3, 100);
    cache.insert(sample(1234, 0.5));
    assert_eq!(cache.buckets.len(), 3);
    assert_eq!(cache.buckets[0].start_time_ns, 1200);
    assert_eq!(cache.buckets[2].end_time_ns, 1500);
    assert_eq!(cache.buckets[0].entries, vec![sample(1234, 0.5)]);
    assert_eq!(cache.count(), 1);
}

#[test]
fn market_data_test_remove_up_to() {
    let mut cache = MarketDataCache::new(4, 10);
    let entries: Vec<MarketDataEntry> = (0..16)
        .map(|i| MarketDataEntry { utc_epoch_ns: i * 5, spread: key(i as f64) })
        .collect();
    for entry in entries {
        cache.insert(entry);
    }
    assert_eq!(cache.count(), 7);
    cache.remove_up_to(60);
    assert_eq!(cache.count(), 3);
}

#[test]
fn remove_up_to_reports_what_it_removed_and_refills() {
    let mut cache = small_cache();
    let removed = cache.remove_up_to(60);
    assert_eq!(removed, 4);
    assert_eq!(cache.buckets.len(), 4);
    assert_eq!(cache.buckets[0].start_time_ns, 60);
    assert_eq!(cache.buckets[3].end_time_ns, 100);
    let kept: Vec<u64> = cache.buckets[0].entries.iter().map(|e| e.utc_epoch_ns).collect();
    assert_eq!(kept, vec![65]);
    assert!(cache.buckets[2].entries.is_empty());
    assert!(cache.buckets[3].entries.is_empty());
}

#[test]
fn remove_up_to_before_the_ring_changes_nothing() {
    let mut cache = small_cache();
    assert_eq!(cache.remove_up_to(39), 0);
    assert_eq!(cache.count(), 7);
    assert_eq!(cache.buckets[0].start_time_ns, 40);
    // Inside the first bucket only that bucket is purged.
    assert_eq!(cache.remove_up_to(45), 1);
    assert_eq!(cache.buckets[0].start_time_ns, 40);
    assert_eq!(cache.count(), 6);
}

#[test]
fn remove_up_to_past_the_ring_leaves_an_empty_ring_after_it() {
    let mut cache = small_cache();
    let removed = cache.remove_up_to(500);
    assert_eq!(removed, 7);
    assert_eq!(cache.count(), 0);
    assert_eq!(cache.buckets.len(), 4);
    assert_eq!(cache.buckets[0].start_time_ns, 80);
    assert_eq!(cache.buckets[3].end_time_ns, 120);
}

#[test]
fn remove_up_to_on_a_cache_without_buckets() {
    let mut cache = MarketDataCache::new(4, 10);
    assert_eq!(cache.remove_up_to(100), 0);
    assert_eq!(cache.buckets.len(), 0);
    assert_eq!(cache.count(), 0);
}

#[test]
fn test_count_range() {
    let mut cache = MarketDataCache::new(4, 10);
    let entries: Vec<MarketDataEntry> = (0..16)
        .map(|i| MarketDataEntry { utc_epoch_ns: i * 5, spread: key(i as f64) })
        .collect();
    for entry in entries {
        cache.insert(entry);
    }
    let count = cache.count_range(45, 60);
    assert_eq!(count, 4);
}

#[test]
fn sliding_keeps_the_last_horizon() {
    let cache = small_cache();
    assert_eq!(cache.count(), 7);
    assert_eq!(cache.buckets.len(), 4);
    assert_eq!(cache.buckets[0].start_time_ns, 40);
    assert_eq!(cache.buckets[3].end_time_ns, 80);
    let kept: Vec<u64> =
        cache.buckets.iter().flat_map(|b| b.entries.iter().map(|e| e.utc_epoch_ns)).collect();
    assert_eq!(kept, vec![45, 50, 55, 60, 65, 70, 75]);
    for bucket in cache.buckets.iter() {
        assert_eq!(bucket.start_time_ns % 10, 0);
        assert_eq!(bucket.end_time_ns - bucket.start_time_ns, 10);
    }
}

#[test]
fn count_range_within_one_bucket_respects_both_ends() {
    let cache = hundred_cache();
    assert_eq!(cache.count_range(32, 36), 5);
    assert_eq!(cache.count_range(30, 39), 10);
    assert_eq!(cache.count_range(35, 35), 1);
    assert_eq!(cache.count_range(0, 99), 100);
    assert_eq!(cache.count_range(9, 10), 2);
}

#[test]
fn count_range_is_bounded_and_splits() {
    let cache = small_cache();
    for t1 in 40..80u64 {
        for t2 in t1..80u64 {
            let whole = cache.count_range(t1, t2);
            assert!(whole <= cache.count());
            for tm in (t1 + 1)..=t2 {
                assert_eq!(cache.count_range(t1, tm - 1) + cache.count_range(tm, t2), whole);
            }
        }
    }
}

#[test]
fn test_min_spread() {
    let mut cache = MarketDataCache::new(10, 10);
    let entries: Vec<MarketDataEntry> = (0..100)
        .map(|i| MarketDataEntry { utc_epoch_ns: i, spread: key(i as f64) })
        .collect();
    for entry in entries {
        cache.insert(entry);
    }
    let min_spread = cache.min_spread(30, 70);
    assert_eq!(number(min_spread), 30.0);
}

#[test]
fn test_max_spread() {
    let mut cache = MarketDataCache::new(10, 10);
    let entries: Vec<MarketDataEntry> = (0..100)
        .map(|i| MarketDataEntry { utc_epoch_ns: i, spread: key(i as f64) })
        .collect();
    for entry in entries {
        cache.insert(entry);
    }
    let max_spread = cache.max_spread(30, 70);
    assert_eq!(number(max_spread), 70.0);
}

#[test]
fn extremes_of_an_empty_range_are_the_infinities() {
    let mut cache = MarketDataCache::new(10, 10);
    cache.insert(sample(5, 2.0));
    cache.insert(sample(95, -3.0));
    assert_eq!(cache.min_spread(10, 89), EMPTY_MIN_SPREAD);
    assert_eq!(cache.max_spread(10, 89), EMPTY_MAX_SPREAD);
    assert_eq!(number(cache.min_spread(10, 89)), f64::INFINITY);
    assert_eq!(number(cache.max_spread(10, 89)), f64::NEG_INFINITY);
    assert_eq!(cache.count_range(10, 89), 0);
    assert_eq!(number(cache.min_spread(0, 99)), -3.0);
    assert_eq!(number(cache.max_spread(0, 99)), 2.0);
}

#[test]
fn extremes_are_ordered_where_there_are_samples() {
    let cache = hundred_cache();
    for (t1, t2) in [(0u64, 0u64), (3, 7), (5, 25), (30, 70), (0, 99), (89, 90)] {
        assert!(cache.count_range(t1, t2) > 0);
        assert!(cache.min_spread(t1, t2) <= cache.max_spread(t1, t2));
        assert_eq!(number(cache.min_spread(t1, t2)), t1 as f64);
        assert_eq!(number(cache.max_spread(t1, t2)), t2 as f64);
    }
}

#[test]
fn max_spread_reads_the_greatest_of_whole_buckets() {
    let mut cache = MarketDataCache::new(3, 10);
    cache.insert(sample(1, 1.0));
    cache.insert(sample(12, 9.0));
    cache.insert(sample(15, -4.0));
    cache.insert(sample(25, 2.0));
    assert_eq!(number(cache.max_spread(0, 29)), 9.0);
    assert_eq!(number(cache.min_spread(0, 29)), -4.0);
}

#[test]
fn test_spread_percentiles() {
    let mut cache = MarketDataCache::new(10, 10);
    let entries: Vec<MarketDataEntry> = (0..100)
        .map(|i| MarketDataEntry { utc_epoch_ns: i, spread: key(i as f64) })
        .collect();
    for entry in entries {
        cache.insert(entry);
    }
    let (a, b, c) = percentiles(&cache, 0, 99);

    assert_eq!(a, 9.5);
    assert_eq!(b, 49.5);
    assert_eq!(c, 89.5);
}

#[test]
fn percentile_segments_cover_the_range() {
    let cache = hundred_cache();
    let seg = cache.percentile_segments(25, 61);
    let head: Vec<f64> = seg.head.iter().map(|k| number(*k)).collect();
    let tail: Vec<f64> = seg.tail.iter().map(|k| number(*k)).collect();
    assert_eq!(head, vec![25.0, 26.0, 27.0, 28.0, 29.0]);
    assert_eq!((seg.first_whole, seg.end_whole), (3, 6));
    assert_eq!(tail, vec![60.0, 61.0]);

    let seg = cache.percentile_segments(42, 47);
    let head: Vec<f64> = seg.head.iter().map(|k| number(*k)).collect();
    assert_eq!(head, vec![42.0, 43.0, 44.0, 45.0, 46.0, 47.0]);
    assert_eq!(seg.first_whole, seg.end_whole);
    assert!(seg.tail.is_empty());
}

#[test]
fn percentiles_of_a_uniform_range() {
    let cache = hundred_cache();
    let (a, b, c) = percentiles(&cache, 20, 60);
    assert!((a - 24.0).abs() <= 0.5);
    assert!((b - 40.0).abs() <= 0.5);
    assert!((c - 56.0).abs() <= 0.5);
}

#[test]
fn insert_in_the_horizon_counts_once() {
    let mut cache = hundred_cache();
    let before = cache.count();
    cache.insert(sample(42, 0.25));
    assert_eq!(cache.count(), before + 1);
    assert_eq!(cache.count_range(42, 42), 2);
    assert_eq!(cache.buckets[4].entries.len(), 11);
    assert_eq!(cache.buckets[4].entries[10], sample(42, 0.25));
    assert_eq!(number(cache.min_spread(40, 49)), 0.25);
}

#[test]
fn insert_before_the_ring_is_dropped() {
    let mut cache = small_cache();
    cache.insert(sample(39, 1.0));
    cache.insert(sample(0, 1.0));
    assert_eq!(cache.count(), 7);
    assert_eq!(cache.buckets[0].start_time_ns, 40);
    assert_eq!(cache.count_range(40, 79), 7);
}

#[test]
fn insert_far_ahead_starts_the_ring_afresh() {
    let mut cache = hundred_cache();
    cache.insert(sample(1000, 0.0));
    assert_eq!(cache.count(), 1);
    assert_eq!(cache.buckets.len(), 10);
    assert_eq!(cache.buckets[0].start_time_ns, 1000);
    assert_eq!(cache.count_range(1000, 1000), 1);
    for (i, bucket) in cache.buckets.iter().enumerate() {
        assert_eq!(bucket.start_time_ns, 1000 + 10 * i as u64);
        assert_eq!(bucket.end_time_ns - bucket.start_time_ns, 10);
    }
}

#[test]
fn insert_just_short_of_a_fresh_start_slides() {
    // The farthest sample that still slides: one bucket of the old ring stays.
    let mut cache = MarketDataCache::new(4, 10);
    for ts in [0u64, 12, 30, 31, 39] {
        cache.insert(sample(ts, ts as f64));
    }
    cache.insert(sample(69, 1.0));
    assert_eq!(cache.buckets[0].start_time_ns, 30);
    assert_eq!(cache.buckets[3].end_time_ns, 70);
    // The sample that sat exactly at the new start went with the slide.
    let kept: Vec<u64> = cache.buckets[0].entries.iter().map(|e| e.utc_epoch_ns).collect();
    assert_eq!(kept, vec![31, 39]);
    assert_eq!(cache.buckets[3].entries, vec![sample(69, 1.0)]);
    assert_eq!(cache.count(), 3);
    // One bucket farther and nothing of the old ring stays.
    cache.insert(sample(100, 2.0));
    assert_eq!(cache.buckets[0].start_time_ns, 100);
    assert_eq!(cache.count(), 1);
}

#[test]
fn spread_helpers_on_references() {
    let a = sample(1, 3.0);
    let b = sample(2, -1.0);
    let c = sample(3, 2.0);
    let refs = vec![&a, &b, &c];
    assert_eq!(number(least_spread_of(&refs)), -1.0);
    assert_eq!(number(greatest_spread_of(&refs)), 3.0);
    assert_eq!(spreads_of_entries(&refs), vec![key(3.0), key(-1.0), key(2.0)]);
    let none: Vec<&MarketDataEntry> = Vec::new();
    assert_eq!(least_spread_of(&none), EMPTY_MIN_SPREAD);
    assert_eq!(greatest_spread_of(&none), EMPTY_MAX_SPREAD);
}

#[test]
fn default_cache_covers_one_hour() {
    let cache = MarketDataCache::with_defaults();
    assert_eq!(cache.num_buckets, 36_000);
    assert_eq!(cache.bucket_ns, 100_000_000);
    assert_eq!(DEFAULT_NUM_BUCKETS as u64 * DEFAULT_BUCKET_NS, 3_600_000_000_000);
    assert_eq!(cache.count(), 0);
    assert!(cache.buckets.is_empty());
}

#[test]
fn in_horizon_is_half_open() {
    let mut cache = MarketDataCache::new(4, 10);
    assert!(!cache.in_horizon(0));
    cache.insert(sample(25, 1.0));
    assert!(!cache.in_horizon(19));
    assert!(cache.in_horizon(20));
    assert!(cache.in_horizon(59));
    assert!(!cache.in_horizon(60));
}

#[test]
fn can_insert_refuses_what_does_not_fit() {
    let cache = MarketDataCache::new(4, 10);
    assert!(cache.can_insert(&sample(0, 1.0)));
    assert!(cache.can_insert(&sample(u64::MAX - 40, 1.0)));
    assert!(!cache.can_insert(&sample(u64::MAX - 35, 1.0)));
    assert!(!cache.can_insert(&sample(0, f64::INFINITY)));
    assert!(!cache.can_insert(&sample(0, f64::NAN)));

    let cache = small_cache();
    // Older than the ring, or inside it: nothing has to fit.
    assert!(cache.can_insert(&sample(0, 1.0)));
    // A sample that is dropped may have any spread; one that is admitted may not.
    assert!(cache.can_insert(&sample(39, f64::NAN)));
    assert!(!cache.can_insert(&sample(40, f64::NAN)));
    assert!(!cache.can_insert(&sample(100, f64::NEG_INFINITY)));
    assert!(cache.can_insert(&sample(79, 1.0)));
    // A slide needs one more bucket after the aligned timestamp.
    assert!(cache.can_insert(&sample(100, 1.0)));
    assert!(!cache.can_insert(&sample(u64::MAX, 1.0)));
    assert!(!cache.can_insert(&sample(u64::MAX - 20, 1.0)));
}

#[test]
fn can_remove_up_to_refuses_what_does_not_fit() {
    let cache = MarketDataCache::new(4, 10);
    assert!(cache.can_remove_up_to(u64::MAX));
    let cache = small_cache();
    assert!(cache.can_remove_up_to(0));
    assert!(cache.can_remove_up_to(60));
    assert!(cache.can_remove_up_to(1000));
    assert!(cache.can_remove_up_to(u64::MAX));

    let mut late = MarketDataCache::new(4, 10);
    late.insert(sample(u64::MAX - 45, 1.0));
    assert_eq!(late.buckets[3].end_time_ns, u64::MAX - 5);
    assert!(late.can_remove_up_to(u64::MAX - 36));
    assert!(!late.can_remove_up_to(u64::MAX - 35));
    assert!(!late.can_remove_up_to(u64::MAX));
}

#[test]
fn insert_discards_the_sketch_of_the_bucket_it_fills() {
    let mut cache = hundred_cache();
    cache.buckets[4].tdigest = Some(TDigest::new_with_size(100));
    cache.buckets[5].tdigest = Some(TDigest::new_with_size(100));
    cache.insert(sample(42, 0.25));
    assert!(cache.buckets[4].tdigest.is_none());
    assert!(cache.buckets[5].tdigest.is_some());
}

#[test]
fn a_dropped_sample_may_have_any_spread() {
    let mut cache = small_cache();
    let before: Vec<MarketDataEntry> =
        cache.buckets.iter().flat_map(|b| b.entries.iter().copied()).collect();
    cache.insert(sample(39, f64::NAN));
    cache.insert(sample(0, f64::INFINITY));
    let after: Vec<MarketDataEntry> =
        cache.buckets.iter().flat_map(|b| b.entries.iter().copied()).collect();
    assert_eq!(after, before);
    assert_eq!(cache.count(), 7);
    assert_eq!(cache.buckets[0].start_time_ns, 40);
}

#[test]
fn insert_in_the_horizon_adds_one_to_its_own_range() {
    let mut cache = small_cache();
    for ts in [45u64, 52, 60, 79, 40] {
        let held = cache.count();
        let at = cache.count_range(ts, ts);
        cache.insert(sample(ts, 0.5));
        assert_eq!(cache.count(), held + 1);
        assert_eq!(cache.count_range(ts, ts), at + 1);
        assert!(cache.count_range(ts, ts) >= 1);
    }
}

#[test]
fn range_ending_at_a_bucket_boundary() {
    // The last bucket of the range holds only the sample that sits at its start.
    let mut cache = MarketDataCache::new(10, 10);
    let entries: Vec<MarketDataEntry> = (0..100)
        .map(|i| MarketDataEntry { utc_epoch_ns: i, spread: key(i as f64) })
        .collect();
    for entry in entries {
        cache.insert(entry);
    }
    assert_eq!(cache.count_range(25, 40), 16);
    assert_eq!(number(cache.max_spread(25, 40)), 40.0);
    assert_eq!(cache.count_range(30, 39), 10);
    assert_eq!(number(cache.max_spread(30, 39)), 39.0);
    assert_eq!(cache.count_range(29, 30), 2);
    assert_eq!(number(cache.min_spread(29, 30)), 29.0);
}
