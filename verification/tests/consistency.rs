use market_data_cache::spread::{spread_bits, spread_key, EMPTY_MAX_SPREAD, EMPTY_MIN_SPREAD};
use market_data_cache::types::{MarketDataCache, MarketDataEntry};

/// A small linear congruential generator: the same numbers on every run.
struct Numbers(u64);

impl Numbers {
    fn next(&mut self, below: u64) -> u64 {
        self.0 = self.0.wrapping_mul(6364136223846793005).wrapping_add(1442695040888963407);
        (self.0 >> 33) % below
    }
}

fn number(key: u64) -> f64 {
    f64::from_bits(spread_bits(key))
}

fn all_samples(cache: &MarketDataCache) -> Vec<MarketDataEntry> {
    cache.buckets.iter().flat_map(|b| b.entries.iter().copied()).collect()
}

fn check_shape(cache: &MarketDataCache) {
    assert_eq!(cache.buckets.len(), cache.num_buckets);
    assert_eq!(cache.buckets[0].start_time_ns % cache.bucket_ns, 0);
    let mut total = 0;
    for (i, bucket) in cache.buckets.iter().enumerate() {
        assert_eq!(bucket.end_time_ns - bucket.start_time_ns, cache.bucket_ns);
        if i > 0 {
            assert_eq!(cache.buckets[i - 1].end_time_ns, bucket.start_time_ns);
        }
        assert_eq!(bucket.count, bucket.entries.len());
        let least = bucket.entries.iter().map(|e| e.spread).min().unwrap_or(EMPTY_MIN_SPREAD);
        let greatest = bucket.entries.iter().map(|e| e.spread).max().unwrap_or(EMPTY_MAX_SPREAD);
        assert_eq!(bucket.min_spread, least);
        assert_eq!(bucket.max_spread, greatest);
        assert_eq!(bucket.min_spread <= bucket.max_spread, bucket.count > 0);
        for entry in bucket.entries.iter() {
            assert!(bucket.start_time_ns <= entry.utc_epoch_ns);
            assert!(entry.utc_epoch_ns < bucket.end_time_ns);
        }
        total += bucket.count;
    }
    assert_eq!(cache.count(), total);
}

fn check_queries(cache: &MarketDataCache, numbers: &mut Numbers) {
    let start = cache.buckets[0].start_time_ns;
    let horizon = cache.num_buckets as u64 * cache.bucket_ns;
    let samples = all_samples(cache);
    for _ in 0..20 {
        let a = start + numbers.next(horizon);
        let b = start + numbers.next(horizon);
        let (t1, t2) = if a <= b { (a, b) } else { (b, a) };
        let inside: Vec<&MarketDataEntry> =
            samples.iter().filter(|e| t1 <= e.utc_epoch_ns && e.utc_epoch_ns <= t2).collect();
        let count = cache.count_range(t1, t2);
        assert_eq!(count, inside.len());
        assert!(count <= cache.count());
        let least = inside.iter().map(|e| e.spread).min().unwrap_or(EMPTY_MIN_SPREAD);
        let greatest = inside.iter().map(|e| e.spread).max().unwrap_or(EMPTY_MAX_SPREAD);
        assert_eq!(cache.min_spread(t1, t2), least);
        assert_eq!(cache.max_spread(t1, t2), greatest);
        if count > 0 {
            assert!(number(cache.min_spread(t1, t2)) <= number(cache.max_spread(t1, t2)));
        }
        if t1 < t2 {
            let tm = t1 + 1 + numbers.next(t2 - t1);
            assert_eq!(cache.count_range(t1, tm - 1) + cache.count_range(tm, t2), count);
        }
        let seg = cache.percentile_segments(t1, t2);
        let mut spreads: Vec<u64> = seg.head.clone();
        for i in seg.first_whole..seg.end_whole {
            spreads.extend(cache.buckets[i].entries.iter().map(|e| e.spread));
        }
        spreads.extend(seg.tail.iter().copied());
        let expected: Vec<u64> = inside.iter().map(|e| e.spread).collect();
        assert_eq!(spreads, expected);
    }
}

/// Holds the samples after an insert against the samples before it.
fn check_insert(
    cache: &MarketDataCache,
    before: &[MarketDataEntry],
    start_before: Option<u64>,
    entry: MarketDataEntry,
) {
    let width = cache.bucket_ns;
    let horizon = cache.num_buckets as u64 * width;
    let ts = entry.utc_epoch_ns;
    let aligned = ts - ts % width;
    let after = all_samples(cache);
    let start = match start_before {
        None => {
            assert_eq!(after, vec![entry]);
            assert_eq!(cache.buckets[0].start_time_ns, aligned);
            return;
        }
        Some(start) => start,
    };
    if ts < start {
        assert_eq!(after, before);
        assert_eq!(cache.buckets[0].start_time_ns, start);
    } else if ts < start + horizon {
        assert_eq!(cache.buckets[0].start_time_ns, start);
        let index = ((ts - start) / width) as usize;
        let position: usize = cache.buckets.iter().take(index + 1).map(|b| b.count).sum();
        let mut expected = before.to_vec();
        expected.insert(position - 1, entry);
        assert_eq!(after, expected);
    } else {
        let threshold = aligned + width - horizon;
        if threshold >= start + horizon {
            assert_eq!(after, vec![entry]);
            assert_eq!(cache.buckets[0].start_time_ns, aligned);
        } else {
            let mut expected: Vec<MarketDataEntry> =
                before.iter().copied().filter(|e| e.utc_epoch_ns > threshold).collect();
            expected.push(entry);
            assert_eq!(after, expected);
            assert_eq!(cache.buckets[0].start_time_ns, threshold);
        }
    }
}

#[test]
fn random_feed_keeps_the_cache_consistent() {
    let mut numbers = Numbers(2024);
    for (num_buckets, bucket_ns) in [(1usize, 7u64), (2, 5), (5, 10), (16, 3)] {
        let mut cache = MarketDataCache::new(num_buckets, bucket_ns);
        let mut now: u64 = 1000;
        for step in 0..600 {
            // Mostly forward in small steps, now and then a jump or a step back.
            let ts = match numbers.next(20) {
                0 => now.saturating_sub(numbers.next(40)),
                1 => {
                    now += numbers.next(200);
                    now
                }
                _ => {
                    now += numbers.next(4);
                    now
                }
            };
            let spread = numbers.next(2001) as f64 / 100.0 - 10.0;
            let entry = MarketDataEntry { utc_epoch_ns: ts, spread: spread_key(spread.to_bits()) };
            assert!(cache.can_insert(&entry));
            let before = cache.count();
            let was_inside = cache.in_horizon(ts);
            let start_before = cache.buckets.front().map(|b| b.start_time_ns);
            let samples_before = all_samples(&cache);
            cache.insert(entry);
            check_shape(&cache);
            check_insert(&cache, &samples_before, start_before, entry);
            if let Some(start) = start_before {
                assert!(cache.buckets[0].start_time_ns >= start);
                if ts < start {
                    assert_eq!(cache.count(), before);
                    continue;
                }
            }
            if was_inside {
                assert_eq!(cache.count(), before + 1);
            }
            assert!(cache.in_horizon(ts));
            assert!(cache.count_range(ts, ts) >= 1);
            if step % 25 == 0 {
                check_queries(&cache, &mut numbers);
            }
            if step % 97 == 0 {
                let start = cache.buckets[0].start_time_ns;
                let threshold = start + numbers.next(3 * num_buckets as u64 * bucket_ns);
                assert!(cache.can_remove_up_to(threshold));
                let held = cache.count();
                let gone = all_samples(&cache).iter().filter(|e| e.utc_epoch_ns <= threshold).count();
                let kept: Vec<MarketDataEntry> = all_samples(&cache)
                    .into_iter()
                    .filter(|e| e.utc_epoch_ns > threshold)
                    .collect();
                let removed = cache.remove_up_to(threshold);
                assert_eq!(all_samples(&cache), kept);
                assert_eq!(removed, gone);
                assert_eq!(cache.count(), held - gone);
                assert!(cache.buckets[0].start_time_ns >= start);
                check_shape(&cache);
                now = now.max(cache.buckets[0].start_time_ns);
            }
        }
    }
}
