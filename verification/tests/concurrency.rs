use std::sync::RwLock;

use market_data_cache::spread::spread_key;
use market_data_cache::types::{MarketDataCache, MarketDataEntry};

#[test]
fn concurrent_writers_lose_no_insert() {
    let writers: u64 = 4;
    let per_writer: u64 = 250;
    let shared = RwLock::new(MarketDataCache::new(100, 10));
    // The ring is laid out before the writers start, so that every timestamp is in it.
    shared.write().unwrap().insert(MarketDataEntry {
        utc_epoch_ns: 0,
        spread: spread_key(0.0f64.to_bits()),
    });

    rayon::scope(|scope| {
        for w in 0..writers {
            let shared = &shared;
            scope.spawn(move |_| {
                for i in 0..per_writer {
                    let ts = i * writers + w;
                    let entry = MarketDataEntry {
                        utc_epoch_ns: ts,
                        spread: spread_key((ts as f64).to_bits()),
                    };
                    shared.write().unwrap().insert(entry);
                }
            });
        }
        let shared = &shared;
        scope.spawn(move |_| {
            let mut last = 0;
            for _ in 0..100 {
                let now = shared.read().unwrap().count();
                assert!(now >= last);
                last = now;
            }
        });
    });

    let cache = shared.read().unwrap();
    assert_eq!(cache.count(), (writers * per_writer + 1) as usize);
    assert_eq!(cache.count_range(0, 999), cache.count());
}
