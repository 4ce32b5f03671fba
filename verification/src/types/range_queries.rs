//! Range queries. A range is answered in three parts: the bucket that holds the start of
//! the range (its samples from the start on), the whole buckets in between (their kept
//! aggregates), and the bucket that holds the end of the range (its samples up to the end).

use crate::layout::lemma_bucket_order;
use crate::ring::{
    lemma_ring_between_selects, lemma_ring_concat, lemma_ring_finite, lemma_ring_inside,
    lemma_ring_len_le,
    lemma_ring_outside, lemma_ring_pop_front, lemma_ring_window_split, lemma_segment_first,
    lemma_segment_grows, ring_between, ring_samples,
};
use crate::samples::{
    entries_between, greatest_spread, greatest_spread_of, in_window, least_spread,
    least_spread_of, lemma_between_agree, lemma_between_all, lemma_between_bounds,
    lemma_between_concat, lemma_between_push, lemma_extremes_concat, lemma_extremes_finite,
    lemma_extremes_range, spreads_of, spreads_of_entries,
};
use crate::spread::{greater, is_finite_spread, lesser, EMPTY_MAX_SPREAD, EMPTY_MIN_SPREAD};
use crate::types::market_data::MarketDataCache;
use crate::types::MarketDataEntry;
use crate::utils::find_bucket_index;
use vstd::arithmetic::div_mod::lemma_div_is_ordered;
use vstd::prelude::*;

verus! {

/// What the percentiles of a range are computed from: the spreads of the samples of the
/// range in its first bucket, the whole buckets in between (by index, from `first_whole` up
/// to but not including `end_whole`), and the spreads of the samples of the range in its
/// last bucket. A rank sketch is built from each of the two lists that is not empty, the
/// buckets in between contribute their own sketches, and the sketches are merged.
#[derive(Debug)]
pub struct RangeSegments {
    pub head: Vec<u64>,
    pub first_whole: usize,
    pub end_whole: usize,
    pub tail: Vec<u64>,
}

impl MarketDataCache {
    /// The samples in the cache with a timestamp in `[start_time, end_time]`, bucket by
    /// bucket.
    pub open spec fn spec_range(&self, start_time: u64, end_time: u64) -> Seq<MarketDataEntry> {
        ring_between(self.buckets@, start_time as int, end_time as int)
    }

    /// The samples of a range are those samples of the cache whose timestamps lie in the
    /// range, in the order they have in the cache.
    pub proof fn lemma_range_selects(&self, start_time: u64, end_time: u64)
        ensures
            self.spec_range(start_time, end_time) == entries_between(
                self@,
                start_time as int,
                end_time as int,
            ),
    {
        lemma_ring_between_selects(self.buckets@, start_time as int, end_time as int);
    }

    /// How many samples have a timestamp in `[start_time, end_time]`.
    pub open spec fn spec_count_range(&self, start_time: u64, end_time: u64) -> nat {
        self.spec_range(start_time, end_time).len()
    }

    /// The least spread among the samples in `[start_time, end_time]`.
    pub open spec fn spec_min_spread(&self, start_time: u64, end_time: u64) -> u64 {
        least_spread(self.spec_range(start_time, end_time))
    }

    /// The greatest spread among the samples in `[start_time, end_time]`.
    pub open spec fn spec_max_spread(&self, start_time: u64, end_time: u64) -> u64 {
        greatest_spread(self.spec_range(start_time, end_time))
    }

    /// In a range that spans more than one bucket, the buckets before the first and after
    /// the last hold nothing of the range, the first holds what it has from the start of the
    /// range on, the last what it has up to the end of the range, and those in between lie
    /// in the range whole.
    pub proof fn lemma_three_segments(&self, start_time: u64, end_time: u64)
        requires
            self.wf(),
            self.spec_in_horizon(start_time),
            self.spec_in_horizon(end_time),
            start_time <= end_time,
        ensures
            0 <= self.spec_index(start_time) <= self.spec_index(end_time) < self.num_buckets,
            self.spec_range(start_time, end_time) == ring_between(
                self.buckets@.subrange(
                    self.spec_index(start_time),
                    self.spec_index(end_time) + 1,
                ),
                start_time as int,
                end_time as int,
            ),
            self.spec_index(start_time) < self.spec_index(end_time) ==> {
                &&& self.buckets@[self.spec_index(start_time)].spec_start_from(start_time)
                    == entries_between(
                    self.buckets@[self.spec_index(start_time)].entries@,
                    start_time as int,
                    end_time as int,
                )
                &&& self.buckets@[self.spec_index(end_time)].spec_end_before(end_time)
                    == entries_between(
                    self.buckets@[self.spec_index(end_time)].entries@,
                    start_time as int,
                    end_time as int,
                )
                &&& forall|i: int|
                    self.spec_index(start_time) < i < self.spec_index(end_time)
                        ==> entries_between(
                        (#[trigger] self.buckets@[i]).entries@,
                        start_time as int,
                        end_time as int,
                    ) == self.buckets@[i].entries@ && self.buckets@[i].wf()
            },
    {
        let b = self.buckets@;
        let w = self.bucket_ns;
        let lo = start_time as int;
        let hi = end_time as int;
        let s = self.spec_index(start_time);
        let e = self.spec_index(end_time);
        self.lemma_locate(start_time);
        self.lemma_locate(end_time);
        lemma_div_is_ordered(lo - self.spec_start(), hi - self.spec_start(), w as int);
        // Nothing before the first bucket of the range, nothing after the last.
        let before = b.take(s);
        let after = b.skip(e + 1);
        let mid = b.subrange(s, e + 1);
        assert forall|i: int, j: int|
            0 <= i < before.len() && 0 <= j < before[i].entries@.len() implies !in_window(
            #[trigger] before[i].entries@[j],
            lo,
            hi,
        ) by {
            assert(before[i] == b[i]);
            assert(b[i].wf());
            lemma_bucket_order(b, w, i, s);
        }
        lemma_ring_outside(before, lo, hi);
        assert forall|i: int, j: int|
            0 <= i < after.len() && 0 <= j < after[i].entries@.len() implies !in_window(
            #[trigger] after[i].entries@[j],
            lo,
            hi,
        ) by {
            assert(after[i] == b[i + e + 1]);
            assert(b[i + e + 1].wf());
            lemma_bucket_order(b, w, e, i + e + 1);
        }
        lemma_ring_outside(after, lo, hi);
        assert(b =~= before + mid + after);
        lemma_ring_concat(before + mid, after, lo, hi);
        lemma_ring_concat(before, mid, lo, hi);
        assert(ring_between(b, lo, hi) =~= ring_between(mid, lo, hi));
        if s < e {
            let head = b[s];
            let tail = b[e];
            assert(head.wf() && tail.wf());
            lemma_bucket_order(b, w, s, e);
            lemma_between_agree(head.entries@, lo, u64::MAX as int, lo, hi);
            lemma_between_agree(tail.entries@, 0, hi, lo, hi);
            assert forall|i: int| s < i < e implies entries_between(
                (#[trigger] b[i]).entries@,
                lo,
                hi,
            ) == b[i].entries@ && b[i].wf() by {
                assert(b[i].wf());
                lemma_bucket_order(b, w, s, i);
                lemma_bucket_order(b, w, i, e);
                lemma_between_all(b[i].entries@, lo, hi);
            }
        }
    }

    /// The indices of the buckets that hold the two ends of a range.
    fn locate_range(&self, start_time: u64, end_time: u64) -> (r: (usize, usize))
        requires
            self.wf(),
            self.spec_in_horizon(start_time),
            self.spec_in_horizon(end_time),
            start_time <= end_time,
        ensures
            r.0 == self.spec_index(start_time),
            r.1 == self.spec_index(end_time),
            r.0 <= r.1 < self.num_buckets,
    {
        proof {
            self.lemma_three_segments(start_time, end_time);
        }
        let cache_start_time_ns: u64 = self.buckets[0].start_time_ns;
        let start_idx: usize = find_bucket_index(cache_start_time_ns, start_time, self.bucket_ns).unwrap();
        let end_idx: usize = find_bucket_index(cache_start_time_ns, end_time, self.bucket_ns).unwrap();
        (start_idx, end_idx)
    }

    /// The number of samples with a timestamp in `[start_time, end_time]`, both ends
    /// included. Both times lie in the horizon.
    pub fn count_range(&self, start_time: u64, end_time: u64) -> (cnt: usize)
        requires
            self.wf(),
            self.spec_in_horizon(start_time),
            self.spec_in_horizon(end_time),
            start_time <= end_time,
        ensures
            cnt == self.spec_count_range(start_time, end_time),
            cnt == entries_between(self@, start_time as int, end_time as int).len(),
            cnt <= self.count,
    {
        proof {
            self.lemma_range_selects(start_time, end_time);
        }
        let (start_idx, end_idx) = self.locate_range(start_time, end_time);
        let ghost b = self.buckets@;
        let ghost lo = start_time as int;
        let ghost hi = end_time as int;
        proof {
            self.lemma_three_segments(start_time, end_time);
            lemma_ring_len_le(b, lo, hi);
            lemma_segment_first(b, start_idx as int, lo, hi);
        }
        if start_idx == end_idx {
            return self.buckets[start_idx].count_between(start_time, end_time);
        }
        // The first bucket of the range, in part.
        let mut cnt: usize = self.buckets[start_idx].count_start_from(start_time);
        // The whole buckets in between.
        let mut i: usize = start_idx + 1;
        while i < end_idx
            invariant
                b == self.buckets@,
                start_idx < i <= end_idx < b.len(),
                cnt == ring_between(b.subrange(start_idx as int, i as int), lo, hi).len(),
                ring_between(b.subrange(start_idx as int, end_idx + 1), lo, hi).len()
                    <= self.count,
                forall|k: int|
                    start_idx < k < end_idx ==> entries_between(
                        (#[trigger] b[k]).entries@,
                        lo,
                        hi,
                    ) == b[k].entries@ && b[k].wf(),
            decreases end_idx - i,
        {
            proof {
                lemma_segment_grows(b, start_idx as int, i as int, end_idx + 1, lo, hi);
                assert(b[i as int].wf());
            }
            cnt += self.buckets[i].count;
            i += 1;
        }
        // The last bucket of the range, in part.
        proof {
            lemma_segment_grows(b, start_idx as int, end_idx as int, end_idx + 1, lo, hi);
        }
        cnt += self.buckets[end_idx].count_end_before(end_time);
        cnt
    }

    /// The least spread among the samples with a timestamp in `[start_time, end_time]`,
    /// both ends included; the key of positive infinity when there is none. Both times lie in
    /// the horizon.
    pub fn min_spread(&self, start_time: u64, end_time: u64) -> (r: u64)
        requires
            self.wf(),
            self.spec_in_horizon(start_time),
            self.spec_in_horizon(end_time),
            start_time <= end_time,
        ensures
            r == self.spec_min_spread(start_time, end_time),
            r == least_spread(entries_between(self@, start_time as int, end_time as int)),
    {
        proof {
            self.lemma_range_selects(start_time, end_time);
        }
        let (start_idx, end_idx) = self.locate_range(start_time, end_time);
        let ghost b = self.buckets@;
        let ghost lo = start_time as int;
        let ghost hi = end_time as int;
        proof {
            self.lemma_three_segments(start_time, end_time);
            lemma_segment_first(b, start_idx as int, lo, hi);
        }
        if start_idx == end_idx {
            let entries = self.buckets[start_idx].get_between(start_time, end_time);
            return least_spread_of(&entries);
        }
        // The first bucket of the range, in part.
        let entries = self.buckets[start_idx].get_start_from(start_time);
        let mut r: u64 = least_spread_of(&entries);
        // The whole buckets in between.
        let mut i: usize = start_idx + 1;
        while i < end_idx
            invariant
                b == self.buckets@,
                start_idx < i <= end_idx < b.len(),
                r == least_spread(ring_between(b.subrange(start_idx as int, i as int), lo, hi)),
                forall|k: int|
                    start_idx < k < end_idx ==> entries_between(
                        (#[trigger] b[k]).entries@,
                        lo,
                        hi,
                    ) == b[k].entries@ && b[k].wf(),
            decreases end_idx - i,
        {
            proof {
                lemma_segment_grows(b, start_idx as int, i as int, end_idx + 1, lo, hi);
                lemma_extremes_concat(
                    ring_between(b.subrange(start_idx as int, i as int), lo, hi),
                    b[i as int].entries@,
                );
                assert(b[i as int].wf());
            }
            r = lesser(r, self.buckets[i].min_spread);
            i += 1;
        }
        // The last bucket of the range, in part.
        proof {
            lemma_segment_grows(b, start_idx as int, end_idx as int, end_idx + 1, lo, hi);
            lemma_extremes_concat(
                ring_between(b.subrange(start_idx as int, end_idx as int), lo, hi),
                entries_between(b[end_idx as int].entries@, lo, hi),
            );
        }
        let entries = self.buckets[end_idx].get_end_before(end_time);
        r = lesser(r, least_spread_of(&entries));
        r
    }

    /// The greatest spread among the samples with a timestamp in `[start_time, end_time]`,
    /// both ends included; the key of negative infinity when there is none. Both times lie in
    /// the horizon.
    pub fn max_spread(&self, start_time: u64, end_time: u64) -> (r: u64)
        requires
            self.wf(),
            self.spec_in_horizon(start_time),
            self.spec_in_horizon(end_time),
            start_time <= end_time,
        ensures
            r == self.spec_max_spread(start_time, end_time),
            r == greatest_spread(entries_between(self@, start_time as int, end_time as int)),
    {
        proof {
            self.lemma_range_selects(start_time, end_time);
        }
        let (start_idx, end_idx) = self.locate_range(start_time, end_time);
        let ghost b = self.buckets@;
        let ghost lo = start_time as int;
        let ghost hi = end_time as int;
        proof {
            self.lemma_three_segments(start_time, end_time);
            lemma_segment_first(b, start_idx as int, lo, hi);
        }
        if start_idx == end_idx {
            let entries = self.buckets[start_idx].get_between(start_time, end_time);
            return greatest_spread_of(&entries);
        }
        // The first bucket of the range, in part.
        let entries = self.buckets[start_idx].get_start_from(start_time);
        let mut r: u64 = greatest_spread_of(&entries);
        // The whole buckets in between.
        let mut i: usize = start_idx + 1;
        while i < end_idx
            invariant
                b == self.buckets@,
                start_idx < i <= end_idx < b.len(),
                r == greatest_spread(ring_between(b.subrange(start_idx as int, i as int), lo, hi)),
                forall|k: int|
                    start_idx < k < end_idx ==> entries_between(
                        (#[trigger] b[k]).entries@,
                        lo,
                        hi,
                    ) == b[k].entries@ && b[k].wf(),
            decreases end_idx - i,
        {
            proof {
                lemma_segment_grows(b, start_idx as int, i as int, end_idx + 1, lo, hi);
                lemma_extremes_concat(
                    ring_between(b.subrange(start_idx as int, i as int), lo, hi),
                    b[i as int].entries@,
                );
                assert(b[i as int].wf());
            }
            r = greater(r, self.buckets[i].max_spread);
            i += 1;
        }
        // The last bucket of the range, in part.
        proof {
            lemma_segment_grows(b, start_idx as int, end_idx as int, end_idx + 1, lo, hi);
            lemma_extremes_concat(
                ring_between(b.subrange(start_idx as int, end_idx as int), lo, hi),
                entries_between(b[end_idx as int].entries@, lo, hi),
            );
        }
        let entries = self.buckets[end_idx].get_end_before(end_time);
        r = greater(r, greatest_spread_of(&entries));
        r
    }

    /// The three segments of the range `[start_time, end_time]`, both ends included. Both
    /// times lie in the horizon. Together the segments hold exactly the samples of the
    /// range, oldest bucket first.
    pub fn percentile_segments(&self, start_time: u64, end_time: u64) -> (seg: RangeSegments)
        requires
            self.wf(),
            self.spec_in_horizon(start_time),
            self.spec_in_horizon(end_time),
            start_time <= end_time,
        ensures
            seg.head@ == spreads_of(
                entries_between(
                    self.buckets@[self.spec_index(start_time)].entries@,
                    start_time as int,
                    end_time as int,
                ),
            ),
            seg.first_whole == self.spec_index(start_time) + 1,
            seg.end_whole == if self.spec_index(start_time) < self.spec_index(end_time) {
                self.spec_index(end_time)
            } else {
                self.spec_index(start_time) + 1
            },
            seg.first_whole <= seg.end_whole <= self.num_buckets,
            seg.tail@ == if self.spec_index(start_time) < self.spec_index(end_time) {
                spreads_of(
                    entries_between(
                        self.buckets@[self.spec_index(end_time)].entries@,
                        start_time as int,
                        end_time as int,
                    ),
                )
            } else {
                Seq::<u64>::empty()
            },
            seg.head@ + spreads_of(
                ring_samples(self.buckets@.subrange(seg.first_whole as int, seg.end_whole as int)),
            ) + seg.tail@ == spreads_of(self.spec_range(start_time, end_time)),
    {
        let (start_idx, end_idx) = self.locate_range(start_time, end_time);
        let ghost b = self.buckets@;
        let ghost lo = start_time as int;
        let ghost hi = end_time as int;
        proof {
            self.lemma_three_segments(start_time, end_time);
            lemma_segment_first(b, start_idx as int, lo, hi);
        }
        if start_idx == end_idx {
            let entries = self.buckets[start_idx].get_between(start_time, end_time);
            let head = spreads_of_entries(&entries);
            let tail: Vec<u64> = Vec::new();
            proof {
                let whole = b.subrange(start_idx + 1, start_idx + 1);
                assert(ring_samples(whole) =~= Seq::<MarketDataEntry>::empty());
                assert(head@ + spreads_of(ring_samples(whole)) + tail@ =~= head@);
            }
            return RangeSegments { head, first_whole: start_idx + 1, end_whole: start_idx + 1, tail };
        }
        let entries = self.buckets[start_idx].get_start_from(start_time);
        let head = spreads_of_entries(&entries);
        let entries = self.buckets[end_idx].get_end_before(end_time);
        let tail = spreads_of_entries(&entries);
        proof {
            let range = b.subrange(start_idx as int, end_idx + 1);
            let whole = b.subrange(start_idx + 1, end_idx as int);
            lemma_ring_pop_front(range, lo, hi);
            assert(range.subrange(1, range.len() as int) =~= b.subrange(start_idx + 1, end_idx + 1));
            lemma_segment_grows(b, start_idx + 1, end_idx as int, end_idx + 1, lo, hi);
            assert forall|i: int, j: int|
                0 <= i < whole.len() && 0 <= j < whole[i].entries@.len() implies in_window(
                #[trigger] whole[i].entries@[j],
                lo,
                hi,
            ) by {
                let k = i + start_idx + 1;
                assert(whole[i] == b[k]);
                lemma_between_bounds(b[k].entries@, lo, hi);
            }
            lemma_ring_inside(whole, lo, hi);
            let first = entries_between(b[start_idx as int].entries@, lo, hi);
            let last = entries_between(b[end_idx as int].entries@, lo, hi);
            assert(self.spec_range(start_time, end_time) =~= first + ring_samples(whole) + last);
            assert(spreads_of(first + ring_samples(whole) + last) =~= spreads_of(first)
                + spreads_of(ring_samples(whole)) + spreads_of(last));
        }
        RangeSegments { head, first_whole: start_idx + 1, end_whole: end_idx, tail }
    }

    /// No range holds more samples than the cache does.
    pub proof fn lemma_count_range_at_most_count(&self, start_time: u64, end_time: u64)
        requires
            self.wf(),
        ensures
            self.spec_count_range(start_time, end_time) <= self.count,
            self.spec_count_range(start_time, end_time) <= self@.len(),
    {
        lemma_ring_len_le(self.buckets@, start_time as int, end_time as int);
    }

    /// In a range that holds a sample, the least spread is at most the greatest.
    pub proof fn lemma_min_spread_at_most_max_spread(&self, start_time: u64, end_time: u64)
        requires
            self.spec_count_range(start_time, end_time) > 0,
        ensures
            self.spec_min_spread(start_time, end_time) <= self.spec_max_spread(
                start_time,
                end_time,
            ),
    {
        lemma_extremes_range(self.spec_range(start_time, end_time));
    }

    /// A range reports the key of positive infinity as its least spread exactly when it
    /// holds no sample, and likewise the key of negative infinity as its greatest; the
    /// extremes of a range that holds a sample are spreads of finite numbers.
    pub proof fn lemma_empty_range_extremes(&self, start_time: u64, end_time: u64)
        requires
            self.wf(),
        ensures
            self.spec_min_spread(start_time, end_time) == EMPTY_MIN_SPREAD
                <==> self.spec_count_range(start_time, end_time) == 0,
            self.spec_max_spread(start_time, end_time) == EMPTY_MAX_SPREAD
                <==> self.spec_count_range(start_time, end_time) == 0,
            self.spec_count_range(start_time, end_time) > 0 ==> is_finite_spread(
                self.spec_min_spread(start_time, end_time),
            ) && is_finite_spread(self.spec_max_spread(start_time, end_time)),
    {
        lemma_ring_finite(self.buckets@, start_time as int, end_time as int);
        lemma_extremes_finite(self.spec_range(start_time, end_time));
    }

    /// A sample offered at a time in the horizon is one sample more in the cache, and one
    /// more in the range that is its own timestamp alone, which then holds at least one.
    pub proof fn lemma_insert_in_horizon_adds_one(&self, data: MarketDataEntry)
        requires
            self.wf(),
            self.spec_in_horizon(data.utc_epoch_ns),
        ensures
            self.spec_view_after_insert(data).len() == self@.len() + 1,
            entries_between(
                self.spec_view_after_insert(data),
                data.utc_epoch_ns as int,
                data.utc_epoch_ns as int,
            ).len() == self.spec_count_range(data.utc_epoch_ns, data.utc_epoch_ns) + 1,
    {
        let t = data.utc_epoch_ns as int;
        let b = self.buckets@;
        let idx = self.spec_index(data.utc_epoch_ns);
        self.lemma_locate(data.utc_epoch_ns);
        self.lemma_stays(data.utc_epoch_ns);
        self.lemma_range_selects(data.utc_epoch_ns, data.utc_epoch_ns);
        let all = self@;
        let front = ring_samples(b.take(idx + 1));
        let back = ring_samples(b.skip(idx + 1));
        assert(b =~= b.take(idx + 1) + b.skip(idx + 1));
        lemma_ring_concat(b.take(idx + 1), b.skip(idx + 1), 0, u64::MAX as int);
        assert(all == front + back);
        let after = all.insert(front.len() as int, data);
        assert(after =~= front.push(data) + back);
        lemma_between_concat(front.push(data), back, t, t);
        lemma_between_concat(front, back, t, t);
        lemma_between_push(front, data, t, t);
    }

    /// A range cut in two at `mid_time` holds as many samples as its two parts together:
    /// the part up to the time just before `mid_time`, and the part from `mid_time` on.
    pub proof fn lemma_count_range_splits(&self, start_time: u64, mid_time: u64, end_time: u64)
        requires
            start_time < mid_time <= end_time,
        ensures
            self.spec_count_range(start_time, (mid_time - 1) as u64) + self.spec_count_range(
                mid_time,
                end_time,
            ) == self.spec_count_range(start_time, end_time),
    {
        lemma_ring_window_split(
            self.buckets@,
            start_time as int,
            mid_time as int,
            end_time as int,
        );
    }
}

} // verus!
