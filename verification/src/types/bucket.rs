//! A bucket is the smallest unit of the cache: the samples of one short stretch of time,
//! with their count and their least and greatest spread kept up to date.

use crate::samples::{
    entries_between, greatest_spread, least_spread, lemma_between_bounds, lemma_between_members,
    lemma_between_push, lemma_extremes_finite, lemma_least_push, referents,
};
use crate::spread::{
    greater, is_finite_spread, lesser, spec_greater, spec_lesser, EMPTY_MAX_SPREAD,
    EMPTY_MIN_SPREAD,
};
use crate::types::MarketDataEntry;
use tdigest::TDigest;
use vstd::prelude::*;

verus! {

/// The rank sketch of the `tdigest` crate. The cache only stores one and discards it; it
/// never looks inside.
#[verifier::external_type_specification]
#[verifier::external_body]
pub struct ExTDigest(tdigest::TDigest);

/// The samples of the half-open interval `[start_time_ns, end_time_ns)`.
///
/// `tdigest` is a place for a rank sketch of the bucket's spreads. Whoever builds one stores
/// it there; every change to the samples empties the place again.
#[derive(Clone, Debug)]
pub struct Bucket {
    pub start_time_ns: u64,
    pub end_time_ns: u64,
    pub count: usize,
    pub tdigest: Option<TDigest>,
    pub min_spread: u64,
    pub max_spread: u64,
    pub entries: Vec<MarketDataEntry>,
}

impl View for Bucket {
    type V = Seq<MarketDataEntry>;

    /// A bucket is seen as its samples, in the order of admission.
    open spec fn view(&self) -> Seq<MarketDataEntry> {
        self.entries@
    }
}

impl Default for Bucket {
    /// The empty bucket over the empty interval at time zero.
    fn default() -> (b: Self)
        ensures
            b.is_empty_over(0, 0),
    {
        Bucket::new(0, 0)
    }
}

impl Bucket {
    /// Every sample lies in the bucket's interval and has a finite spread, and the
    /// aggregates are those of the samples.
    pub open spec fn wf(&self) -> bool {
        &&& self.count == self.entries@.len()
        &&& forall|i: int|
            0 <= i < self.entries@.len() ==> {
                &&& self.start_time_ns <= (#[trigger] self.entries@[i]).utc_epoch_ns
                    < self.end_time_ns
                &&& is_finite_spread(self.entries@[i].spread)
            }
        &&& self.min_spread == least_spread(self.entries@)
        &&& self.max_spread == greatest_spread(self.entries@)
    }

    /// The bucket over `[start, end)` that holds nothing.
    pub open spec fn is_empty_over(&self, start: u64, end: u64) -> bool {
        &&& self.start_time_ns == start
        &&& self.end_time_ns == end
        &&& self.count == 0
        &&& self.entries@ == Seq::<MarketDataEntry>::empty()
        &&& self.min_spread == EMPTY_MIN_SPREAD
        &&& self.max_spread == EMPTY_MAX_SPREAD
        &&& self.tdigest.is_none()
    }

    /// Whether the time `t` lies in the bucket: in the half-open interval from its start
    /// up to, but not including, its end.
    pub open spec fn spec_holds(&self, t: u64) -> bool {
        self.start_time_ns <= t < self.end_time_ns
    }

    /// Whether `threshold` lies in the closed interval from the bucket's start to its end:
    /// the thresholds at which removal acts on the bucket.
    pub open spec fn spec_covers(&self, threshold: u64) -> bool {
        self.start_time_ns <= threshold <= self.end_time_ns
    }

    /// The least spread of a bucket is at most its greatest exactly when the bucket holds a
    /// sample, and both are then spreads of finite numbers.
    pub proof fn lemma_extremes_ordered(&self)
        requires
            self.wf(),
        ensures
            self.min_spread <= self.max_spread <==> self.count > 0,
            self.count > 0 ==> is_finite_spread(self.min_spread) && is_finite_spread(
                self.max_spread,
            ),
            self.count == 0 ==> self.min_spread == EMPTY_MIN_SPREAD && self.max_spread
                == EMPTY_MAX_SPREAD,
    {
        lemma_extremes_finite(self.entries@);
    }

    /// A bucket is defined by its start and end time, in ns.
    pub fn new(start_time_ns: u64, end_time_ns: u64) -> (b: Self)
        ensures
            b.is_empty_over(start_time_ns, end_time_ns),
            b.wf(),
    {
        Self {
            start_time_ns,
            end_time_ns,
            count: 0,
            tdigest: None,
            min_spread: EMPTY_MIN_SPREAD,
            max_spread: EMPTY_MAX_SPREAD,
            entries: Vec::new(),
        }
    }

    /// Admits the sample if its timestamp lies in the bucket's interval, and says whether it
    /// did. An admitted sample is appended, counted and taken into the extremes, and the
    /// sketch is discarded. A sample outside the interval changes nothing, whatever its
    /// spread; only a sample that is admitted has to have a finite one.
    pub fn insert(&mut self, market_data_entry: MarketDataEntry) -> (accepted: bool)
        requires
            old(self).wf(),
            old(self).spec_holds(market_data_entry.utc_epoch_ns) ==> is_finite_spread(
                market_data_entry.spread,
            ),
        ensures
            final(self).wf(),
            accepted == old(self).spec_holds(market_data_entry.utc_epoch_ns),
            !accepted ==> *final(self) == *old(self),
            accepted ==> {
                &&& final(self).entries@ == old(self).entries@.push(market_data_entry)
                &&& final(self).count == old(self).count + 1
                &&& final(self).min_spread == spec_lesser(
                    old(self).min_spread,
                    market_data_entry.spread,
                )
                &&& final(self).max_spread == spec_greater(
                    old(self).max_spread,
                    market_data_entry.spread,
                )
                &&& final(self).start_time_ns == old(self).start_time_ns
                &&& final(self).end_time_ns == old(self).end_time_ns
                &&& final(self).tdigest.is_none()
            },
    {
        if !(self.start_time_ns <= market_data_entry.utc_epoch_ns
            && market_data_entry.utc_epoch_ns < self.end_time_ns) {
            return false;
        }
        self.tdigest = None;
        let spread: u64 = market_data_entry.spread;
        self.min_spread = lesser(self.min_spread, spread);
        self.max_spread = greater(self.max_spread, spread);
        proof {
            lemma_least_push(self.entries@, market_data_entry);
        }
        self.entries.push(market_data_entry);
        self.count = self.entries.len();
        true
    }

    /// Removes every sample with a timestamp up to and including `threshold`, provided the
    /// threshold lies between the bucket's start and end (both included), and returns how
    /// many were removed. The samples that stay keep their order; count and extremes are
    /// recomputed and the sketch is discarded. A threshold outside changes nothing.
    pub fn remove_up_to(&mut self, threshold: u64) -> (removed: usize)
        requires
            old(self).wf(),
        ensures
            final(self).wf(),
            !old(self).spec_covers(threshold) ==> *final(self) == *old(self) && removed == 0,
            old(self).spec_covers(threshold) ==> {
                &&& final(self).entries@ == entries_between(
                    old(self).entries@,
                    threshold + 1,
                    u64::MAX as int,
                )
                &&& removed == old(self).count - final(self).count
                &&& final(self).start_time_ns == old(self).start_time_ns
                &&& final(self).end_time_ns == old(self).end_time_ns
                &&& final(self).tdigest.is_none()
            },
    {
        if threshold < self.start_time_ns || threshold > self.end_time_ns {
            return 0;
        }
        let count_before: usize = self.count;
        let mut kept: Vec<MarketDataEntry> = Vec::new();
        let mut min_spread: u64 = EMPTY_MIN_SPREAD;
        let mut max_spread: u64 = EMPTY_MAX_SPREAD;
        let mut i: usize = 0;
        while i < self.entries.len()
            invariant
                *self == *old(self),
                self.wf(),
                0 <= i <= self.entries@.len(),
                kept@ == entries_between(self.entries@.take(i as int), threshold + 1, u64::MAX as int),
                min_spread == least_spread(kept@),
                max_spread == greatest_spread(kept@),
            decreases self.entries@.len() - i,
        {
            let entry: MarketDataEntry = self.entries[i];
            proof {
                assert(self.entries@.take(i + 1) =~= self.entries@.take(i as int).push(entry));
                lemma_between_push(
                    self.entries@.take(i as int),
                    entry,
                    threshold + 1,
                    u64::MAX as int,
                );
                lemma_least_push(kept@, entry);
            }
            if entry.utc_epoch_ns > threshold {
                min_spread = lesser(min_spread, entry.spread);
                max_spread = greater(max_spread, entry.spread);
                kept.push(entry);
            }
            i += 1;
        }
        proof {
            assert(self.entries@.take(i as int) =~= self.entries@);
            lemma_between_bounds(self.entries@, threshold + 1, u64::MAX as int);
            lemma_between_members(self.entries@, threshold + 1, u64::MAX as int);
        }
        self.entries = kept;
        self.count = self.entries.len();
        self.min_spread = min_spread;
        self.max_spread = max_spread;
        self.tdigest = None;
        count_before - self.count
    }

    /// The samples with a timestamp in `[lo, hi]`, in order.
    pub fn get_between(&self, lo: u64, hi: u64) -> (found: Vec<&MarketDataEntry>)
        ensures
            referents(found@) == entries_between(self.entries@, lo as int, hi as int),
    {
        let mut found: Vec<&MarketDataEntry> = Vec::new();
        let mut i: usize = 0;
        while i < self.entries.len()
            invariant
                0 <= i <= self.entries@.len(),
                referents(found@) == entries_between(
                    self.entries@.take(i as int),
                    lo as int,
                    hi as int,
                ),
            decreases self.entries@.len() - i,
        {
            let entry: &MarketDataEntry = &self.entries[i];
            proof {
                assert(self.entries@.take(i + 1) =~= self.entries@.take(i as int).push(*entry));
                lemma_between_push(self.entries@.take(i as int), *entry, lo as int, hi as int);
                assert(referents(found@.push(entry)) =~= referents(found@).push(*entry));
            }
            if lo <= entry.utc_epoch_ns && entry.utc_epoch_ns <= hi {
                found.push(entry);
            }
            i += 1;
        }
        proof {
            assert(self.entries@.take(i as int) =~= self.entries@);
        }
        found
    }

    /// The number of samples with a timestamp in `[lo, hi]`.
    pub fn count_between(&self, lo: u64, hi: u64) -> (n: usize)
        ensures
            n == entries_between(self.entries@, lo as int, hi as int).len(),
    {
        let found = self.get_between(lo, hi);
        assert(referents(found@).len() == found@.len());
        found.len()
    }

    /// The samples from `threshold` on, in order; nothing when the threshold lies outside
    /// the bucket, that is before its start, or at or after its end.
    pub fn get_start_from(&self, threshold: u64) -> (found: Vec<&MarketDataEntry>)
        ensures
            referents(found@) == self.spec_start_from(threshold),
    {
        if self.start_time_ns <= threshold && threshold < self.end_time_ns {
            self.get_between(threshold, u64::MAX)
        } else {
            let found: Vec<&MarketDataEntry> = Vec::new();
            assert(referents(found@) =~= Seq::empty());
            found
        }
    }

    /// What [`Bucket::get_start_from`] finds.
    pub open spec fn spec_start_from(&self, threshold: u64) -> Seq<MarketDataEntry> {
        if self.spec_holds(threshold) {
            entries_between(self.entries@, threshold as int, u64::MAX as int)
        } else {
            Seq::empty()
        }
    }

    /// The number of samples from `threshold` on.
    pub fn count_start_from(&self, threshold: u64) -> (n: usize)
        ensures
            n == self.spec_start_from(threshold).len(),
    {
        let found = self.get_start_from(threshold);
        assert(referents(found@).len() == found@.len());
        found.len()
    }

    /// The samples up to and including `threshold`, in order; nothing when the threshold
    /// lies outside the bucket, that is before its start, or at or after its end.
    pub fn get_end_before(&self, threshold: u64) -> (found: Vec<&MarketDataEntry>)
        ensures
            referents(found@) == self.spec_end_before(threshold),
    {
        if self.start_time_ns <= threshold && threshold < self.end_time_ns {
            self.get_between(0, threshold)
        } else {
            let found: Vec<&MarketDataEntry> = Vec::new();
            assert(referents(found@) =~= Seq::empty());
            found
        }
    }

    /// What [`Bucket::get_end_before`] finds.
    pub open spec fn spec_end_before(&self, threshold: u64) -> Seq<MarketDataEntry> {
        if self.spec_holds(threshold) {
            entries_between(self.entries@, 0, threshold as int)
        } else {
            Seq::empty()
        }
    }

    /// The number of samples up to and including `threshold`.
    pub fn count_end_before(&self, threshold: u64) -> (n: usize)
        ensures
            n == self.spec_end_before(threshold).len(),
    {
        let found = self.get_end_before(threshold);
        assert(referents(found@).len() == found@.len());
        found.len()
    }
}

} // verus!
