//! The cache: a ring of contiguous, equally wide buckets that covers the most recent
//! stretch of time and slides forward as newer samples arrive.

use crate::layout::{
    contiguous, lemma_aligned, lemma_bucket_order, lemma_bucket_start, lemma_contiguous_push,
    lemma_contiguous_tail, lemma_contiguous_update, lemma_removal_selects, lemma_slide,
};
use crate::ring::{
    lemma_ring_concat, lemma_ring_outside, lemma_ring_pop_front, lemma_ring_push, lemma_ring_split,
    lemma_ring_update, ring_samples,
};
use crate::samples::{entries_between, in_window, lemma_between_all, lemma_between_push};
use crate::spread::{is_finite_spread, spread_is_finite};
use crate::types::bucket::Bucket;
use crate::types::MarketDataEntry;
use crate::utils::find_bucket_index;
use std::collections::VecDeque;
use vstd::arithmetic::div_mod::{
    lemma_fundamental_div_mod, lemma_fundamental_div_mod_converse, lemma_mod_add_multiples_vanish,
    lemma_mod_multiples_basic, lemma_mod_multiples_vanish, lemma_mod_pos_bound,
};
use vstd::prelude::*;

verus! {

/// The number of buckets of a cache with the usual horizon of one hour.
pub const DEFAULT_NUM_BUCKETS: usize = 36_000;

/// The bucket width, in ns, of a cache with the usual horizon of one hour: 100 ms.
pub const DEFAULT_BUCKET_NS: u64 = 100_000_000;

/// A ring of `num_buckets` buckets, each `bucket_ns` wide; `buckets[0]` is the oldest.
/// `count` is the number of samples in all of them. Before the first sample arrives the
/// ring has no buckets at all.
#[derive(Debug)]
pub struct MarketDataCache {
    pub buckets: VecDeque<Bucket>,
    pub bucket_ns: u64,
    pub num_buckets: usize,
    pub count: usize,
}

/// Mutable access to one bucket of the ring: `VecDeque`'s indexing by `[]` on a mutable
/// deque, which hands out the element at `index` and panics when there is none. The
/// contract leaves out the indices at which it would panic, and says that the deque differs
/// afterwards at most in that element, which is whatever the caller made of it.
#[verifier::external_body]
fn bucket_mut(buckets: &mut VecDeque<Bucket>, index: usize) -> (bucket: &mut Bucket)
    requires
        index < old(buckets)@.len(),
    ensures
        *bucket == old(buckets)@[index as int],
        final(buckets)@ == old(buckets)@.update(index as int, *final(bucket)),
{
    &mut buckets[index]
}

impl View for MarketDataCache {
    type V = Seq<MarketDataEntry>;

    /// A cache is seen as its samples: oldest bucket first, and within a bucket in the
    /// order of admission.
    open spec fn view(&self) -> Seq<MarketDataEntry> {
        ring_samples(self.buckets@)
    }
}

impl MarketDataCache {
    /// The length of time the ring covers.
    pub open spec fn spec_horizon(&self) -> int {
        self.num_buckets as int * self.bucket_ns as int
    }

    /// There is at least one bucket, buckets have a width, and the horizon fits in 64 bits.
    pub open spec fn spec_valid_params(&self) -> bool {
        &&& self.num_buckets >= 1
        &&& self.bucket_ns >= 1
        &&& self.spec_horizon() <= u64::MAX
    }

    /// Whether the first sample has arrived and the buckets exist.
    pub open spec fn spec_initialized(&self) -> bool {
        self.buckets@.len() > 0
    }

    /// Where the ring starts. Meaningful once the ring is initialized.
    pub open spec fn spec_start(&self) -> int {
        self.buckets@[0].start_time_ns as int
    }

    /// Where the ring ends. Meaningful once the ring is initialized.
    pub open spec fn spec_end(&self) -> int {
        self.spec_start() + self.spec_horizon()
    }

    /// Whether the time `t` lies in the stretch the ring covers now.
    pub open spec fn spec_in_horizon(&self, t: u64) -> bool {
        self.spec_initialized() && self.spec_start() <= t < self.spec_end()
    }

    /// The index of the bucket that covers `t`, counted from the first bucket.
    pub open spec fn spec_index(&self, t: u64) -> int {
        (t - self.spec_start()) / (self.bucket_ns as int)
    }

    /// The ring is either not yet initialized or holds exactly `num_buckets` contiguous,
    /// aligned, well-formed buckets; and `count` is the number of samples in them.
    pub open spec fn wf(&self) -> bool {
        &&& self.spec_valid_params()
        &&& (self.buckets@.len() == 0 || self.buckets@.len() == self.num_buckets)
        &&& contiguous(self.buckets@, self.bucket_ns)
        &&& self.count == self@.len()
    }

    /// The greatest multiple of the bucket width that is at most `t`.
    pub open spec fn spec_aligned(&self, t: u64) -> int {
        t - (t as int % self.bucket_ns as int)
    }

    /// How many buckets at the head of the ring end at or before `t`: they are the ones
    /// that removal up to `t` evicts whole.
    pub open spec fn spec_evict_count(&self, t: u64) -> int {
        if !self.spec_initialized() || t < self.spec_start() {
            0
        } else if t >= self.spec_end() {
            self.num_buckets as int
        } else {
            self.spec_index(t)
        }
    }

    /// What bucket `i` holds after removal up to `t`: the ring has moved on by the evicted
    /// buckets, its new first bucket has lost its samples up to `t`, and the buckets added
    /// at the end are empty.
    pub open spec fn spec_entries_after_remove(&self, t: u64, i: int) -> Seq<MarketDataEntry> {
        let k = self.spec_evict_count(t);
        if i + k < self.num_buckets {
            if i == 0 {
                entries_between(self.buckets@[k].entries@, t + 1, u64::MAX as int)
            } else {
                self.buckets@[i + k].entries@
            }
        } else {
            Seq::empty()
        }
    }

    /// What [`MarketDataCache::remove_up_to`] asks of a threshold: that the ring, moved on
    /// by the buckets it evicts, ends within 64 bits.
    pub open spec fn spec_can_remove_up_to(&self, time: u64) -> bool {
        self.spec_initialized() ==> self.spec_end() + self.spec_evict_count(time)
            * self.bucket_ns <= u64::MAX
    }

    /// A sample at `t` is dropped: it is older than everything the ring covers.
    pub open spec fn spec_drops(&self, t: u64) -> bool {
        self.spec_initialized() && t < self.spec_start()
    }

    /// Where the ring would have to start for the bucket that covers `t` to be its last.
    pub open spec fn spec_slide_threshold(&self, t: u64) -> int {
        self.spec_aligned(t) + self.bucket_ns - self.spec_horizon()
    }

    /// A sample at `t` makes the ring start afresh at the aligned `t`: there are no buckets
    /// yet, or `t` is so far ahead that sliding would evict every bucket.
    pub open spec fn spec_rebuilds(&self, t: u64) -> bool {
        !self.spec_initialized() || self.spec_slide_threshold(t) >= self.spec_end()
    }

    /// A sample at `t` makes the ring slide: `t` is past the end of the ring, but not so far
    /// that every bucket would be evicted.
    pub open spec fn spec_slides(&self, t: u64) -> bool {
        self.spec_initialized() && t >= self.spec_end() && self.spec_slide_threshold(t)
            < self.spec_end()
    }

    /// Where the ring starts after a sample at `t` has been offered.
    pub open spec fn spec_start_after_insert(&self, t: u64) -> int {
        if self.spec_rebuilds(t) {
            self.spec_aligned(t)
        } else if self.spec_slides(t) {
            self.spec_slide_threshold(t)
        } else {
            self.spec_start()
        }
    }

    /// What bucket `i` holds after `data` has been offered.
    pub open spec fn spec_entries_after_insert(&self, data: MarketDataEntry, i: int) -> Seq<
        MarketDataEntry,
    > {
        let t = data.utc_epoch_ns;
        if self.spec_rebuilds(t) {
            if i == 0 {
                seq![data]
            } else {
                Seq::empty()
            }
        } else if self.spec_slides(t) {
            let moved = self.spec_entries_after_remove(self.spec_slide_threshold(t) as u64, i);
            if i == self.num_buckets - 1 {
                moved.push(data)
            } else {
                moved
            }
        } else if self.spec_drops(t) {
            self.buckets@[i].entries@
        } else if i == self.spec_index(t) {
            self.buckets@[i].entries@.push(data)
        } else {
            self.buckets@[i].entries@
        }
    }

    /// The samples of the cache after `data` has been offered. A sample that is dropped
    /// leaves them as they are. A sample that starts the ring afresh is then the only one. A
    /// sample that makes the ring slide comes after those of the samples before that lie
    /// past the slide's threshold. A sample in the horizon comes after the samples of the
    /// bucket that covers it.
    pub open spec fn spec_view_after_insert(&self, data: MarketDataEntry) -> Seq<MarketDataEntry> {
        let t = data.utc_epoch_ns;
        if self.spec_rebuilds(t) {
            seq![data]
        } else if self.spec_slides(t) {
            entries_between(self@, self.spec_slide_threshold(t) + 1, u64::MAX as int).push(data)
        } else if self.spec_drops(t) {
            self@
        } else {
            self@.insert(
                ring_samples(self.buckets@.take(self.spec_index(t) + 1)).len() as int,
                data,
            )
        }
    }

    /// What [`MarketDataCache::insert`] asks of a sample. Of a sample that is dropped it
    /// asks nothing. Of one that is admitted it asks a finite spread; room in the counter,
    /// unless the ring starts afresh and the counter with it; and, where the ring has to be
    /// laid out or moved, a ring that ends within 64 bits.
    pub open spec fn spec_can_insert(&self, data: MarketDataEntry) -> bool {
        !self.spec_drops(data.utc_epoch_ns) ==> {
            &&& is_finite_spread(data.spread)
            &&& (!self.spec_rebuilds(data.utc_epoch_ns) ==> self.count < usize::MAX)
            &&& (self.spec_rebuilds(data.utc_epoch_ns) || self.spec_slides(data.utc_epoch_ns)
                ==> self.spec_start_after_insert(data.utc_epoch_ns) + self.spec_horizon()
                <= u64::MAX)
        }
    }

    /// A time in the horizon lies in the bucket with its index, and that index is a valid
    /// one.
    pub proof fn lemma_locate(&self, t: u64)
        requires
            self.wf(),
            self.spec_in_horizon(t),
        ensures
            0 <= self.spec_index(t) < self.num_buckets,
            self.buckets@[self.spec_index(t)].start_time_ns <= t,
            t < self.buckets@[self.spec_index(t)].end_time_ns,
    {
        let w = self.bucket_ns as int;
        let n = self.num_buckets as int;
        let off = t - self.spec_start();
        let q = off / w;
        lemma_fundamental_div_mod(off, w);
        lemma_mod_pos_bound(off, w);
        assert(0 <= q < n) by (nonlinear_arith)
            requires
                off == w * q + off % w,
                0 <= off % w < w,
                0 <= off < n * w,
                w > 0,
        ;
        lemma_bucket_start(self.buckets@, self.bucket_ns, q);
        assert(q * w == w * q) by (nonlinear_arith);
    }

    /// Once the ring exists it has exactly `num_buckets` buckets, it starts at a multiple of
    /// the bucket width, every bucket is one width long, and bucket `i` starts `i` widths
    /// after the first.
    pub proof fn lemma_ring_shape(&self)
        requires
            self.wf(),
            self.spec_initialized(),
        ensures
            self.buckets@.len() == self.num_buckets,
            self.spec_start() % (self.bucket_ns as int) == 0,
            self.spec_end() <= u64::MAX,
            forall|i: int|
                0 <= i < self.num_buckets ==> {
                    &&& (#[trigger] self.buckets@[i]).start_time_ns == self.spec_start() + i
                        * self.bucket_ns
                    &&& self.buckets@[i].end_time_ns - self.buckets@[i].start_time_ns
                        == self.bucket_ns
                },
    {
        assert(self.buckets@[0].wf());
        assert forall|i: int| 0 <= i < self.num_buckets implies {
            &&& (#[trigger] self.buckets@[i]).start_time_ns == self.spec_start() + i
                * self.bucket_ns
            &&& self.buckets@[i].end_time_ns - self.buckets@[i].start_time_ns == self.bucket_ns
        } by {
            lemma_bucket_start(self.buckets@, self.bucket_ns, i);
        }
        assert(self.spec_horizon() >= 1) by (nonlinear_arith)
            requires
                self.spec_horizon() == self.num_buckets as int * self.bucket_ns as int,
                self.num_buckets >= 1,
                self.bucket_ns >= 1,
        ;
        self.lemma_stays(self.buckets@[0].start_time_ns);
    }

    /// Wherever a sample is offered, the ring starts at a multiple of the bucket width
    /// afterwards, and no earlier than before; and a sample past the end of the ring moves
    /// the start forward.
    pub proof fn lemma_start_after_insert(&self, t: u64)
        requires
            self.wf(),
        ensures
            self.spec_start_after_insert(t) % (self.bucket_ns as int) == 0,
            self.spec_initialized() ==> self.spec_start_after_insert(t) >= self.spec_start(),
            self.spec_initialized() && t >= self.spec_end() ==> self.spec_start_after_insert(t)
                > self.spec_start(),
            self.spec_start_after_insert(t) <= t || self.spec_drops(t),
    {
        let w = self.bucket_ns as int;
        let n = self.num_buckets as int;
        lemma_aligned(t as int, w);
        if self.spec_initialized() {
            self.lemma_ring_shape();
            if t >= self.spec_end() {
                lemma_slide(self.spec_start(), t as int, w, n);
                if !self.spec_rebuilds(t) {
                    let thr = self.spec_slide_threshold(t);
                    let k = (thr - self.spec_start()) / w;
                    lemma_mod_multiples_basic(k, w);
                    lemma_mod_multiples_vanish(k, self.spec_start(), w);
                    assert(w * k == k * w) by (nonlinear_arith);
                }
            } else {
                self.lemma_stays(t);
            }
        }
    }

    /// A ring that exists ends where its last bucket ends, and a sample that is neither
    /// past that end nor offered to a cache without buckets leaves the ring where it is.
    pub proof fn lemma_stays(&self, t: u64)
        requires
            self.wf(),
            self.spec_initialized(),
            t < self.spec_end(),
        ensures
            !self.spec_rebuilds(t),
            !self.spec_slides(t),
            self.spec_end() == self.buckets@[self.num_buckets - 1].end_time_ns,
    {
        let w = self.bucket_ns as int;
        let n = self.num_buckets as int;
        lemma_aligned(t as int, w);
        lemma_bucket_start(self.buckets@, self.bucket_ns, n - 1);
        assert((n - 1) * w + w == n * w && w <= n * w) by (nonlinear_arith)
            requires
                1 <= n,
                0 < w,
        ;
    }

    /// When the first `k` buckets end at or before `t` and the next one, if there is one,
    /// ends after `t`, then `k` is the number of buckets that removal up to `t` evicts.
    pub proof fn lemma_evict_count(&self, t: u64, k: int)
        requires
            self.wf(),
            self.spec_initialized(),
            0 <= k <= self.num_buckets,
            k > 0 ==> self.buckets@[k - 1].end_time_ns <= t,
            k < self.num_buckets ==> self.buckets@[k].end_time_ns > t,
        ensures
            k == self.spec_evict_count(t),
            k < self.num_buckets ==> self.buckets@[k].start_time_ns == self.spec_start() + k
                * self.bucket_ns,
            self.buckets@[self.num_buckets - 1].end_time_ns == self.spec_end(),
    {
        let b = self.buckets@;
        let w = self.bucket_ns as int;
        let n = self.num_buckets as int;
        let start = self.spec_start();
        lemma_bucket_start(b, self.bucket_ns, n - 1);
        assert((n - 1) * w + w == n * w) by (nonlinear_arith);
        if k > 0 {
            lemma_bucket_start(b, self.bucket_ns, k - 1);
            assert((k - 1) * w + w == k * w) by (nonlinear_arith);
        }
        if k < n {
            lemma_bucket_start(b, self.bucket_ns, k);
            if k < n - 1 {
                lemma_bucket_order(b, self.bucket_ns, k, n - 1);
            }
            if t >= start {
                lemma_fundamental_div_mod_converse(t - start, w, k, t - start - k * w);
            }
        }
    }

    /// A cache that can hold the samples of the last `num_buckets * bucket_ns` ns. No
    /// bucket exists until the first sample arrives.
    pub fn new(num_buckets: usize, bucket_ns: u64) -> (cache: Self)
        ensures
            cache.num_buckets == num_buckets,
            cache.bucket_ns == bucket_ns,
            cache.count == 0,
            cache.buckets@.len() == 0,
            cache.spec_valid_params() ==> cache.wf(),
    {
        let buckets: VecDeque<Bucket> = VecDeque::with_capacity(num_buckets);
        Self { buckets, bucket_ns, num_buckets, count: 0 }
    }

    /// A cache of 36 000 buckets of 100 ms: one hour of data.
    pub fn with_defaults() -> (cache: Self)
        ensures
            cache.wf(),
            cache.num_buckets == DEFAULT_NUM_BUCKETS,
            cache.bucket_ns == DEFAULT_BUCKET_NS,
            cache.count == 0,
            !cache.spec_initialized(),
    {
        assert(36_000 * 100_000_000 <= u64::MAX) by (nonlinear_arith);
        MarketDataCache::new(DEFAULT_NUM_BUCKETS, DEFAULT_BUCKET_NS)
    }

    /// The total number of samples in the cache.
    pub fn count(&self) -> (n: usize)
        ensures
            n == self.count,
            self.wf() ==> n == self@.len(),
    {
        self.count
    }

    /// Whether the time `t` lies in the horizon, so that it may be an end of a range query.
    pub fn in_horizon(&self, t: u64) -> (r: bool)
        requires
            self.wf(),
        ensures
            r == self.spec_in_horizon(t),
    {
        if self.buckets.len() == 0 {
            return false;
        }
        let first_bucket_start_ns: u64 = self.buckets[0].start_time_ns;
        if t < first_bucket_start_ns {
            return false;
        }
        t - first_bucket_start_ns < self.num_buckets as u64 * self.bucket_ns
    }

    /// Whether the sample may be offered to [`MarketDataCache::insert`].
    pub fn can_insert(&self, data: &MarketDataEntry) -> (r: bool)
        requires
            self.wf(),
        ensures
            r == self.spec_can_insert(*data),
    {
        let t: u64 = data.utc_epoch_ns;
        if self.buckets.len() > 0 && t < self.buckets[0].start_time_ns {
            return true;
        }
        if !spread_is_finite(data.spread) {
            return false;
        }
        let total_cache_time_in_ns: u64 = self.num_buckets as u64 * self.bucket_ns;
        let ghost w = self.bucket_ns as int;
        let ghost n = self.num_buckets as int;
        proof {
            lemma_aligned(t as int, w);
        }
        let aligned_ns: u64 = t - t % self.bucket_ns;
        if self.buckets.len() == 0 {
            return aligned_ns <= u64::MAX - total_cache_time_in_ns;
        }
        proof {
            self.lemma_ring_shape();
        }
        let first_bucket_start_ns: u64 = self.buckets[0].start_time_ns;
        if t - first_bucket_start_ns < total_cache_time_in_ns {
            proof {
                self.lemma_stays(t);
            }
            return self.count < usize::MAX;
        }
        proof {
            lemma_slide(first_bucket_start_ns as int, t as int, w, n);
        }
        let threshold: u64 = aligned_ns - (total_cache_time_in_ns - self.bucket_ns);
        let cache_end_time_ns: u64 = first_bucket_start_ns + total_cache_time_in_ns;
        if threshold >= cache_end_time_ns {
            aligned_ns <= u64::MAX - total_cache_time_in_ns
        } else {
            self.count < usize::MAX && aligned_ns <= u64::MAX - self.bucket_ns
        }
    }

    /// Whether the threshold may be handed to [`MarketDataCache::remove_up_to`].
    pub fn can_remove_up_to(&self, time: u64) -> (r: bool)
        requires
            self.wf(),
        ensures
            r == self.spec_can_remove_up_to(time),
    {
        if self.buckets.len() == 0 {
            return true;
        }
        let ghost w = self.bucket_ns as int;
        let ghost n = self.num_buckets as int;
        proof {
            self.lemma_ring_shape();
        }
        let first_bucket_start_ns: u64 = self.buckets[0].start_time_ns;
        let total_cache_time_in_ns: u64 = self.num_buckets as u64 * self.bucket_ns;
        let cache_end_time_ns: u64 = first_bucket_start_ns + total_cache_time_in_ns;
        if time < first_bucket_start_ns {
            proof {
                assert(0 * w == 0) by (nonlinear_arith);
            }
            return true;
        }
        if time >= cache_end_time_ns {
            return cache_end_time_ns <= u64::MAX - total_cache_time_in_ns;
        }
        let elapsed_ns: u64 = time - first_bucket_start_ns;
        proof {
            lemma_aligned(elapsed_ns as int, w);
        }
        let evicted_ns: u64 = elapsed_ns - elapsed_ns % self.bucket_ns;
        cache_end_time_ns <= u64::MAX - evicted_ns
    }

    /// Discards every bucket and lays out `num_buckets` empty ones from the aligned `t` on.
    fn rebuild_at(&mut self, t: u64)
        requires
            old(self).spec_valid_params(),
            old(self).spec_aligned(t) + old(self).spec_horizon() <= u64::MAX,
        ensures
            final(self).wf(),
            final(self).num_buckets == old(self).num_buckets,
            final(self).bucket_ns == old(self).bucket_ns,
            final(self).count == 0,
            final(self).buckets@.len() == old(self).num_buckets,
            final(self).spec_start() == old(self).spec_aligned(t),
            final(self)@ == Seq::<MarketDataEntry>::empty(),
            forall|i: int|
                0 <= i < old(self).num_buckets ==> {
                    &&& (#[trigger] final(self).buckets@[i]).entries@ == Seq::<
                        MarketDataEntry,
                    >::empty()
                    &&& final(self).buckets@[i].tdigest.is_none()
                },
    {
        self.buckets.clear();
        self.count = 0;
        proof {
            lemma_aligned(t as int, self.bucket_ns as int);
        }
        let remainder: u64 = t % self.bucket_ns;
        let aligned_start_time_ns: u64 = t - remainder;
        let mut next_start: u64 = aligned_start_time_ns;
        let mut i: usize = 0;
        while i < self.num_buckets
            invariant
                self.num_buckets == old(self).num_buckets,
                self.bucket_ns == old(self).bucket_ns,
                self.spec_valid_params(),
                self.count == 0,
                i <= self.num_buckets,
                self.buckets@.len() == i,
                next_start == aligned_start_time_ns + i * self.bucket_ns,
                next_start as int % self.bucket_ns as int == 0,
                aligned_start_time_ns + self.spec_horizon() <= u64::MAX,
                contiguous(self.buckets@, self.bucket_ns),
                i > 0 ==> self.buckets@[0].start_time_ns == aligned_start_time_ns
                    && self.buckets@[i - 1].end_time_ns == next_start,
                forall|k: int|
                    0 <= k < i ==> {
                        &&& (#[trigger] self.buckets@[k]).entries@ == Seq::<
                            MarketDataEntry,
                        >::empty()
                        &&& self.buckets@[k].tdigest.is_none()
                    },
            decreases self.num_buckets - i,
        {
            proof {
                let w = self.bucket_ns as int;
                let n = self.num_buckets as int;
                assert((i + 1) * w <= n * w && (i + 1) * w == i * w + w) by (nonlinear_arith)
                    requires
                        i + 1 <= n,
                        w >= 0,
                ;
                lemma_mod_add_multiples_vanish(next_start as int, w);
            }
            let bucket = Bucket::new(next_start, next_start + self.bucket_ns);
            self.buckets.push_back(bucket);
            next_start = next_start + self.bucket_ns;
            i += 1;
        }
        proof {
            let b = self.buckets@;
            assert forall|i: int, j: int|
                0 <= i < b.len() && 0 <= j < b[i].entries@.len() implies !in_window(
                #[trigger] b[i].entries@[j],
                0,
                u64::MAX as int,
            ) by {
                assert(b[i].entries@ == Seq::<MarketDataEntry>::empty());
            }
            lemma_ring_outside(b, 0, u64::MAX as int);
        }
    }

    /// Puts a sample whose timestamp lies in the horizon into the bucket that covers it.
    fn place(&mut self, data: MarketDataEntry)
        requires
            old(self).wf(),
            old(self).spec_in_horizon(data.utc_epoch_ns),
            is_finite_spread(data.spread),
            old(self).count < usize::MAX,
        ensures
            final(self).wf(),
            final(self).num_buckets == old(self).num_buckets,
            final(self).bucket_ns == old(self).bucket_ns,
            final(self).count == old(self).count + 1,
            final(self).buckets@.len() == old(self).buckets@.len(),
            final(self).spec_start() == old(self).spec_start(),
            forall|i: int|
                0 <= i < old(self).num_buckets && i != old(self).spec_index(data.utc_epoch_ns)
                    ==> (#[trigger] final(self).buckets@[i]) == old(self).buckets@[i],
            final(self).buckets@[old(self).spec_index(data.utc_epoch_ns)].entries@ == old(
                self,
            ).buckets@[old(self).spec_index(data.utc_epoch_ns)].entries@.push(data),
            final(self).buckets@[old(self).spec_index(data.utc_epoch_ns)].tdigest.is_none(),
            final(self).spec_count_range(data.utc_epoch_ns, data.utc_epoch_ns) == old(
                self,
            ).spec_count_range(data.utc_epoch_ns, data.utc_epoch_ns) + 1,
            final(self)@ == old(self)@.insert(
                ring_samples(
                    old(self).buckets@.take(old(self).spec_index(data.utc_epoch_ns) + 1),
                ).len() as int,
                data,
            ),
    {
        let ghost old_b = self.buckets@;
        let ghost t = data.utc_epoch_ns as int;
        proof {
            self.lemma_locate(data.utc_epoch_ns);
        }
        let first_bucket_start_ns: u64 = self.buckets[0].start_time_ns;
        let bucket_idx: usize = find_bucket_index(
            first_bucket_start_ns,
            data.utc_epoch_ns,
            self.bucket_ns,
        ).unwrap();
        proof {
            assert(old_b[bucket_idx as int].wf());
            lemma_ring_split(old_b, bucket_idx as int, 0, u64::MAX as int);
            lemma_between_all(old_b[bucket_idx as int].entries@, 0, u64::MAX as int);
        }
        let bucket = bucket_mut(&mut self.buckets, bucket_idx);
        bucket.insert(data);
        self.count += 1;
        proof {
            let new_b = self.buckets@;
            let nb = new_b[bucket_idx as int];
            assert(new_b =~= old_b.update(bucket_idx as int, nb));
            lemma_ring_update(old_b, bucket_idx as int, nb, 0, u64::MAX as int);
            lemma_between_all(nb.entries@, 0, u64::MAX as int);
            lemma_contiguous_update(old_b, self.bucket_ns, bucket_idx as int, nb);
            lemma_ring_update(old_b, bucket_idx as int, nb, t, t);
            lemma_between_push(old_b[bucket_idx as int].entries@, data, t, t);
            // Where the sample comes to stand among all the samples.
            let idx = bucket_idx as int;
            let hi = u64::MAX as int;
            let before = ring_samples(old_b.take(idx));
            let held = old_b[idx].entries@;
            let after = ring_samples(old_b.skip(idx + 1));
            lemma_ring_split(new_b, idx, 0, hi);
            assert(new_b.take(idx) =~= old_b.take(idx));
            assert(new_b.skip(idx + 1) =~= old_b.skip(idx + 1));
            assert(old_b.take(idx).push(old_b[idx]) =~= old_b.take(idx + 1));
            lemma_ring_push(old_b.take(idx), old_b[idx], 0, hi);
            assert(ring_samples(old_b) == before + held + after);
            assert(ring_samples(new_b) == before + held.push(data) + after);
            assert(ring_samples(old_b.take(idx + 1)) == before + held);
            assert(before + held.push(data) + after =~= (before + held + after).insert(
                (before + held).len() as int,
                data,
            ));
        }
    }

    /// Offers a sample to the cache.
    ///
    /// A cache without buckets lays out its ring from the sample's aligned timestamp on. A
    /// sample older than the ring is dropped, and nothing changes. A sample newer than the
    /// ring makes the ring slide until the bucket that covers the sample is its last: the
    /// buckets that fall out of the ring are evicted, and so are the samples of the new
    /// first bucket that sit exactly at its start; if every bucket would fall out, the ring
    /// is laid out afresh from the sample's aligned timestamp on. The sample then goes into
    /// the bucket that covers it, and is counted.
    pub fn insert(&mut self, data: MarketDataEntry)
        requires
            old(self).wf(),
            old(self).spec_can_insert(data),
        ensures
            final(self).wf(),
            final(self).num_buckets == old(self).num_buckets,
            final(self).bucket_ns == old(self).bucket_ns,
            final(self).buckets@.len() == old(self).num_buckets,
            final(self).spec_start() == old(self).spec_start_after_insert(data.utc_epoch_ns),
            final(self).spec_start() % (old(self).bucket_ns as int) == 0,
            old(self).spec_initialized() ==> final(self).spec_start() >= old(self).spec_start(),
            forall|i: int|
                0 <= i < old(self).num_buckets ==> {
                    &&& (#[trigger] final(self).buckets@[i]).entries@ == old(
                        self,
                    ).spec_entries_after_insert(data, i)
                    &&& final(self).buckets@[i].end_time_ns - final(self).buckets@[i].start_time_ns
                        == old(self).bucket_ns
                },
            old(self).spec_drops(data.utc_epoch_ns) ==> final(self).buckets@ == old(self).buckets@
                && final(self).count == old(self).count,
            !old(self).spec_drops(data.utc_epoch_ns) ==> {
                &&& final(self).spec_in_horizon(data.utc_epoch_ns)
                &&& final(self).spec_count_range(data.utc_epoch_ns, data.utc_epoch_ns) >= 1
                &&& final(self).buckets@[final(self).spec_index(data.utc_epoch_ns)].tdigest.is_none()
            },
            final(self)@ == old(self).spec_view_after_insert(data),
            old(self).spec_in_horizon(data.utc_epoch_ns) ==> final(self).count == old(self).count
                + 1 && final(self).spec_count_range(data.utc_epoch_ns, data.utc_epoch_ns) == old(
                self,
            ).spec_count_range(data.utc_epoch_ns, data.utc_epoch_ns) + 1,
            old(self).spec_rebuilds(data.utc_epoch_ns) ==> final(self).count == 1 && forall|i: int|
                0 <= i < old(self).num_buckets ==> (#[trigger] final(self).buckets@[i]).tdigest.is_none(),
            old(self).spec_in_horizon(data.utc_epoch_ns) ==> forall|i: int|
                0 <= i < old(self).num_buckets && i != old(self).spec_index(data.utc_epoch_ns)
                    ==> (#[trigger] final(self).buckets@[i]) == old(self).buckets@[i],
            old(self).spec_slides(data.utc_epoch_ns) ==> final(self).buckets@[0].tdigest.is_none()
                && forall|i: int|
                0 <= i < old(self).num_buckets && i + old(self).spec_evict_count(
                    old(self).spec_slide_threshold(data.utc_epoch_ns) as u64,
                ) >= old(self).num_buckets ==> (#[trigger] final(self).buckets@[i]).tdigest.is_none(),
            old(self).spec_slides(data.utc_epoch_ns) ==> forall|i: int|
                1 <= i && i + old(self).spec_evict_count(
                    old(self).spec_slide_threshold(data.utc_epoch_ns) as u64,
                ) < old(self).num_buckets ==> (#[trigger] final(self).buckets@[i]) == old(
                    self,
                ).buckets@[i + old(self).spec_evict_count(
                    old(self).spec_slide_threshold(data.utc_epoch_ns) as u64,
                )],
    {
        let t: u64 = data.utc_epoch_ns;
        let ghost w = self.bucket_ns as int;
        let ghost n = self.num_buckets as int;
        proof {
            lemma_aligned(t as int, w);
            assert(w <= n * w) by (nonlinear_arith)
                requires
                    1 <= n,
                    0 < w,
            ;
        }
        if self.buckets.len() == 0 {
            self.rebuild_at(t);
            proof {
                lemma_fundamental_div_mod_converse(t - self.spec_start(), w, 0, t as int % w);
            }
        } else {
            let first_bucket_start_ns: u64 = self.buckets[0].start_time_ns;
            proof {
                assert(self.buckets@[0].wf());
                lemma_bucket_start(self.buckets@, self.bucket_ns, n - 1);
                assert((n - 1) * w + w == n * w) by (nonlinear_arith);
            }
            if t < first_bucket_start_ns {
                proof {
                    self.lemma_stays(t);
                    assert forall|i: int| 0 <= i < n implies (#[trigger] self.buckets@[i]).end_time_ns
                        - self.buckets@[i].start_time_ns == w by {
                        assert(self.buckets@[i].wf());
                    }
                }
                return ;
            }
            let elapsed_ns: u64 = t - first_bucket_start_ns;
            let total_cache_time_in_ns: u64 = self.num_buckets as u64 * self.bucket_ns;
            if elapsed_ns >= total_cache_time_in_ns {
                // The sample is past the ring: old data has to go.
                proof {
                    lemma_slide(first_bucket_start_ns as int, t as int, w, n);
                }
                let remainder: u64 = elapsed_ns % self.bucket_ns;
                let aligned_ns: u64 = t - remainder;
                let threshold: u64 = aligned_ns - (total_cache_time_in_ns - self.bucket_ns);
                let cache_end_time_ns: u64 = first_bucket_start_ns + total_cache_time_in_ns;
                if threshold >= cache_end_time_ns {
                    self.rebuild_at(t);
                    proof {
                        lemma_fundamental_div_mod_converse(
                            t - self.spec_start(),
                            w,
                            0,
                            t as int % w,
                        );
                    }
                } else {
                    self.remove_up_to(threshold);
                }
            } else {
                proof {
                    self.lemma_stays(t);
                }
            }
        }
        let ghost mid = *self;
        self.place(data);
        proof {
            assert forall|i: int| 0 <= i < n implies {
                &&& (#[trigger] self.buckets@[i]).entries@ == old(self).spec_entries_after_insert(
                    data,
                    i,
                )
                &&& self.buckets@[i].end_time_ns - self.buckets@[i].start_time_ns == w
            } by {
                assert(self.buckets@[i].wf());
                if i != mid.spec_index(t) {
                    assert(self.buckets@[i] == mid.buckets@[i]);
                } else {
                    assert(mid.buckets@[i].entries@.push(data) =~= old(
                        self,
                    ).spec_entries_after_insert(data, i));
                }
            }
            assert(self.buckets@[0].wf());
            self.lemma_locate(t);
            let mb = mid.buckets@;
            if old(self).spec_rebuilds(t) {
                assert(mb =~= mb.take(1) + mb.skip(1));
                lemma_ring_concat(mb.take(1), mb.skip(1), 0, u64::MAX as int);
                assert(self@ =~= seq![data]);
            } else if old(self).spec_slides(t) {
                assert(mb.take(n) =~= mb);
                assert(self@ =~= mid@.push(data));
            }
        }
    }

    /// Removes every sample with a timestamp up to and including `time` and returns how many
    /// were removed. Buckets that end at or before `time` are evicted whole, the bucket that
    /// then comes first loses its samples up to `time`, and empty buckets are added at the
    /// end until the ring is as long as before. A cache without buckets stays as it is.
    pub fn remove_up_to(&mut self, time: u64) -> (removed: usize)
        requires
            old(self).wf(),
            old(self).spec_can_remove_up_to(time),
        ensures
            final(self).wf(),
            final(self).num_buckets == old(self).num_buckets,
            final(self).bucket_ns == old(self).bucket_ns,
            final(self).buckets@.len() == old(self).buckets@.len(),
            removed == old(self).count - final(self).count,
            final(self)@ == entries_between(old(self)@, time + 1, u64::MAX as int),
            old(self).spec_initialized() ==> final(self).spec_start() == old(self).spec_start()
                + old(self).spec_evict_count(time) * old(self).bucket_ns,
            old(self).spec_initialized() ==> final(self).spec_start() >= old(self).spec_start(),
            forall|i: int|
                0 <= i < old(self).buckets@.len() ==> (#[trigger] final(self).buckets@[i]).entries@
                    == old(self).spec_entries_after_remove(time, i),
            forall|i: int|
                1 <= i < final(self).buckets@.len() && i + old(self).spec_evict_count(time) < old(
                    self,
                ).buckets@.len() ==> (#[trigger] final(self).buckets@[i]) == old(self).buckets@[i
                    + old(self).spec_evict_count(time)],
            forall|i: int|
                0 <= i < final(self).buckets@.len() && i + old(self).spec_evict_count(time)
                    >= old(self).buckets@.len() ==> (#[trigger] final(self).buckets@[i]).tdigest.is_none(),
            old(self).spec_evict_count(time) < old(self).buckets@.len() ==> {
                let head = old(self).buckets@[old(self).spec_evict_count(time)];
                if head.spec_covers(time) {
                    final(self).buckets@[0].tdigest.is_none()
                } else {
                    final(self).buckets@[0] == head
                }
            },
    {
        if self.buckets.len() == 0 {
            proof {
                assert(self@ =~= entries_between(self@, time + 1, u64::MAX as int));
            }
            return 0;
        }
        let count_before: usize = self.count;
        let ghost old_b = self.buckets@;
        let ghost n = self.num_buckets as int;
        let ghost w = self.bucket_ns as int;
        let mut next_start: u64 = self.buckets[self.buckets.len() - 1].end_time_ns;
        let ghost old_end = next_start as int;
        let ghost mut k: int = 0;
        proof {
            assert(old_b.subrange(0, n) =~= old_b);
            assert(old_b[n - 1].wf());
            lemma_mod_add_multiples_vanish(old_b[n - 1].start_time_ns as int, w);
        }
        while self.buckets.len() > 0 && self.buckets[0].end_time_ns <= time
            invariant
                self.count <= count_before,
                self.num_buckets == old(self).num_buckets,
                self.bucket_ns == old(self).bucket_ns,
                old(self).wf(),
                old_b == old(self).buckets@,
                n == self.num_buckets,
                old_b.len() == n,
                0 <= k <= n,
                self.buckets@ == old_b.subrange(k, n),
                self.count == ring_samples(self.buckets@).len(),
                k > 0 ==> old_b[k - 1].end_time_ns <= time,
            decreases self.buckets@.len(),
        {
            proof {
                lemma_ring_pop_front(self.buckets@, 0, u64::MAX as int);
                assert(self.buckets@[0] == old_b[k]);
                assert(old_b[k].wf());
                lemma_between_all(old_b[k].entries@, 0, u64::MAX as int);
                assert(self.buckets@.subrange(1, self.buckets@.len() as int) =~= old_b.subrange(
                    k + 1,
                    n,
                ));
            }
            let popped = self.buckets.pop_front().unwrap();
            self.count -= popped.count;
            proof {
                k = k + 1;
            }
        }
        proof {
            old(self).lemma_evict_count(time, k);
            lemma_contiguous_tail(old_b, self.bucket_ns, k);
            assert(k * w >= 0) by (nonlinear_arith)
                requires
                    k >= 0,
                    w >= 0,
            ;
        }
        let ghost popped_b = self.buckets@;
        if self.buckets.len() > 0 {
            proof {
                assert(popped_b[0] == old_b[k]);
                assert(old_b[k].wf());
                lemma_ring_split(popped_b, 0, 0, u64::MAX as int);
                lemma_between_all(popped_b[0].entries@, 0, u64::MAX as int);
            }
            let mut first_bucket = self.buckets.pop_front().unwrap();
            let deleted: usize = first_bucket.remove_up_to(time);
            self.buckets.push_front(first_bucket);
            self.count -= deleted;
            proof {
                let head = self.buckets@[0];
                assert(self.buckets@ =~= popped_b.update(0, head));
                lemma_ring_update(popped_b, 0, head, 0, u64::MAX as int);
                lemma_between_all(head.entries@, 0, u64::MAX as int);
                lemma_contiguous_update(popped_b, self.bucket_ns, 0, head);
                if !old_b[k].spec_covers(time) {
                    lemma_between_all(old_b[k].entries@, time + 1, u64::MAX as int);
                }
            }
        }
        let ghost moved = self.buckets@;
        let ghost mut p: int = 0;
        while self.buckets.len() < self.num_buckets
            invariant
                self.num_buckets == old(self).num_buckets,
                self.bucket_ns == old(self).bucket_ns,
                self.spec_valid_params(),
                n == self.num_buckets,
                w == self.bucket_ns,
                0 <= k <= n,
                moved.len() == n - k,
                self.count <= count_before,
                0 <= p <= k,
                self.buckets@.len() == n - k + p,
                next_start == old_end + p * w,
                old_end + k * w <= u64::MAX,
                next_start as int % w == 0,
                contiguous(self.buckets@, self.bucket_ns),
                self.buckets@.len() > 0 ==> self.buckets@.last().end_time_ns == next_start,
                self.buckets@.len() > 0 && k == n ==> self.buckets@[0].start_time_ns == old_end,
                self.count == ring_samples(self.buckets@).len(),
                forall|i: int| 0 <= i < n - k ==> (#[trigger] self.buckets@[i]) == moved[i],
                forall|i: int|
                    n - k <= i < n - k + p ==> {
                        &&& (#[trigger] self.buckets@[i]).entries@ == Seq::<
                            MarketDataEntry,
                        >::empty()
                        &&& self.buckets@[i].tdigest.is_none()
                    },
            decreases self.num_buckets - self.buckets@.len(),
        {
            proof {
                assert((p + 1) * w <= k * w && (p + 1) * w == p * w + w) by (nonlinear_arith)
                    requires
                        p + 1 <= k,
                        w >= 0,
                ;
                assert(p == 0 ==> p * w == 0) by (nonlinear_arith);
                lemma_mod_add_multiples_vanish(next_start as int, w);
            }
            let bucket = Bucket::new(next_start, next_start + self.bucket_ns);
            proof {
                lemma_contiguous_push(self.buckets@, self.bucket_ns, bucket);
                lemma_ring_push(self.buckets@, bucket, 0, u64::MAX as int);
            }
            self.buckets.push_back(bucket);
            next_start = next_start + self.bucket_ns;
            proof {
                p = p + 1;
            }
        }
        proof {
            let fin = self.buckets@;
            if k < n {
                assert(fin[0] == moved[0]);
            }
            assert forall|i: int| 0 <= i < n implies (#[trigger] fin[i]).entries@ == old(
                self,
            ).spec_entries_after_remove(time, i) by {
                if i < n - k {
                    assert(fin[i] == moved[i]);
                }
            }
            lemma_removal_selects(old_b, fin, self.bucket_ns, k, time);
        }
        count_before - self.count
    }
}

} // verus!
