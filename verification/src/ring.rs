//! Sequences of buckets: the samples a ring of buckets holds in a time window.

use crate::samples::{
    entries_between, in_window, lemma_between_all, lemma_between_bounds, lemma_between_concat,
    lemma_between_members, lemma_between_none, lemma_between_split,
};
use crate::spread::is_finite_spread;
use crate::types::bucket::Bucket;
use crate::types::MarketDataEntry;
use vstd::prelude::*;

verus! {

/// The samples of the buckets `b` whose timestamps lie in `[lo, hi]`: bucket by bucket, and
/// within a bucket in the order of admission.
pub open spec fn ring_between(b: Seq<Bucket>, lo: int, hi: int) -> Seq<MarketDataEntry>
    decreases b.len(),
{
    if b.len() == 0 {
        Seq::empty()
    } else {
        ring_between(b.drop_last(), lo, hi) + entries_between(b.last().entries@, lo, hi)
    }
}

/// All the samples of the buckets `b`.
pub open spec fn ring_samples(b: Seq<Bucket>) -> Seq<MarketDataEntry> {
    ring_between(b, 0, u64::MAX as int)
}

/// The samples of a ring with one more bucket at its end.
pub proof fn lemma_ring_push(b: Seq<Bucket>, x: Bucket, lo: int, hi: int)
    ensures
        ring_between(b.push(x), lo, hi) == ring_between(b, lo, hi) + entries_between(
            x.entries@,
            lo,
            hi,
        ),
{
    assert(b.push(x).drop_last() =~= b);
}

/// The samples of two rings joined are the samples of the one followed by those of the
/// other.
pub proof fn lemma_ring_concat(a: Seq<Bucket>, c: Seq<Bucket>, lo: int, hi: int)
    ensures
        ring_between(a + c, lo, hi) == ring_between(a, lo, hi) + ring_between(c, lo, hi),
    decreases c.len(),
{
    if c.len() == 0 {
        assert(a + c =~= a);
        assert(ring_between(a, lo, hi) + ring_between(c, lo, hi) =~= ring_between(a, lo, hi));
    } else {
        lemma_ring_concat(a, c.drop_last(), lo, hi);
        assert((a + c).drop_last() =~= a + c.drop_last());
        assert((a + c).last() == c.last());
        assert(ring_between(a + c, lo, hi) =~= ring_between(a, lo, hi) + ring_between(c, lo, hi));
    }
}

/// The samples of a ring are those before bucket `i`, those of bucket `i`, and those after.
pub proof fn lemma_ring_split(b: Seq<Bucket>, i: int, lo: int, hi: int)
    requires
        0 <= i < b.len(),
    ensures
        ring_between(b, lo, hi) == ring_between(b.take(i), lo, hi) + entries_between(
            b[i].entries@,
            lo,
            hi,
        ) + ring_between(b.skip(i + 1), lo, hi),
{
    assert(b =~= b.take(i).push(b[i]) + b.skip(i + 1));
    lemma_ring_concat(b.take(i).push(b[i]), b.skip(i + 1), lo, hi);
    lemma_ring_push(b.take(i), b[i], lo, hi);
}

/// The samples of a ring in a window are the samples of the ring that lie in the window.
pub proof fn lemma_ring_between_selects(b: Seq<Bucket>, lo: int, hi: int)
    ensures
        ring_between(b, lo, hi) == entries_between(ring_samples(b), lo, hi),
    decreases b.len(),
{
    if b.len() > 0 {
        lemma_ring_between_selects(b.drop_last(), lo, hi);
        lemma_between_all(b.last().entries@, 0, u64::MAX as int);
        lemma_between_concat(ring_samples(b.drop_last()), b.last().entries@, lo, hi);
    }
}

/// Two rings of equal length hold the same samples, each in its own window, when bucket by
/// bucket they hold the same.
pub proof fn lemma_ring_pointwise(
    a: Seq<Bucket>,
    lo1: int,
    hi1: int,
    b: Seq<Bucket>,
    lo2: int,
    hi2: int,
)
    requires
        a.len() == b.len(),
        forall|i: int|
            0 <= i < a.len() ==> entries_between((#[trigger] a[i]).entries@, lo1, hi1)
                == entries_between(b[i].entries@, lo2, hi2),
    ensures
        ring_between(a, lo1, hi1) == ring_between(b, lo2, hi2),
    decreases a.len(),
{
    if a.len() > 0 {
        let da = a.drop_last();
        let db = b.drop_last();
        assert forall|i: int| 0 <= i < da.len() implies entries_between(
            (#[trigger] da[i]).entries@,
            lo1,
            hi1,
        ) == entries_between(db[i].entries@, lo2, hi2) by {
            assert(da[i] == a[i]);
            assert(db[i] == b[i]);
        }
        lemma_ring_pointwise(da, lo1, hi1, db, lo2, hi2);
        assert(a.last() == a[a.len() - 1]);
        assert(b.last() == b[a.len() - 1]);
    }
}

/// Buckets none of whose samples lie in the window contribute nothing.
pub proof fn lemma_ring_outside(b: Seq<Bucket>, lo: int, hi: int)
    requires
        forall|i: int, j: int|
            0 <= i < b.len() && 0 <= j < b[i].entries@.len() ==> !in_window(
                #[trigger] b[i].entries@[j],
                lo,
                hi,
            ),
    ensures
        ring_between(b, lo, hi) == Seq::<MarketDataEntry>::empty(),
    decreases b.len(),
{
    if b.len() > 0 {
        let d = b.drop_last();
        assert forall|i: int, j: int|
            0 <= i < d.len() && 0 <= j < d[i].entries@.len() implies !in_window(
            #[trigger] d[i].entries@[j],
            lo,
            hi,
        ) by {
            assert(d[i] == b[i]);
        }
        lemma_ring_outside(d, lo, hi);
        let last = b.last();
        assert forall|j: int| 0 <= j < last.entries@.len() implies !in_window(
            #[trigger] last.entries@[j],
            lo,
            hi,
        ) by {
            assert(last == b[b.len() - 1]);
        }
        lemma_between_none(last.entries@, lo, hi);
        assert(ring_between(b, lo, hi) =~= Seq::<MarketDataEntry>::empty());
    }
}

/// Buckets all of whose samples lie in the window contribute all their samples.
pub proof fn lemma_ring_inside(b: Seq<Bucket>, lo: int, hi: int)
    requires
        forall|i: int, j: int|
            0 <= i < b.len() && 0 <= j < b[i].entries@.len() ==> in_window(
                #[trigger] b[i].entries@[j],
                lo,
                hi,
            ),
    ensures
        ring_between(b, lo, hi) == ring_samples(b),
    decreases b.len(),
{
    if b.len() > 0 {
        let d = b.drop_last();
        assert forall|i: int, j: int|
            0 <= i < d.len() && 0 <= j < d[i].entries@.len() implies in_window(
            #[trigger] d[i].entries@[j],
            lo,
            hi,
        ) by {
            assert(d[i] == b[i]);
        }
        lemma_ring_inside(d, lo, hi);
        let last = b.last();
        assert forall|j: int| 0 <= j < last.entries@.len() implies in_window(
            #[trigger] last.entries@[j],
            lo,
            hi,
        ) by {
            assert(last == b[b.len() - 1]);
        }
        lemma_between_all(last.entries@, lo, hi);
        lemma_between_all(last.entries@, 0, u64::MAX as int);
    }
}

/// The samples of well-formed buckets have finite spreads.
pub proof fn lemma_ring_finite(b: Seq<Bucket>, lo: int, hi: int)
    requires
        forall|i: int| 0 <= i < b.len() ==> (#[trigger] b[i]).wf(),
    ensures
        forall|j: int|
            0 <= j < ring_between(b, lo, hi).len() ==> is_finite_spread(
                (#[trigger] ring_between(b, lo, hi)[j]).spread,
            ),
    decreases b.len(),
{
    if b.len() > 0 {
        let d = b.drop_last();
        assert forall|i: int| 0 <= i < d.len() implies (#[trigger] d[i]).wf() by {
            assert(d[i] == b[i]);
        }
        lemma_ring_finite(d, lo, hi);
        let last = b.last();
        assert(last == b[b.len() - 1]);
        assert(last.wf());
        let sel = entries_between(last.entries@, lo, hi);
        lemma_between_members(last.entries@, lo, hi);
        let all = ring_between(b, lo, hi);
        let front = ring_between(d, lo, hi);
        assert forall|j: int| 0 <= j < all.len() implies is_finite_spread(
            (#[trigger] all[j]).spread,
        ) by {
            if j < front.len() {
                assert(all[j] == front[j]);
            } else {
                let x = sel[j - front.len()];
                assert(all[j] == x);
                assert(last.entries@.contains(x));
                let k = choose|k: int| 0 <= k < last.entries@.len() && last.entries@[k] == x;
                assert(is_finite_spread(last.entries@[k].spread));
            }
        }
    }
}

/// A window never holds more samples than the ring does.
pub proof fn lemma_ring_len_le(b: Seq<Bucket>, lo: int, hi: int)
    ensures
        ring_between(b, lo, hi).len() <= ring_samples(b).len(),
    decreases b.len(),
{
    if b.len() > 0 {
        lemma_ring_len_le(b.drop_last(), lo, hi);
        lemma_between_bounds(b.last().entries@, lo, hi);
        lemma_between_all(b.last().entries@, 0, u64::MAX as int);
    }
}

/// Cutting a window in two at `mid` cuts the number of samples in it in two.
pub proof fn lemma_ring_window_split(b: Seq<Bucket>, lo: int, mid: int, hi: int)
    requires
        lo <= mid <= hi + 1,
    ensures
        ring_between(b, lo, mid - 1).len() + ring_between(b, mid, hi).len() == ring_between(
            b,
            lo,
            hi,
        ).len(),
    decreases b.len(),
{
    if b.len() > 0 {
        lemma_ring_window_split(b.drop_last(), lo, mid, hi);
        lemma_between_split(b.last().entries@, lo, mid, hi);
    }
}

/// Replacing bucket `i` changes the number of samples in a window by the difference
/// between what the new bucket and the old one hold in it.
pub proof fn lemma_ring_update(b: Seq<Bucket>, i: int, x: Bucket, lo: int, hi: int)
    requires
        0 <= i < b.len(),
    ensures
        ring_between(b.update(i, x), lo, hi).len() == ring_between(b, lo, hi).len()
            - entries_between(b[i].entries@, lo, hi).len() + entries_between(
            x.entries@,
            lo,
            hi,
        ).len(),
{
    let u = b.update(i, x);
    lemma_ring_split(b, i, lo, hi);
    lemma_ring_split(u, i, lo, hi);
    assert(u.take(i) =~= b.take(i));
    assert(u.skip(i + 1) =~= b.skip(i + 1));
}

/// Dropping the first bucket drops exactly its samples.
pub proof fn lemma_ring_pop_front(b: Seq<Bucket>, lo: int, hi: int)
    requires
        b.len() > 0,
    ensures
        ring_between(b, lo, hi) == entries_between(b[0].entries@, lo, hi) + ring_between(
            b.subrange(1, b.len() as int),
            lo,
            hi,
        ),
{
    lemma_ring_split(b, 0, lo, hi);
    assert(b.take(0) =~= Seq::<Bucket>::empty());
    assert(b.skip(1) =~= b.subrange(1, b.len() as int));
    assert(ring_between(b.take(0), lo, hi) + entries_between(b[0].entries@, lo, hi)
        =~= entries_between(b[0].entries@, lo, hi));
}

/// The samples of a single bucket of a ring.
pub proof fn lemma_segment_first(b: Seq<Bucket>, from: int, lo: int, hi: int)
    requires
        0 <= from < b.len(),
    ensures
        ring_between(b.subrange(from, from + 1), lo, hi) == entries_between(
            b[from].entries@,
            lo,
            hi,
        ),
{
    lemma_ring_push(b.subrange(from, from), b[from], lo, hi);
    assert(b.subrange(from, from).push(b[from]) =~= b.subrange(from, from + 1));
    assert(ring_between(b.subrange(from, from), lo, hi) =~= Seq::<MarketDataEntry>::empty());
    assert(ring_between(b.subrange(from, from + 1), lo, hi) =~= entries_between(
        b[from].entries@,
        lo,
        hi,
    ));
}

/// The samples of the buckets `from..to + 1` in a window are those of the buckets
/// `from..to` followed by those of bucket `to`; and no more than those of `from..upto`.
pub proof fn lemma_segment_grows(b: Seq<Bucket>, from: int, to: int, upto: int, lo: int, hi: int)
    requires
        0 <= from <= to < upto <= b.len(),
    ensures
        ring_between(b.subrange(from, to + 1), lo, hi) == ring_between(
            b.subrange(from, to),
            lo,
            hi,
        ) + entries_between(b[to].entries@, lo, hi),
        ring_between(b.subrange(from, to + 1), lo, hi).len() <= ring_between(
            b.subrange(from, upto),
            lo,
            hi,
        ).len(),
{
    assert(b.subrange(from, to).push(b[to]) =~= b.subrange(from, to + 1));
    lemma_ring_push(b.subrange(from, to), b[to], lo, hi);
    assert(b.subrange(from, upto) =~= b.subrange(from, to + 1) + b.subrange(to + 1, upto));
    lemma_ring_concat(b.subrange(from, to + 1), b.subrange(to + 1, upto), lo, hi);
}

} // verus!
