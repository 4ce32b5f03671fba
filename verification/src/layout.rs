//! How a ring of buckets lies in time: contiguity, and the arithmetic of aligned
//! timestamps and slides.

use crate::ring::{
    lemma_ring_between_selects, lemma_ring_concat, lemma_ring_outside, lemma_ring_pointwise,
    ring_between, ring_samples,
};
use crate::samples::{entries_between, in_window, lemma_between_all};
use crate::types::bucket::Bucket;
use crate::types::MarketDataEntry;
use vstd::arithmetic::div_mod::{
    lemma_div_pos_is_pos, lemma_fundamental_div_mod, lemma_fundamental_div_mod_converse,
    lemma_mod_multiples_basic, lemma_mod_pos_bound,
};
use vstd::prelude::*;

verus! {

/// Every bucket is well formed, `w` wide and starts at a multiple of `w`, and each bucket
/// starts where the one before it ends.
pub open spec fn contiguous(b: Seq<Bucket>, w: u64) -> bool {
    &&& forall|i: int|
        0 <= i < b.len() ==> {
            &&& (#[trigger] b[i]).wf()
            &&& b[i].end_time_ns == b[i].start_time_ns + w
            &&& b[i].start_time_ns as int % w as int == 0
        }
    &&& forall|i: int, j: int|
        0 <= i && j == i + 1 && j < b.len() ==> (#[trigger] b[i]).end_time_ns == (
        #[trigger] b[j]).start_time_ns
}

/// In a contiguous ring, bucket `i` starts `i` widths after the first.
pub proof fn lemma_bucket_start(b: Seq<Bucket>, w: u64, i: int)
    requires
        contiguous(b, w),
        0 <= i < b.len(),
    ensures
        b[i].start_time_ns == b[0].start_time_ns + i * w,
        b[i].end_time_ns == b[0].start_time_ns + i * w + w,
    decreases i,
{
    if i > 0 {
        lemma_bucket_start(b, w, i - 1);
        assert(b[i - 1].end_time_ns == b[i].start_time_ns);
        assert((i - 1) * w + w == i * w) by (nonlinear_arith);
    }
}

/// In a contiguous ring, an earlier bucket ends no later than a later one starts.
pub proof fn lemma_bucket_order(b: Seq<Bucket>, w: u64, i: int, j: int)
    requires
        contiguous(b, w),
        0 <= i < j < b.len(),
    ensures
        b[i].end_time_ns <= b[j].start_time_ns,
{
    lemma_bucket_start(b, w, i);
    lemma_bucket_start(b, w, j);
    assert(i * w + w <= j * w) by (nonlinear_arith)
        requires
            i + 1 <= j,
            w >= 0,
    ;
}

/// A contiguous ring stays contiguous when buckets are dropped from its head.
pub proof fn lemma_contiguous_tail(b: Seq<Bucket>, w: u64, k: int)
    requires
        contiguous(b, w),
        0 <= k <= b.len(),
    ensures
        contiguous(b.subrange(k, b.len() as int), w),
{
    let t = b.subrange(k, b.len() as int);
    assert forall|i: int| 0 <= i < t.len() implies {
        &&& (#[trigger] t[i]).wf()
        &&& t[i].end_time_ns == t[i].start_time_ns + w
        &&& t[i].start_time_ns as int % w as int == 0
    } by {
        assert(t[i] == b[i + k]);
        assert(b[i + k].wf());
    }
    assert forall|i: int, j: int| 0 <= i && j == i + 1 && j < t.len() implies (#[trigger] t[i]).end_time_ns
        == (#[trigger] t[j]).start_time_ns by {
        assert(t[i] == b[i + k]);
        assert(t[j] == b[j + k]);
        assert(b[i + k].end_time_ns == b[j + k].start_time_ns);
    }
}

/// A contiguous ring stays contiguous when a bucket is replaced by a well-formed one over
/// the same interval.
pub proof fn lemma_contiguous_update(b: Seq<Bucket>, w: u64, i: int, x: Bucket)
    requires
        contiguous(b, w),
        0 <= i < b.len(),
        x.wf(),
        x.start_time_ns == b[i].start_time_ns,
        x.end_time_ns == b[i].end_time_ns,
    ensures
        contiguous(b.update(i, x), w),
{
    let u = b.update(i, x);
    assert forall|k: int| 0 <= k < u.len() implies {
        &&& (#[trigger] u[k]).wf()
        &&& u[k].end_time_ns == u[k].start_time_ns + w
        &&& u[k].start_time_ns as int % w as int == 0
    } by {
        assert(b[k].wf());
    }
    assert forall|k: int, j: int| 0 <= k && j == k + 1 && j < u.len() implies (#[trigger] u[k]).end_time_ns
        == (#[trigger] u[j]).start_time_ns by {
        assert(b[k].end_time_ns == b[j].start_time_ns);
    }
}

/// A contiguous ring stays contiguous when a well-formed, aligned bucket of the right width
/// is added where the ring ends.
pub proof fn lemma_contiguous_push(b: Seq<Bucket>, w: u64, x: Bucket)
    requires
        contiguous(b, w),
        x.wf(),
        x.end_time_ns == x.start_time_ns + w,
        x.start_time_ns as int % w as int == 0,
        b.len() > 0 ==> b.last().end_time_ns == x.start_time_ns,
    ensures
        contiguous(b.push(x), w),
{
    let u = b.push(x);
    assert forall|k: int| 0 <= k < u.len() implies {
        &&& (#[trigger] u[k]).wf()
        &&& u[k].end_time_ns == u[k].start_time_ns + w
        &&& u[k].start_time_ns as int % w as int == 0
    } by {
        if k < b.len() {
            assert(b[k].wf());
        }
    }
    assert forall|k: int, j: int| 0 <= k && j == k + 1 && j < u.len() implies (#[trigger] u[k]).end_time_ns
        == (#[trigger] u[j]).start_time_ns by {
        if j < b.len() {
            assert(b[k].end_time_ns == b[j].start_time_ns);
        } else {
            assert(u[k] == b.last());
        }
    }
}

/// A timestamp less its remainder by `w` is a multiple of `w`.
pub proof fn lemma_aligned(t: int, w: int)
    requires
        0 <= t,
        0 < w,
    ensures
        (t - t % w) % w == 0,
        0 <= t % w < w,
        t % w <= t,
        t - t % w == (t / w) * w,
{
    lemma_fundamental_div_mod(t, w);
    lemma_mod_pos_bound(t, w);
    lemma_mod_multiples_basic(t / w, w);
    lemma_div_pos_is_pos(t, w);
    assert(w * (t / w) == (t / w) * w && (t / w) * w >= 0) by (nonlinear_arith)
        requires
            t / w >= 0,
            w > 0,
    ;
}

/// Counted from an aligned start, a timestamp has the remainder it has itself, and lies
/// its index many widths, and that remainder, after the start.
pub proof fn lemma_offset(start: int, t: int, w: int)
    requires
        0 <= start <= t,
        0 < w,
        start % w == 0,
    ensures
        (t - start) % w == t % w,
        t - t % w == start + ((t - start) / w) * w,
        0 <= (t - start) / w,
{
    lemma_fundamental_div_mod(t, w);
    lemma_fundamental_div_mod(start, w);
    lemma_mod_pos_bound(t, w);
    let q = t / w - start / w;
    assert(t - start == q * w + t % w) by (nonlinear_arith)
        requires
            t == w * (t / w) + t % w,
            start == w * (start / w) + start % w,
            start % w == 0,
            q == t / w - start / w,
    ;
    lemma_fundamental_div_mod_converse(t - start, w, q, t % w);
    lemma_div_pos_is_pos(t - start, w);
}

/// The arithmetic of a slide. A ring of `n` buckets of width `w` starts at the aligned
/// `start`, and `t` lies at or past its end. Then the threshold `thr`, which is where the
/// ring must start for the bucket that covers `t` to be its last, lies at least one width
/// after `start`; `t` lies in the last bucket of the ring that starts at `thr`; and when
/// `thr` is before the end of the old ring it is a whole number of widths after `start`,
/// fewer than `n`.
pub proof fn lemma_slide(start: int, t: int, w: int, n: int)
    requires
        0 <= start,
        0 < w,
        1 <= n,
        start % w == 0,
        start + n * w <= t,
    ensures
        (t - start) % w == t % w,
        0 <= t % w < w,
        w <= n * w,
        start + n * w <= t - t % w,
        ({
            let thr = t - t % w + w - n * w;
            &&& start + w <= thr <= t < thr + n * w
            &&& (t - thr) / w == n - 1
            &&& thr < start + n * w ==> {
                let k = (thr - start) / w;
                &&& 1 <= k < n
                &&& start + k * w == thr
                &&& start + n * w + k * w == thr + n * w
            }
        }),
{
    lemma_offset(start, t, w);
    lemma_aligned(t, w);
    let idx = (t - start) / w;
    let rem = t % w;
    let thr = t - rem + w - n * w;
    assert(w <= n * w) by (nonlinear_arith)
        requires
            1 <= n,
            0 < w,
    ;
    assert(idx >= n) by (nonlinear_arith)
        requires
            t - rem == start + idx * w,
            start + n * w <= t,
            0 <= rem < w,
            0 < w,
    ;
    assert(idx * w >= n * w) by (nonlinear_arith)
        requires
            idx >= n,
            0 < w,
    ;
    assert(t - thr == (n - 1) * w + rem) by (nonlinear_arith)
        requires
            thr == t - rem + w - n * w,
    ;
    lemma_fundamental_div_mod_converse(t - thr, w, n - 1, rem);
    let k = idx + 1 - n;
    assert(thr - start == k * w + 0) by (nonlinear_arith)
        requires
            thr == t - rem + w - n * w,
            t - rem == start + idx * w,
            k == idx + 1 - n,
    ;
    lemma_fundamental_div_mod_converse(thr - start, w, k, 0);
    if thr < start + n * w {
        assert(k < n) by (nonlinear_arith)
            requires
                thr - start == k * w + 0,
                thr < start + n * w,
                0 < w,
        ;
    }
}

/// Removal up to `t` removes exactly the samples with a timestamp up to `t`. The ring `b`
/// loses its first `k` buckets, which end at or before `t`; the bucket that then comes
/// first, which ends after `t`, keeps its samples after `t`; the others keep theirs; and the
/// buckets added at the end are empty. Then the ring `fin` that results holds the samples
/// of `b` with a timestamp after `t`, in their order.
pub proof fn lemma_removal_selects(b: Seq<Bucket>, fin: Seq<Bucket>, w: u64, k: int, t: u64)
    requires
        contiguous(b, w),
        fin.len() == b.len(),
        0 <= k <= b.len(),
        k > 0 ==> b[k - 1].end_time_ns <= t,
        k < b.len() ==> b[k].end_time_ns > t,
        forall|i: int|
            0 <= i < fin.len() ==> (#[trigger] fin[i]).entries@ == if i + k < b.len() {
                if i == 0 {
                    entries_between(b[k].entries@, t + 1, u64::MAX as int)
                } else {
                    b[i + k].entries@
                }
            } else {
                Seq::<MarketDataEntry>::empty()
            },
    ensures
        ring_samples(fin) == entries_between(ring_samples(b), t + 1, u64::MAX as int),
{
    let n = b.len() as int;
    let lo = t + 1;
    let hi = u64::MAX as int;
    let gone = b.take(k);
    let stay = b.skip(k);
    let kept = fin.take(n - k);
    let fresh = fin.skip(n - k);
    lemma_ring_between_selects(b, lo, hi);
    // What is evicted whole holds nothing after `t`.
    assert forall|i: int, j: int|
        0 <= i < gone.len() && 0 <= j < gone[i].entries@.len() implies !in_window(
        #[trigger] gone[i].entries@[j],
        lo,
        hi,
    ) by {
        assert(gone[i] == b[i]);
        assert(b[i].wf());
        if i < k - 1 {
            lemma_bucket_order(b, w, i, k - 1);
        }
        assert(b[k - 1].wf());
    }
    lemma_ring_outside(gone, lo, hi);
    assert(b =~= gone + stay);
    lemma_ring_concat(gone, stay, lo, hi);
    assert(ring_between(b, lo, hi) =~= ring_between(stay, lo, hi));
    // What is added is empty.
    assert forall|i: int, j: int|
        0 <= i < fresh.len() && 0 <= j < fresh[i].entries@.len() implies !in_window(
        #[trigger] fresh[i].entries@[j],
        0,
        hi,
    ) by {
        assert(fresh[i] == fin[i + n - k]);
    }
    lemma_ring_outside(fresh, 0, hi);
    assert(fin =~= kept + fresh);
    lemma_ring_concat(kept, fresh, 0, hi);
    assert(ring_samples(fin) =~= ring_samples(kept));
    // What stays holds, bucket by bucket, its samples after `t`.
    assert forall|i: int| 0 <= i < kept.len() implies entries_between(
        (#[trigger] kept[i]).entries@,
        0,
        hi,
    ) == entries_between(stay[i].entries@, lo, hi) by {
        assert(kept[i] == fin[i]);
        assert(stay[i] == b[i + k]);
        lemma_between_all(kept[i].entries@, 0, hi);
        if i > 0 {
            assert(b[i + k].wf());
            assert(b[k].wf());
            lemma_bucket_order(b, w, k, i + k);
            lemma_between_all(b[i + k].entries@, lo, hi);
        }
    }
    lemma_ring_pointwise(kept, 0, hi, stay, lo, hi);
}

} // verus!
