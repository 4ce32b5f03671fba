//! Sequences of samples: the samples that fall in a time window, and the least and
//! greatest spread among them. Every contract of the cache is stated over these.

use crate::spread::{
    greater, is_finite_spread, lesser, spec_greater, spec_lesser, EMPTY_MAX_SPREAD,
    EMPTY_MIN_SPREAD,
};
use crate::types::MarketDataEntry;
use vstd::prelude::*;

verus! {

/// Whether the sample's timestamp lies in the closed window `[lo, hi]`.
pub open spec fn in_window(e: MarketDataEntry, lo: int, hi: int) -> bool {
    lo <= e.utc_epoch_ns <= hi
}

/// The samples of `s` whose timestamps lie in `[lo, hi]`, in the order they have in `s`.
pub open spec fn entries_between(s: Seq<MarketDataEntry>, lo: int, hi: int) -> Seq<
    MarketDataEntry,
>
    decreases s.len(),
{
    if s.len() == 0 {
        Seq::empty()
    } else {
        let rest = entries_between(s.drop_last(), lo, hi);
        if in_window(s.last(), lo, hi) {
            rest.push(s.last())
        } else {
            rest
        }
    }
}

/// The least spread in `s`; the key of positive infinity when `s` is empty.
pub open spec fn least_spread(s: Seq<MarketDataEntry>) -> u64
    decreases s.len(),
{
    if s.len() == 0 {
        EMPTY_MIN_SPREAD
    } else {
        spec_lesser(least_spread(s.drop_last()), s.last().spread)
    }
}

/// The greatest spread in `s`; the key of negative infinity when `s` is empty.
pub open spec fn greatest_spread(s: Seq<MarketDataEntry>) -> u64
    decreases s.len(),
{
    if s.len() == 0 {
        EMPTY_MAX_SPREAD
    } else {
        spec_greater(greatest_spread(s.drop_last()), s.last().spread)
    }
}

/// The samples behind a sequence of references.
pub open spec fn referents(r: Seq<&MarketDataEntry>) -> Seq<MarketDataEntry> {
    Seq::new(r.len(), |i: int| *r[i])
}

/// The spreads of the samples, in order.
pub open spec fn spreads_of(s: Seq<MarketDataEntry>) -> Seq<u64> {
    Seq::new(s.len(), |i: int| s[i].spread)
}

/// Selecting from a sequence with one more sample at its end.
pub proof fn lemma_between_push(s: Seq<MarketDataEntry>, e: MarketDataEntry, lo: int, hi: int)
    ensures
        entries_between(s.push(e), lo, hi) == if in_window(e, lo, hi) {
            entries_between(s, lo, hi).push(e)
        } else {
            entries_between(s, lo, hi)
        },
{
    assert(s.push(e).drop_last() =~= s);
}

/// Selecting from two sequences joined is joining what is selected from each.
pub proof fn lemma_between_concat(
    a: Seq<MarketDataEntry>,
    b: Seq<MarketDataEntry>,
    lo: int,
    hi: int,
)
    ensures
        entries_between(a + b, lo, hi) == entries_between(a, lo, hi) + entries_between(b, lo, hi),
    decreases b.len(),
{
    if b.len() == 0 {
        assert(a + b =~= a);
        assert(entries_between(a, lo, hi) + entries_between(b, lo, hi) =~= entries_between(
            a,
            lo,
            hi,
        ));
    } else {
        lemma_between_concat(a, b.drop_last(), lo, hi);
        assert((a + b).drop_last() =~= a + b.drop_last());
        assert((a + b).last() == b.last());
        assert(entries_between(a + b, lo, hi) =~= entries_between(a, lo, hi) + entries_between(
            b,
            lo,
            hi,
        ));
    }
}

/// A selection is no longer than what it selects from, and holds only samples of the
/// window.
pub proof fn lemma_between_bounds(s: Seq<MarketDataEntry>, lo: int, hi: int)
    ensures
        entries_between(s, lo, hi).len() <= s.len(),
        forall|j: int|
            0 <= j < entries_between(s, lo, hi).len() ==> in_window(
                #[trigger] entries_between(s, lo, hi)[j],
                lo,
                hi,
            ),
    decreases s.len(),
{
    if s.len() > 0 {
        lemma_between_bounds(s.drop_last(), lo, hi);
    }
}

/// Every sample of a selection is a sample of the sequence it was selected from.
pub proof fn lemma_between_members(s: Seq<MarketDataEntry>, lo: int, hi: int)
    ensures
        forall|j: int|
            0 <= j < entries_between(s, lo, hi).len() ==> s.contains(
                #[trigger] entries_between(s, lo, hi)[j],
            ),
    decreases s.len(),
{
    if s.len() > 0 {
        let d = s.drop_last();
        lemma_between_members(d, lo, hi);
        let sel = entries_between(s, lo, hi);
        assert forall|j: int| 0 <= j < sel.len() implies s.contains(#[trigger] sel[j]) by {
            if j < entries_between(d, lo, hi).len() {
                let x = entries_between(d, lo, hi)[j];
                assert(d.contains(x));
                let k = choose|k: int| 0 <= k < d.len() && d[k] == x;
                assert(s[k] == x);
            } else {
                assert(s[s.len() - 1] == sel[j]);
            }
        }
    }
}

/// Two windows that hold the same samples of `s` select the same.
pub proof fn lemma_between_agree(
    s: Seq<MarketDataEntry>,
    lo1: int,
    hi1: int,
    lo2: int,
    hi2: int,
)
    requires
        forall|i: int|
            0 <= i < s.len() ==> in_window(#[trigger] s[i], lo1, hi1) == in_window(s[i], lo2, hi2),
    ensures
        entries_between(s, lo1, hi1) == entries_between(s, lo2, hi2),
    decreases s.len(),
{
    if s.len() > 0 {
        lemma_between_agree(s.drop_last(), lo1, hi1, lo2, hi2);
    }
}

/// A window that holds every sample of `s` selects all of `s`.
pub proof fn lemma_between_all(s: Seq<MarketDataEntry>, lo: int, hi: int)
    requires
        forall|i: int| 0 <= i < s.len() ==> in_window(#[trigger] s[i], lo, hi),
    ensures
        entries_between(s, lo, hi) == s,
    decreases s.len(),
{
    if s.len() > 0 {
        lemma_between_all(s.drop_last(), lo, hi);
        assert(s.drop_last().push(s.last()) =~= s);
    } else {
        assert(s =~= Seq::empty());
    }
}

/// A window that holds no sample of `s` selects nothing.
pub proof fn lemma_between_none(s: Seq<MarketDataEntry>, lo: int, hi: int)
    requires
        forall|i: int| 0 <= i < s.len() ==> !in_window(#[trigger] s[i], lo, hi),
    ensures
        entries_between(s, lo, hi) == Seq::<MarketDataEntry>::empty(),
    decreases s.len(),
{
    if s.len() > 0 {
        lemma_between_none(s.drop_last(), lo, hi);
    }
}

/// Cutting a window in two at `mid` cuts the number of selected samples in two.
pub proof fn lemma_between_split(s: Seq<MarketDataEntry>, lo: int, mid: int, hi: int)
    requires
        lo <= mid <= hi + 1,
    ensures
        entries_between(s, lo, mid - 1).len() + entries_between(s, mid, hi).len()
            == entries_between(s, lo, hi).len(),
    decreases s.len(),
{
    if s.len() > 0 {
        lemma_between_split(s.drop_last(), lo, mid, hi);
    }
}

/// The least spread of a sequence with one more sample at its end.
pub proof fn lemma_least_push(s: Seq<MarketDataEntry>, e: MarketDataEntry)
    ensures
        least_spread(s.push(e)) == spec_lesser(least_spread(s), e.spread),
        greatest_spread(s.push(e)) == spec_greater(greatest_spread(s), e.spread),
{
    assert(s.push(e).drop_last() =~= s);
}

/// The extremes of two sequences joined are the extremes of their extremes.
pub proof fn lemma_extremes_concat(a: Seq<MarketDataEntry>, b: Seq<MarketDataEntry>)
    ensures
        least_spread(a + b) == spec_lesser(least_spread(a), least_spread(b)),
        greatest_spread(a + b) == spec_greater(greatest_spread(a), greatest_spread(b)),
    decreases b.len(),
{
    if b.len() == 0 {
        assert(a + b =~= a);
        lemma_extremes_range(a);
    } else {
        lemma_extremes_concat(a, b.drop_last());
        assert((a + b).drop_last() =~= a + b.drop_last());
        assert((a + b).last() == b.last());
    }
}

/// The least spread never exceeds the key of positive infinity, and the greatest is never
/// below the key of negative infinity, when every spread is finite; and in a non-empty
/// sequence the least spread is at most the greatest, and both are spreads of finite
/// numbers.
pub proof fn lemma_extremes_finite(s: Seq<MarketDataEntry>)
    requires
        forall|i: int| 0 <= i < s.len() ==> is_finite_spread(#[trigger] s[i].spread),
    ensures
        s.len() > 0 ==> is_finite_spread(least_spread(s)) && is_finite_spread(greatest_spread(s)),
        s.len() > 0 ==> least_spread(s) <= greatest_spread(s),
        s.len() == 0 ==> least_spread(s) == EMPTY_MIN_SPREAD && greatest_spread(s)
            == EMPTY_MAX_SPREAD,
    decreases s.len(),
{
    if s.len() > 0 {
        lemma_extremes_finite(s.drop_last());
    }
}

/// Whatever the spreads, the least is at most the key of positive infinity and the
/// greatest at least the key of negative infinity.
pub proof fn lemma_extremes_range(s: Seq<MarketDataEntry>)
    ensures
        least_spread(s) <= EMPTY_MIN_SPREAD,
        greatest_spread(s) >= EMPTY_MAX_SPREAD,
        s.len() > 0 ==> least_spread(s) <= greatest_spread(s),
    decreases s.len(),
{
    if s.len() > 0 {
        lemma_extremes_range(s.drop_last());
    }
}

/// The least spread among the samples referred to.
pub fn least_spread_of(entries: &Vec<&MarketDataEntry>) -> (min: u64)
    ensures
        min == least_spread(referents(entries@)),
{
    let mut min: u64 = EMPTY_MIN_SPREAD;
    let mut i: usize = 0;
    while i < entries.len()
        invariant
            0 <= i <= entries@.len(),
            min == least_spread(referents(entries@).take(i as int)),
        decreases entries@.len() - i,
    {
        proof {
            let r = referents(entries@);
            assert(r.take(i + 1) =~= r.take(i as int).push(r[i as int]));
            lemma_least_push(r.take(i as int), r[i as int]);
        }
        min = lesser(min, entries[i].spread);
        i += 1;
    }
    proof {
        assert(referents(entries@).take(i as int) =~= referents(entries@));
    }
    min
}

/// The greatest spread among the samples referred to.
pub fn greatest_spread_of(entries: &Vec<&MarketDataEntry>) -> (max: u64)
    ensures
        max == greatest_spread(referents(entries@)),
{
    let mut max: u64 = EMPTY_MAX_SPREAD;
    let mut i: usize = 0;
    while i < entries.len()
        invariant
            0 <= i <= entries@.len(),
            max == greatest_spread(referents(entries@).take(i as int)),
        decreases entries@.len() - i,
    {
        proof {
            let r = referents(entries@);
            assert(r.take(i + 1) =~= r.take(i as int).push(r[i as int]));
            lemma_least_push(r.take(i as int), r[i as int]);
        }
        max = greater(max, entries[i].spread);
        i += 1;
    }
    proof {
        assert(referents(entries@).take(i as int) =~= referents(entries@));
    }
    max
}

/// The spreads of the samples referred to, in order.
pub fn spreads_of_entries(entries: &Vec<&MarketDataEntry>) -> (spreads: Vec<u64>)
    ensures
        spreads@ == spreads_of(referents(entries@)),
{
    let mut spreads: Vec<u64> = Vec::new();
    let mut i: usize = 0;
    while i < entries.len()
        invariant
            0 <= i <= entries@.len(),
            spreads@ == spreads_of(referents(entries@).take(i as int)),
        decreases entries@.len() - i,
    {
        proof {
            let r = referents(entries@);
            assert(spreads_of(r.take(i + 1)) =~= spreads_of(r.take(i as int)).push(
                r[i as int].spread,
            ));
        }
        spreads.push(entries[i].spread);
        i += 1;
    }
    proof {
        assert(referents(entries@).take(i as int) =~= referents(entries@));
    }
    spreads
}

} // verus!
