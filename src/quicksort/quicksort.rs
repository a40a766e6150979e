//! Quicksort over two-way partitioning, with and without a random shuffle
//! first.

use super::partition::standard_partition;
use crate::order::{elem_le, lemma_multiset_from_range, lemma_range_bound, lemma_split_multiset, lemma_total_order, sorted, sorted_range, total_order};
use rand::seq::SliceRandom;
use vstd::prelude::*;

verus! {

/// Relies on `rand::seq::SliceRandom::shuffle` with `rand::thread_rng()`:
/// it only swaps elements, so the slice keeps the same elements.
#[verifier::external_body]
pub(crate) fn shuffle<T>(data: &mut [T])
    ensures
        final(data)@.len() == old(data)@.len(),
        final(data)@.len() == old(data)@.len(),
        final(data)@.to_multiset() == old(data)@.to_multiset(),
{
    data.shuffle(&mut rand::thread_rng())
}

/// Sorts a non-empty `data` in ascending order after shuffling it.
pub fn quicksort<T: Ord>(data: &mut [T])
    requires
        total_order::<T>(),
        old(data)@.len() > 0,
    ensures
        sorted(final(data)@),
        final(data)@.len() == old(data)@.len(),
        final(data)@.to_multiset() == old(data)@.to_multiset(),
{
    shuffle(data);
    let ghost mid = data@;
    let n = data.len();
    recursive_step(data, 0, n - 1);
    proof {
        lemma_multiset_from_range(data@, mid, 0, n as int);
    }
}

/// Sorts `data[lo..=hi]` in place and leaves the rest of `data` alone; a
/// range with `hi <= lo` is left as it is.
#[verifier::rlimit(40)]
pub fn recursive_step<T: Ord>(data: &mut [T], lo: usize, hi: usize)
    requires
        total_order::<T>(),
        lo <= hi + 1,
        hi < old(data)@.len(),
    ensures
        final(data)@.len() == old(data)@.len(),
        lo <= hi ==> sorted_range(final(data)@, lo as int, hi + 1),
        lo <= hi ==> final(data)@.subrange(lo as int, hi + 1).to_multiset() == old(data)@.subrange(lo as int, hi + 1).to_multiset(),
        forall|p: int| 0 <= p < old(data)@.len() && !(lo <= p <= hi) ==> final(data)@[p] == old(data)@[p],
    decreases hi + 1 - lo,
{
    proof {
        lemma_total_order::<T>();
    }
    let _n = data.len();
    if hi <= lo {
        return;
    }
    let ghost d0 = data@;
    let j = standard_partition(data, lo, hi);
    let ghost d1 = data@;
    let ghost v = d1[j as int];
    if j > 0 {
        recursive_step(data, lo, j - 1);
    }
    let ghost d2 = data@;
    recursive_step(data, j + 1, hi);
    let ghost d3 = data@;
    proof {
        if j > lo {
            assert(d2.subrange(lo as int, j as int) =~= d2.subrange(lo as int, j - 1 + 1));
            assert(d1.subrange(lo as int, j as int) =~= d1.subrange(lo as int, j - 1 + 1));
            lemma_range_bound(d2, d1, lo as int, j as int, |x: T| elem_le(x, v));
        } else {
            assert(d2.subrange(lo as int, j as int) =~= d1.subrange(lo as int, j as int));
        }
        if j + 1 > hi {
            assert(d3 =~= d2);
        }
        if j == lo {
            assert(d2 =~= d1);
        }
        assert(d2.subrange(j + 1, hi + 1) =~= d1.subrange(j + 1, hi + 1));
        lemma_range_bound(d3, d2, j + 1, hi + 1, |x: T| elem_le(v, x));
        assert forall|p: int| j + 1 <= p <= hi implies d2[p] == d1[p] by {}
        assert(d3.subrange(lo as int, j as int) =~= d2.subrange(lo as int, j as int));
        assert forall|a: int, b: int| lo <= a < b < hi + 1 implies elem_le(#[trigger] d3[a], #[trigger] d3[b]) by {
            if a < j && b == j {
                assert(d3[a] == d2[a]);
            } else if a < j && b > j {
                assert(d3[a] == d2[a]);
                assert(elem_le(d3[a], v));
                assert(elem_le(v, d3[b]));
            } else if a == j {
                assert(elem_le(v, d3[b]));
            } else if b < j {
                assert(d3[a] == d2[a] && d3[b] == d2[b]);
            }
        }
        lemma_split_multiset(d3, lo as int, j as int, hi + 1);
        lemma_split_multiset(d3, j as int, j + 1, hi + 1);
        lemma_split_multiset(d1, lo as int, j as int, hi + 1);
        lemma_split_multiset(d1, j as int, j + 1, hi + 1);
        assert(d3.subrange(j as int, j + 1) =~= d1.subrange(j as int, j + 1));
        assert(d3.subrange(lo as int, j as int).to_multiset() == d1.subrange(lo as int, j as int).to_multiset());
        assert(d3.subrange(j + 1, hi + 1).to_multiset() == d1.subrange(j + 1, hi + 1).to_multiset());
    }
}

/// Sorts a non-empty `data` in ascending order without shuffling it first.
pub fn djistra_quicksort<T: Ord>(data: &mut [T])
    requires
        total_order::<T>(),
        old(data)@.len() > 0,
    ensures
        sorted(final(data)@),
        final(data)@.len() == old(data)@.len(),
        final(data)@.to_multiset() == old(data)@.to_multiset(),
{
    let n = data.len();
    recursive_step(data, 0, n - 1);
    proof {
        lemma_multiset_from_range(data@, old(data)@, 0, n as int);
    }
}

} // verus!
