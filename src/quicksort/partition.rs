//! Two-pointer partitioning around the first element of a range.

use crate::order::{elem_le, elem_lt, lemma_range_of_whole, lemma_swap_multiset, lemma_total_order, total_order};
use vstd::prelude::*;

verus! {

/// One more step is due from the scans: the left scan can pass
/// `data[i]`, or the right scan can pass `data[j]`.
pub open spec fn scan_pending<T: PartialOrd>(data: Seq<T>, lo: int, hi: int, i: int, j: int) -> bool {
    ||| (lo <= i < hi && elem_lt(data[i], data[lo]))
    ||| (lo < j <= hi && elem_lt(data[lo], data[j]))
}

/// Rearranges `data[lo..=hi]` around its first element, the pivot, and
/// returns the pivot's final position: nothing before it comes after the
/// pivot and nothing after it comes before the pivot.
#[verifier::loop_isolation(false)]
#[verifier::rlimit(40)]
pub fn standard_partition<T: Ord>(data: &mut [T], lo: usize, hi: usize) -> (r: usize)
    requires
        total_order::<T>(),
        lo <= hi < old(data)@.len(),
    ensures
        lo <= r <= hi,
        final(data)@.len() == old(data)@.len(),
        final(data)@[r as int] == old(data)@[lo as int],
        forall|p: int| lo <= p < r ==> elem_le(#[trigger] final(data)@[p], final(data)@[r as int]),
        forall|p: int| r < p <= hi ==> elem_le(final(data)@[r as int], #[trigger] final(data)@[p]),
        final(data)@.subrange(lo as int, hi + 1).to_multiset() == old(data)@.subrange(lo as int, hi + 1).to_multiset(),
        forall|p: int| 0 <= p < old(data)@.len() && !(lo <= p <= hi) ==> final(data)@[p] == old(data)@[p],
{
    proof {
        lemma_total_order::<T>();
    }
    let ghost d0 = data@;
    let ghost v = d0[lo as int];
    let _n = data.len();
    let mut i = lo + 1;
    let mut j = hi;
    loop
        invariant
            data@.len() == d0.len(),
            lo + 1 <= i <= hi + 1,
            lo <= j <= hi,
            i <= j + 1,
            data@[lo as int] == v,
            forall|p: int| lo + 1 <= p < i ==> elem_le(#[trigger] data@[p], v),
            forall|p: int| j < p <= hi ==> elem_le(v, #[trigger] data@[p]),
            data@.to_multiset() == d0.to_multiset(),
            forall|p: int| 0 <= p < d0.len() && !(lo <= p <= hi) ==> data@[p] == d0[p],
        decreases (j + 1 - i) as nat, if scan_pending(data@, lo as int, hi as int, i as int, j as int) { 0nat } else { 1nat },
    {
        let ghost i0 = i;
        let ghost j0 = j;
        while i < hi && data[i] < data[lo]
            invariant
                i0 <= i <= hi + 1,
                lo + 1 <= i,
                forall|p: int| lo + 1 <= p < i ==> elem_le(#[trigger] data@[p], v),
            decreases hi + 1 - i,
        {
            i += 1;
        }
        while j > lo && data[j] > data[lo]
            invariant
                lo <= j <= j0,
                forall|p: int| j < p <= hi ==> elem_le(v, #[trigger] data@[p]),
            decreases j,
        {
            j -= 1;
        }
        assert(!scan_pending(data@, lo as int, hi as int, i as int, j as int));
        if i >= j {
            break;
        }
        proof {
            lemma_swap_multiset(data@, i as int, j as int);
        }
        data.swap(i, j);
        if !(data[i] < data[lo]) && !(data[j] > data[lo]) {
            i += 1;
            j -= 1;
        }
    }
    let ghost before = data@;
    proof {
        lemma_swap_multiset(data@, lo as int, j as int);
    }
    data.swap(lo, j);
    proof {
        assert(elem_le(before[j as int], v));
        assert forall|p: int| lo <= p < j implies elem_le(#[trigger] data@[p], data@[j as int]) by {
            if p == lo {
                assert(data@[p] == before[j as int]);
            } else {
                assert(data@[p] == before[p]);
            }
        }
        lemma_range_of_whole(d0, data@, lo as int, hi as int + 1);
    }
    j
}

} // verus!
