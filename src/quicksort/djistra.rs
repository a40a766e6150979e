//! Quicksort with Dijkstra's three-way partitioning: elements equal to the
//! pivot are gathered in the middle and left out of the recursion.

use crate::order::{elem_le, elem_lt, lemma_range_bound, lemma_range_of_whole, lemma_split_multiset, lemma_swap_multiset, lemma_total_order, sorted_range, total_order};
use vstd::prelude::*;

verus! {

/// Sorts `data[lo..=hi]` in place and leaves the rest of `data` alone; a
/// range with `hi <= lo` is left as it is. The range is split into the
/// elements before the pivot, those equal to it and those after it.
#[verifier::loop_isolation(false)]
#[verifier::rlimit(40)]
pub fn recursive_step<T: Ord>(data: &mut [T], lo: usize, hi: usize)
    requires
        total_order::<T>(),
        lo <= hi + 1,
        hi < old(data)@.len(),
    ensures
        final(data)@.len() == old(data)@.len(),
        lo <= hi ==> sorted_range(final(data)@, lo as int, hi + 1),
        lo <= hi ==> final(data)@.subrange(lo as int, hi + 1).to_multiset() == old(data)@.subrange(lo as int, hi + 1).to_multiset(),
        forall|p: int| 0 <= p < old(data)@.len() && !(lo <= p <= hi) ==> final(data)@[p] == old(data)@[p],
    decreases hi + 1 - lo,
{
    proof {
        lemma_total_order::<T>();
    }
    let _n = data.len();
    if lo >= hi {
        return;
    }
    let ghost d0 = data@;
    let ghost v = d0[lo as int];
    let mut lt = lo;
    let mut gt = hi;
    let mut i = lo;
    while i <= gt
        invariant
            data@.len() == d0.len(),
            lo <= lt <= i <= gt + 1,
            gt <= hi,
            lt == i ==> i == lo,
            lt <= hi,
            data@[lt as int] == v,
            forall|p: int| lo <= p < lt ==> elem_lt(#[trigger] data@[p], v),
            forall|p: int| lt <= p < i ==> #[trigger] data@[p] == v,
            forall|p: int| gt < p <= hi ==> elem_lt(v, #[trigger] data@[p]),
            data@.to_multiset() == d0.to_multiset(),
            forall|p: int| 0 <= p < d0.len() && !(lo <= p <= hi) ==> data@[p] == d0[p],
        decreases gt + 1 - i,
    {
        if data[i] < data[lt] {
            proof {
                lemma_swap_multiset(data@, i as int, lt as int);
            }
            data.swap(i, lt);
            lt += 1;
            i += 1;
        } else if data[i] > data[lt] {
            proof {
                lemma_swap_multiset(data@, i as int, gt as int);
            }
            data.swap(i, gt);
            gt -= 1;
        } else {
            i += 1;
        }
    }
    let ghost d1 = data@;
    proof {
        lemma_range_of_whole(d0, d1, lo as int, hi + 1);
    }
    if lt > 0 {
        recursive_step(data, lo, lt - 1);
    }
    let ghost d2 = data@;
    recursive_step(data, gt + 1, hi);
    let ghost d3 = data@;
    proof {
        if lt == lo {
            assert(d2 =~= d1);
        } else {
            assert(d2.subrange(lo as int, lt as int) =~= d2.subrange(lo as int, lt - 1 + 1));
            assert(d1.subrange(lo as int, lt as int) =~= d1.subrange(lo as int, lt - 1 + 1));
        }
        lemma_range_bound(d2, d1, lo as int, lt as int, |x: T| elem_lt(x, v));
        if gt + 1 > hi {
            assert(d3 =~= d2);
        }
        assert(d2.subrange(gt + 1, hi + 1) =~= d1.subrange(gt + 1, hi + 1));
        lemma_range_bound(d3, d2, gt + 1, hi + 1, |x: T| elem_lt(v, x));
        assert(d3.subrange(lo as int, lt as int) =~= d2.subrange(lo as int, lt as int));
        assert(d3.subrange(lt as int, gt + 1) =~= d1.subrange(lt as int, gt + 1));
        assert forall|a: int, b: int| lo <= a < b < hi + 1 implies elem_le(#[trigger] d3[a], #[trigger] d3[b]) by {
            if a < lt {
                assert(d3[a] == d2[a]);
                assert(elem_lt(d3[a], v));
                if b < lt {
                    assert(d3[b] == d2[b]);
                } else if b <= gt {
                    assert(d3[b] == d1[b]);
                } else {
                    assert(elem_lt(v, d3[b]));
                }
            } else if a <= gt {
                assert(d3[a] == d1[a]);
                if b <= gt {
                    assert(d3[b] == d1[b]);
                } else {
                    assert(elem_lt(v, d3[b]));
                }
            }
        }
        lemma_split_multiset(d3, lo as int, lt as int, hi + 1);
        lemma_split_multiset(d3, lt as int, gt + 1, hi + 1);
        lemma_split_multiset(d1, lo as int, lt as int, hi + 1);
        lemma_split_multiset(d1, lt as int, gt + 1, hi + 1);
    }
}

} // verus!
