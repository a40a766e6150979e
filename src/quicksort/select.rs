//! Selection of the k-th smallest element by repeated partitioning.

use super::partition::standard_partition;
use super::quicksort::shuffle;
use crate::order::{elem_le, exact_clone, lemma_multiset_from_range, lemma_range_bound, lemma_total_order, total_order};
use vstd::pervasive::strictly_cloned;
use vstd::prelude::*;

verus! {

/// `data[k]` is in its sorted place: nothing before it comes after it and
/// nothing after it comes before it.
pub open spec fn in_place<T: PartialOrd>(data: Seq<T>, k: int) -> bool {
    &&& forall|p: int| 0 <= p < k ==> elem_le(#[trigger] data[p], data[k])
    &&& forall|p: int| k < p < data.len() ==> elem_le(data[k], #[trigger] data[p])
}

/// The element of rank `k` (counting from zero) in ascending order. The
/// slice is shuffled and partitioned on the way, and ends with that element
/// at position `k` in its sorted place. A `k` past the end is an error.
#[verifier::loop_isolation(false)]
#[verifier::rlimit(40)]
pub fn select<T: Ord + Clone>(data: &mut [T], k: usize) -> (r: Result<T, &'static str>)
    requires
        total_order::<T>(),
        exact_clone::<T>(),
    ensures
        final(data)@.len() == old(data)@.len(),
        final(data)@.to_multiset() == old(data)@.to_multiset(),
        k >= old(data)@.len() ==> r is Err,
        k < old(data)@.len() ==> r == Ok::<T, &'static str>(final(data)@[k as int]) && in_place(final(data)@, k as int),
{
    proof {
        lemma_total_order::<T>();
    }
    if k >= data.len() {
        Err("Invalid Argument")
    } else {
        let n = data.len();
        let mut lo: usize = 0;
        let mut hi: usize = n - 1;
        shuffle(data);
        let mut j = lo;
        while hi > lo
            invariant
                n == data@.len(),
                lo <= k <= hi < n,
                data@.to_multiset() == old(data)@.to_multiset(),
                forall|p: int, q: int| 0 <= p < lo <= q < n ==> elem_le(#[trigger] data@[p], #[trigger] data@[q]),
                forall|p: int, q: int| 0 <= q <= hi < p < n ==> elem_le(#[trigger] data@[q], #[trigger] data@[p]),
            decreases hi - lo,
        {
            let ghost d0 = data@;
            let ghost (lo0, hi0) = (lo as int, hi as int);
            j = standard_partition(data, lo, hi);
            let ghost d1 = data@;
            proof {
                lemma_multiset_from_range(d1, d0, lo0, hi0 + 1);
                lemma_range_bound(d1, d0, lo0, hi0 + 1, |x: T| forall|p: int| 0 <= p < lo0 ==> elem_le(#[trigger] d0[p], x));
                lemma_range_bound(d1, d0, lo0, hi0 + 1, |x: T| forall|p: int| hi0 < p < n ==> elem_le(x, #[trigger] d0[p]));
                assert forall|p: int, q: int| 0 <= p < j + 1 <= q < n implies elem_le(#[trigger] d1[p], #[trigger] d1[q]) by {
                    if p < lo0 {
                        assert(d1[p] == d0[p]);
                        if q > hi0 {
                            assert(d1[q] == d0[q]);
                        }
                    } else if q <= hi0 {
                        assert(elem_le(d1[p], d1[j as int]));
                    } else {
                        assert(d1[q] == d0[q]);
                    }
                }
                assert forall|p: int, q: int| 0 <= q < j <= hi0 < p < n || 0 <= q <= hi0 < p < n implies
                    elem_le(#[trigger] d1[q], #[trigger] d1[p]) by {
                    assert(d1[p] == d0[p]);
                    if q < lo0 {
                        assert(d1[q] == d0[q]);
                    }
                }
                assert forall|p: int, q: int| 0 <= q <= j - 1 < p < n implies elem_le(#[trigger] d1[q], #[trigger] d1[p]) by {
                    if p > hi0 {
                        assert(d1[p] == d0[p]);
                        if q < lo0 {
                            assert(d1[q] == d0[q]);
                        }
                    } else if q >= lo0 {
                        assert(elem_le(d1[q], d1[j as int]));
                    } else {
                        assert(d1[q] == d0[q]);
                    }
                }
            }
            if j < k {
                lo = j + 1;
            } else if j > k {
                hi = j - 1;
            } else {
                let x = data[j].clone();
                proof {
                    assert(strictly_cloned(data@[j as int], x));
                }
                return Ok(x);
            }
        }
        let x = data[lo].clone();
        proof {
            assert(strictly_cloned(data@[lo as int], x));
        }
        Ok(x)
    }
}

} // verus!
