//! Top-down merge sort.

use super::utils::{merge, to_vec};
use crate::order::{elem_le, elem_lt, exact_clone, lemma_multiset_from_range, lemma_split_multiset, lemma_total_order, sorted, sorted_range, total_order};
use vstd::prelude::*;

verus! {

/// Sorts a non-empty `data` in ascending order, equal elements keeping
/// their order.
pub fn merge_sort<T: Ord + Clone>(data: &mut [T])
    requires
        total_order::<T>(),
        exact_clone::<T>(),
        old(data)@.len() > 0,
    ensures
        sorted(final(data)@),
        final(data)@.len() == old(data)@.len(),
        final(data)@.to_multiset() == old(data)@.to_multiset(),
{
    let mut aux = to_vec(data);
    let n = data.len();
    recursive_routine(data, aux.as_mut_slice(), 0, n - 1);
    proof {
        lemma_multiset_from_range(final(data)@, old(data)@, 0, n as int);
    }
}

/// Sorts `slice[left..=right]` in place with `aux` as scratch space and
/// leaves the rest of `slice` alone.
#[verifier::rlimit(40)]
pub fn recursive_routine<T: Ord + Clone>(slice: &mut [T], aux: &mut [T], left: usize, right: usize)
    requires
        total_order::<T>(),
        exact_clone::<T>(),
        left <= right < old(slice)@.len(),
        old(aux)@.len() == old(slice)@.len(),
    ensures
        final(slice)@.len() == old(slice)@.len(),
        final(aux)@.len() == old(aux)@.len(),
        sorted_range(final(slice)@, left as int, right + 1),
        final(slice)@.subrange(left as int, right + 1).to_multiset() == old(slice)@.subrange(left as int, right + 1).to_multiset(),
        forall|p: int| 0 <= p < old(slice)@.len() && !(left <= p <= right) ==> final(slice)@[p] == old(slice)@[p],
    decreases right - left,
{
    proof {
        lemma_total_order::<T>();
    }
    if left < right {
        let mid = left + (right - left) / 2;
        let ghost s0 = slice@;
        recursive_routine(slice, aux, left, mid);
        let ghost s1 = slice@;
        recursive_routine(slice, aux, mid + 1, right);
        let ghost s2 = slice@;
        proof {
            assert(s2.subrange(left as int, mid + 1) =~= s1.subrange(left as int, mid + 1));
            assert(s1.subrange(mid + 1, right + 1) =~= s0.subrange(mid + 1, right + 1));
            lemma_split_multiset(s0, left as int, mid + 1, right + 1);
            lemma_split_multiset(s2, left as int, mid + 1, right + 1);
            assert(sorted_range(s2, left as int, mid + 1));
        }
        if slice[mid] < slice[mid + 1] {
            proof {
                assert forall|a: int, b: int| left <= a < b < right + 1 implies elem_le(#[trigger] s2[a], #[trigger] s2[b]) by {
                    if a <= mid && b > mid {
                        assert(elem_le(s2[a], s2[mid as int]));
                        assert(elem_le(s2[mid + 1], s2[b]));
                    }
                }
            }
            return;
        }
        merge(slice, aux, left, mid, right);
    }
}

} // verus!
