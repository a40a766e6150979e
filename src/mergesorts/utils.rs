//! Merging two adjacent sorted runs of a slice through an auxiliary slice.

use crate::order::{elem_le, elem_lt, exact_clone, lemma_total_order, sorted_range, total_order};
use vstd::pervasive::strictly_cloned;
use vstd::prelude::*;

verus! {

/// Merges the sorted runs `data[left..=mid]` and `data[mid+1..=right]` into
/// one sorted run in place, using `aux[left..=right]` as scratch space.
/// Elements from the left run go first among equal ones.
#[verifier::loop_isolation(false)]
#[verifier::rlimit(50)]
pub fn merge<T: Ord + Clone>(data: &mut [T], aux: &mut [T], left: usize, mid: usize, right: usize)
    requires
        total_order::<T>(),
        exact_clone::<T>(),
        left <= mid <= right,
        right < old(data)@.len(),
        old(aux)@.len() == old(data)@.len(),
        sorted_range(old(data)@, left as int, mid + 1),
        sorted_range(old(data)@, mid + 1, right + 1),
    ensures
        final(data)@.len() == old(data)@.len(),
        final(aux)@.len() == old(aux)@.len(),
        sorted_range(final(data)@, left as int, right + 1),
        final(data)@.subrange(left as int, right + 1).to_multiset() == old(data)@.subrange(left as int, right + 1).to_multiset(),
        forall|p: int| 0 <= p < old(data)@.len() && !(left <= p <= right) ==> final(data)@[p] == old(data)@[p],
{
    proof {
        lemma_total_order::<T>();
    }
    broadcast use vstd::seq_lib::group_to_multiset_ensures;

    let ghost d0 = data@;
    let _n = data.len();
    for p in left..right + 1
        invariant
            data@ == d0,
            aux@.len() == d0.len(),
            forall|q: int| left <= q < p ==> aux@[q] == d0[q],
    {
        let x = data[p].clone();
        proof {
            assert(strictly_cloned(data@[p as int], x));
        }
        aux[p] = x;
    }
    let ghost a = aux@;
    let mut i = left;
    let mut j = mid + 1;
    assert(data@.subrange(left as int, left as int) =~= Seq::<T>::empty());
    assert(a.subrange(left as int, left as int) =~= Seq::<T>::empty());
    assert(a.subrange(mid + 1, mid + 1) =~= Seq::<T>::empty());
    for k in left..right + 1
        invariant
            left <= i <= mid + 1,
            mid + 1 <= j <= right + 1,
            k == i + j - mid - 1,
            aux@ == a,
            data@.len() == d0.len(),
            forall|q: int| left <= q <= right ==> a[q] == d0[q],
            forall|p: int| 0 <= p < d0.len() && !(left <= p <= right) ==> data@[p] == d0[p],
            sorted_range(data@, left as int, k as int),
            data@.subrange(left as int, k as int).to_multiset() == a.subrange(left as int, i as int).to_multiset().add(
                a.subrange(mid + 1, j as int).to_multiset()),
            i <= mid ==> forall|p: int| left <= p < k ==> elem_le(#[trigger] data@[p], a[i as int]),
            j <= right ==> forall|p: int| left <= p < k ==> elem_le(#[trigger] data@[p], a[j as int]),
    {
        let ghost before = data@;
        let take_left: bool;
        if i > mid {
            take_left = false;
        } else if j > right {
            take_left = true;
        } else if aux[i] < aux[j] {
            take_left = true;
        } else {
            take_left = false;
        }
        if take_left {
            let x = aux[i].clone();
            proof {
                assert(strictly_cloned(aux@[i as int], x));
            }
            data[k] = x;
            proof {
                assert(data@.subrange(left as int, k + 1) =~= before.subrange(left as int, k as int).push(a[i as int]));
                assert(a.subrange(left as int, i + 1) =~= a.subrange(left as int, i as int).push(a[i as int]));
                if i + 1 <= mid {
                    assert(elem_le(a[i as int], a[i + 1]));
                }
            }
            i += 1;
        } else {
            let x = aux[j].clone();
            proof {
                assert(strictly_cloned(aux@[j as int], x));
            }
            data[k] = x;
            proof {
                assert(data@.subrange(left as int, k + 1) =~= before.subrange(left as int, k as int).push(a[j as int]));
                assert(a.subrange(mid + 1, j + 1) =~= a.subrange(mid + 1, j as int).push(a[j as int]));
                if j + 1 <= right {
                    assert(elem_le(a[j as int], a[j + 1]));
                }
            }
            j += 1;
        }
    }
    proof {
        vstd::seq_lib::lemma_multiset_commutative(a.subrange(left as int, mid + 1), a.subrange(mid + 1, right + 1));
        assert(a.subrange(left as int, mid + 1) + a.subrange(mid + 1, right + 1) =~= d0.subrange(left as int, right + 1));
    }
}

/// Relies on `<[T]>::to_vec`: a vector of clones of the elements, as many as
/// the slice holds.
#[verifier::external_body]
pub(crate) fn to_vec<T: Clone>(s: &[T]) -> (r: Vec<T>)
    ensures
        r@.len() == s@.len(),
{
    s.to_vec()
}

} // verus!
