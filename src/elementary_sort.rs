//! Elementary in-place sorts over slices: insertion, selection and Shell
//! sort, and the Knuth shuffle.

use crate::order::{elem_le, elem_lt, lemma_swap_multiset, lemma_total_order, sorted, sorted_range, total_order};
use rand::Rng;
use vstd::prelude::*;

verus! {

/// Sorts `data` in ascending order by moving each element left past the
/// larger ones before it.
#[verifier::loop_isolation(false)]
pub fn insertion_sort<T: PartialOrd>(data: &mut [T])
    requires
        total_order::<T>(),
    ensures
        sorted(final(data)@),
        final(data)@.len() == old(data)@.len(),
        final(data)@.to_multiset() == old(data)@.to_multiset(),
{
    proof {
        lemma_total_order::<T>();
    }
    let n = data.len();
    for i in 0..n
        invariant
            n == data@.len(),
            sorted_range(data@, 0, i as int),
            data@.to_multiset() == old(data)@.to_multiset(),
    {
        let mut j = i;
        while j > 0 && data[j] < data[j - 1]
            invariant
                n == data@.len(),
                0 <= j <= i < n,
                forall|a: int, b: int| 0 <= a < b <= i && a != j && b != j ==> elem_le(#[trigger] data@[a], #[trigger] data@[b]),
                forall|b: int| j < b <= i ==> elem_le(data@[j as int], #[trigger] data@[b]),
                data@.to_multiset() == old(data)@.to_multiset(),
            decreases j,
        {
            proof {
                lemma_swap_multiset(data@, j as int, j - 1);
            }
            data.swap(j, j - 1);
            j = j - 1;
        }
        proof {
            assert forall|a: int, b: int| 0 <= a < b <= i implies elem_le(#[trigger] data@[a], #[trigger] data@[b]) by {
                if b == j && a < j - 1 {
                    assert(elem_le(data@[a], data@[j - 1]));
                }
            }
        }
    }
}

/// The position of the first least element of `data` (zero when it is empty).
#[verifier::loop_isolation(false)]
pub fn min_index<T: PartialOrd>(data: &[T]) -> (r: usize)
    requires
        total_order::<T>(),
    ensures
        data@.len() == 0 ==> r == 0,
        data@.len() > 0 ==> r < data@.len(),
        forall|k: int| 0 <= k < data@.len() ==> elem_le(data@[r as int], #[trigger] data@[k]),
        forall|k: int| 0 <= k < r ==> elem_lt(data@[r as int], #[trigger] data@[k]),
{
    proof {
        lemma_total_order::<T>();
    }
    let mut min: usize = 0;
    for i in 0..data.len()
        invariant
            i <= data@.len(),
            i == 0 ==> min == 0,
            i > 0 ==> min < i,
            forall|k: int| 0 <= k < i ==> elem_le(data@[min as int], #[trigger] data@[k]),
            forall|k: int| 0 <= k < min ==> elem_lt(data@[min as int], #[trigger] data@[k]),
    {
        if data[i] < data[min] {
            min = i;
        }
    }
    min
}

/// Sorts a non-empty `data` in ascending order by bringing the least
/// remaining element to the front at each step; hands back the sorted slice.
#[verifier::loop_isolation(false)]
pub fn selection_sort<T: PartialOrd>(data: &mut [T]) -> (r: &[T])
    requires
        total_order::<T>(),
        old(data)@.len() > 0,
    ensures
        sorted(final(data)@),
        final(data)@.len() == old(data)@.len(),
        final(data)@.to_multiset() == old(data)@.to_multiset(),
        r@ == final(data)@,
{
    proof {
        lemma_total_order::<T>();
    }
    let n = data.len();
    for i in 0..n - 1
        invariant
            n == data@.len(),
            n > 0,
            sorted_range(data@, 0, i as int),
            forall|a: int, b: int| 0 <= a < i <= b < n ==> elem_le(#[trigger] data@[a], #[trigger] data@[b]),
            data@.to_multiset() == old(data)@.to_multiset(),
    {
        let min = min_index(&data[i..n]);
        let ghost before = data@;
        proof {
            lemma_swap_multiset(data@, i as int, i + min);
            assert forall|b: int| i <= b < n implies elem_le(before[i + min], #[trigger] before[b]) by {
                assert(before.subrange(i as int, n as int)[b - i] == before[b]);
            }
        }
        data.swap(i, i + min);
        proof {
            assert forall|a: int, b: int| 0 <= a < i + 1 <= b < n implies elem_le(#[trigger] data@[a], #[trigger] data@[b]) by {
                if b == i + min {
                    assert(data@[b] == before[i as int]);
                } else {
                    assert(data@[b] == before[b]);
                }
            }
        }
    }
    data
}

/// The gaps `1, 4, 13, 40, ...` that Shell sort steps through.
pub open spec fn is_gap(h: int) -> bool
    decreases h,
{
    if h <= 1 {
        h == 1
    } else {
        h % 3 == 1 && is_gap(h / 3)
    }
}

/// Sorts `data` in ascending order with Shell sort: insertion sorts over
/// shrinking gaps, the last of which is one.
#[verifier::loop_isolation(false)]
#[verifier::rlimit(40)]
pub fn shell_sort<T: PartialOrd>(data: &mut [T])
    requires
        total_order::<T>(),
    ensures
        sorted(final(data)@),
        final(data)@.len() == old(data)@.len(),
        final(data)@.to_multiset() == old(data)@.to_multiset(),
{
    proof {
        lemma_total_order::<T>();
    }
    let n = data.len();
    let mut h: usize = 1;
    while h < n / 3
        invariant
            1 <= h <= n || h == 1,
            is_gap(h as int),
        decreases n - h,
    {
        h = 3 * h + 1;
        assert(h as int / 3 == (h - 1) as int / 3);
    }
    while h >= 1
        invariant
            n == data@.len(),
            h == 0 || is_gap(h as int),
            h == 0 ==> sorted(data@),
            data@.to_multiset() == old(data)@.to_multiset(),
        decreases h,
    {
        for i in 0..n
            invariant
                n == data@.len(),
                h >= 1,
                h == 1 ==> sorted_range(data@, 0, i as int),
                data@.to_multiset() == old(data)@.to_multiset(),
        {
            let mut j = i;
            while j >= h && data[j - h] > data[j]
                invariant
                    n == data@.len(),
                    h >= 1,
                    0 <= j <= i < n,
                    h == 1 ==> forall|a: int, b: int| 0 <= a < b <= i && a != j && b != j ==> elem_le(#[trigger] data@[a], #[trigger] data@[b]),
                    h == 1 ==> forall|b: int| j < b <= i ==> elem_le(data@[j as int], #[trigger] data@[b]),
                    data@.to_multiset() == old(data)@.to_multiset(),
                decreases j,
            {
                proof {
                    lemma_swap_multiset(data@, j as int, j - h);
                }
                data.swap(j, j - h);
                j -= h;
            }
            proof {
                if h == 1 {
                    assert forall|a: int, b: int| 0 <= a < b <= i implies elem_le(#[trigger] data@[a], #[trigger] data@[b]) by {
                        if b == j && a < j - 1 {
                            assert(elem_le(data@[a], data@[j - 1]));
                        }
                    }
                }
            }
        }
        h /= 3;
    }
}

/// Relies on `rand::Rng::gen_range` over `rand::thread_rng()`: a number
/// drawn from `0..upper`; it panics only on an empty range.
#[verifier::external_body]
fn random_below(upper: usize) -> (r: usize)
    requires
        upper > 0,
    ensures
        r < upper,
{
    rand::thread_rng().gen_range(0..upper)
}

/// Rearranges `data` in a random order: each position in turn trades its
/// element with one drawn from the positions up to it.
pub fn knuth_shuffling<T>(data: &mut [T])
    ensures
        final(data)@.len() == old(data)@.len(),
        final(data)@.to_multiset() == old(data)@.to_multiset(),
{
    let n = data.len();
    for i in 0..n
        invariant
            n == data@.len(),
            data@.to_multiset() == old(data)@.to_multiset(),
    {
        let rand_i = random_below(i + 1);
        proof {
            lemma_swap_multiset(data@, i as int, rand_i as int);
        }
        data.swap(i, rand_i);
    }
}

} // verus!
