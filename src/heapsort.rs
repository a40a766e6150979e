//! A binary max-heap stored in a vector, and heapsort. Positions are
//! counted from one inside the heap logic: the parent of `c` is `c / 2`.

use crate::order::{elem_le, elem_lt, lemma_range_bound, lemma_range_of_whole, lemma_swap_multiset, lemma_total_order, sorted, sorted_range, total_order};
use vstd::multiset::Multiset;
use vstd::prelude::*;

verus! {

/// The element at heap position `c` (counted from one) does not come after
/// its parent's.
pub open spec fn child_ok<T: PartialOrd>(s: Seq<T>, c: int) -> bool {
    elem_le(s[c - 1], s[c / 2 - 1])
}

/// Every child among positions `1..=n` whose parent is at `k` or below is
/// in order with its parent.
pub open spec fn heap_from<T: PartialOrd>(s: Seq<T>, k: int, n: int) -> bool {
    forall|c: int| 2 <= c <= n && k <= c / 2 ==> #[trigger] child_ok(s, c)
}

/// Positions `1..=n` of `s` form a max-heap.
pub open spec fn heap_ordered<T: PartialOrd>(s: Seq<T>, n: int) -> bool {
    heap_from(s, 1, n)
}

/// Compares heap positions `i` and `j` (counted from one).
fn less<T: Ord>(data: &mut [T], i: usize, j: usize) -> (r: bool)
    requires
        total_order::<T>(),
        1 <= i <= old(data)@.len(),
        1 <= j <= old(data)@.len(),
    ensures
        final(data)@ == old(data)@,
        r == elem_lt(old(data)@[i - 1], old(data)@[j - 1]),
{
    data[i - 1] < data[j - 1]
}

/// Trades heap positions `i` and `j` (counted from one).
fn swap<T>(data: &mut [T], i: usize, j: usize)
    requires
        1 <= i <= old(data)@.len(),
        1 <= j <= old(data)@.len(),
    ensures
        final(data)@ == old(data)@.update(i - 1, old(data)@[j - 1]).update(j - 1, old(data)@[i - 1]),
        final(data)@.len() == old(data)@.len(),
        final(data)@.to_multiset() == old(data)@.to_multiset(),
{
    proof {
        lemma_swap_multiset(data@, i - 1, j - 1);
    }
    data.swap(i - 1, j - 1);
}

/// Moves the element at heap position `elem` down below any larger child
/// until positions `1..=bound` under `elem` form a heap again.
#[verifier::loop_isolation(false)]
#[verifier::rlimit(40)]
fn sink<T: Ord>(data: &mut [T], elem: usize, bound: usize)
    requires
        total_order::<T>(),
        1 <= elem,
        bound <= old(data)@.len(),
        forall|c: int| 2 <= c <= bound && elem <= c / 2 && c / 2 != elem ==> #[trigger] child_ok(old(data)@, c),
    ensures
        final(data)@.len() == old(data)@.len(),
        heap_from(final(data)@, elem as int, bound as int),
        final(data)@.to_multiset() == old(data)@.to_multiset(),
        forall|p: int| 0 <= p < old(data)@.len() && !(elem - 1 <= p < bound) ==> final(data)@[p] == old(data)@[p],
{
    proof {
        lemma_total_order::<T>();
    }
    let n = bound;
    let mut i = elem;
    let ghost d0 = data@;
    while i <= n / 2
        invariant
            data@.len() == d0.len(),
            elem <= i,
            forall|c: int| 2 <= c <= n && elem <= c / 2 && c / 2 != i ==> #[trigger] child_ok(data@, c),
            i > elem && 2 * i <= n ==> elem_le(data@[2 * i - 1], data@[i / 2 - 1]),
            i > elem && 2 * i + 1 <= n ==> elem_le(data@[2 * i], data@[i / 2 - 1]),
            data@.to_multiset() == d0.to_multiset(),
            forall|p: int| 0 <= p < d0.len() && !(elem - 1 <= p < n) ==> data@[p] == d0[p],
        decreases n - i,
    {
        let mut j = 2 * i;
        if j < n && less(data, j, j + 1) {
            j += 1;
        }
        if less(data, j, i) {
            proof {
                assert forall|c: int| 2 <= c <= n && elem <= c / 2 implies #[trigger] child_ok(data@, c) by {
                    if c / 2 == i {
                        assert(elem_le(data@[c - 1], data@[j - 1]));
                    }
                }
            }
            return;
        }
        let ghost before = data@;
        swap(data, i, j);
        proof {
            assert forall|c: int| 2 <= c <= n && elem <= c / 2 && c / 2 != j implies #[trigger] child_ok(data@, c) by {
                if c / 2 == i {
                    assert(elem_le(before[c - 1], before[j - 1]));
                } else if c == i {
                    assert(elem_le(before[j - 1], before[i / 2 - 1]));
                } else if c == j {
                } else if c / 2 == j {
                } else {
                    assert(child_ok(before, c));
                }
            }
            assert(j / 2 == i);
            if 2 * j <= n {
                assert((2 * j) / 2 == j);
                assert(child_ok(before, 2 * j));
            }
            if 2 * j + 1 <= n {
                assert((2 * j + 1) / 2 == j);
                assert(child_ok(before, 2 * j + 1));
            }
        }
        i = j;
    }
}

/// Moves the element at heap position `elem` up above any smaller parent
/// until the whole slice forms a heap again.
#[verifier::loop_isolation(false)]
#[verifier::rlimit(40)]
fn swim<T: Ord>(data: &mut [T], elem: usize)
    requires
        total_order::<T>(),
        1 <= elem <= old(data)@.len(),
        forall|c: int| 2 <= c <= old(data)@.len() && c != elem ==> #[trigger] child_ok(old(data)@, c),
        elem > 1 && 2 * elem <= old(data)@.len() ==> elem_le(old(data)@[2 * elem - 1], old(data)@[elem / 2 - 1]),
        elem > 1 && 2 * elem + 1 <= old(data)@.len() ==> elem_le(old(data)@[2 * elem as int], old(data)@[elem / 2 - 1]),
    ensures
        heap_ordered(final(data)@, final(data)@.len() as int),
        final(data)@.len() == old(data)@.len(),
        final(data)@.len() == old(data)@.len(),
        final(data)@.to_multiset() == old(data)@.to_multiset(),
{
    proof {
        lemma_total_order::<T>();
    }
    let n = data.len();
    let ghost d0 = data@;
    let mut i = elem;
    while i > 1 && less(data, i / 2, i)
        invariant
            n == data@.len(),
            1 <= i <= n,
            forall|c: int| 2 <= c <= n && c != i ==> #[trigger] child_ok(data@, c),
            i > 1 && 2 * i <= n ==> elem_le(data@[2 * i - 1], data@[i / 2 - 1]),
            i > 1 && 2 * i + 1 <= n ==> elem_le(data@[2 * i as int], data@[i / 2 - 1]),
            data@.to_multiset() == d0.to_multiset(),
        decreases i,
    {
        let ghost before = data@;
        let ghost k = i as int;
        let ghost pk = k / 2;
        swap(data, i / 2, i);
        proof {
            let sib = if k % 2 == 0 { k + 1 } else { k - 1 };
            assert(sib / 2 == pk);
            if sib <= n && sib >= 2 {
                assert(child_ok(before, sib));
            }
            if 2 * k <= n {
                assert((2 * k) / 2 == k);
            }
            if 2 * k + 1 <= n {
                assert((2 * k + 1) / 2 == k);
            }
            if pk > 1 {
                assert(child_ok(before, pk));
            }
            assert forall|c: int| 2 <= c <= n && c != pk implies #[trigger] child_ok(data@, c) by {
                if c == k {
                } else if c == sib {
                    assert(child_ok(before, sib));
                } else if c / 2 == k {
                } else if c / 2 == pk {
                } else {
                    assert(child_ok(before, c));
                }
            }
            if pk > 1 {
                assert((2 * pk) / 2 == pk);
                assert((2 * pk + 1) / 2 == pk);
            }
        }
        i /= 2;
    }
    proof {
        if i > 1 {
            assert(child_ok(data@, i as int));
        }
    }
}

/// Rearranges the whole slice into a heap, sinking every parent position
/// from the last one up to the root.
#[verifier::loop_isolation(false)]
fn heap_construction<T: Ord>(data: &mut [T])
    requires
        total_order::<T>(),
    ensures
        heap_ordered(final(data)@, final(data)@.len() as int),
        final(data)@.len() == old(data)@.len(),
        final(data)@.len() == old(data)@.len(),
        final(data)@.to_multiset() == old(data)@.to_multiset(),
{
    let n = data.len();
    let mut i = n / 2;
    while i >= 1
        invariant
            n == data@.len(),
            i <= n / 2,
            heap_from(data@, i + 1, n as int),
            data@.to_multiset() == old(data)@.to_multiset(),
        decreases i,
    {
        sink(data, i, n);
        i -= 1;
    }
}

/// The root of a heap does not come before any of its elements.
pub proof fn lemma_heap_root_max<T: PartialOrd>(s: Seq<T>, n: int, i: int)
    requires
        total_order::<T>(),
        heap_ordered(s, n),
        1 <= i <= n <= s.len(),
    ensures
        elem_le(s[i - 1], s[0]),
    decreases i,
{
    lemma_total_order::<T>();
    if i > 1 {
        assert(child_ok(s, i));
        lemma_heap_root_max(s, n, i / 2);
    }
}

/// `x` is held in `m` and no element of `m` comes after it.
pub open spec fn is_max_of<T: PartialOrd>(m: Multiset<T>, x: T) -> bool {
    m.contains(x) && forall|y: T| #[trigger] m.contains(y) ==> elem_le(y, x)
}

/// A max-priority queue.
pub struct Heap<T> {
    data: Vec<T>,
}

impl<T> View for Heap<T> {
    type V = Multiset<T>;

    /// The elements held.
    closed spec fn view(&self) -> Multiset<T> {
        self.data@.to_multiset()
    }
}

impl<T: Ord + Clone> Heap<T> {
    /// The element type is totally ordered and the elements form a heap.
    pub closed spec fn wf(&self) -> bool {
        total_order::<T>() && heap_ordered(self.data@, self.data@.len() as int)
    }

    /// An empty heap.
    pub fn new() -> (r: Self)
        requires
            total_order::<T>(),
        ensures
            r.wf(),
            r@ == Multiset::<T>::empty(),
    {
        let r = Heap { data: Vec::<T>::new() };
        proof {
            broadcast use vstd::seq_lib::group_to_multiset_ensures;
            assert(r@ =~= Multiset::<T>::empty());
        }
        r
    }

    /// A heap holding the elements of `data`.
    pub fn from_vec(data: Vec<T>) -> (r: Self)
        requires
            total_order::<T>(),
        ensures
            r.wf(),
            r@ == data@.to_multiset(),
    {
        let mut data = data;
        heap_construction(data.as_mut_slice());
        Heap { data: data }
    }

    /// Adds `elem`.
    pub fn add(&mut self, elem: T)
        requires
            old(self).wf(),
        ensures
            final(self).wf(),
            final(self)@ == old(self)@.insert(elem),
    {
        broadcast use vstd::seq_lib::group_to_multiset_ensures;

        let ghost before = self.data@;
        self.data.push(elem);
        let new_size = self.data.len();
        proof {
            assert forall|c: int| 2 <= c <= new_size && c != new_size implies #[trigger] child_ok(self.data@, c) by {
                assert(child_ok(before, c));
            }
        }
        swim(self.data.as_mut_slice(), new_size);
    }

    /// Takes out and returns a greatest element, or `None` when empty.
    pub fn del_max(&mut self) -> (r: Option<T>)
        requires
            old(self).wf(),
        ensures
            final(self).wf(),
            old(self)@.len() == 0 ==> r is None && final(self)@ == old(self)@,
            old(self)@.len() > 0 ==> (r matches Some(x) && is_max_of(old(self)@, x) && final(self)@ == old(self)@.remove(x)),
    {
        broadcast use vstd::seq_lib::group_to_multiset_ensures;

        match self.data.is_empty() {
            true => None,
            false => {
                let ghost d0 = self.data@;
                let n = self.data.len();
                proof {
                    assert forall|y: T| #[trigger] d0.to_multiset().contains(y) implies elem_le(y, d0[0]) by {
                        assert(d0.contains(y));
                        let q = choose|q: int| 0 <= q < d0.len() && d0[q] == y;
                        lemma_heap_root_max(d0, n as int, q + 1);
                    }
                }
                swap(self.data.as_mut_slice(), 1, n);
                let ghost d1 = self.data@;
                let max = self.data.remove(n - 1);
                proof {
                    assert forall|c: int| 2 <= c <= n - 1 && 1 <= c / 2 && c / 2 != 1 implies #[trigger] child_ok(self.data@, c) by {
                        assert(child_ok(d0, c));
                    }
                }
                sink(self.data.as_mut_slice(), 1, n - 1);
                Some(max)
            },
        }
    }

    /// A greatest element, or `None` when empty.
    pub fn max(&self) -> (r: Option<&T>)
        requires
            self.wf(),
        ensures
            self@.len() == 0 ==> r is None,
            self@.len() > 0 ==> (r matches Some(x) && is_max_of(self@, *x)),
    {
        broadcast use vstd::seq_lib::group_to_multiset_ensures;

        match self.data.is_empty() {
            true => None,
            false => {
                proof {
                    let d = self.data@;
                    assert forall|y: T| #[trigger] d.to_multiset().contains(y) implies elem_le(y, d[0]) by {
                        assert(d.contains(y));
                        let q = choose|q: int| 0 <= q < d.len() && d[q] == y;
                        lemma_heap_root_max(d, d.len() as int, q + 1);
                    }
                    assert(d.contains(d[0]));
                }
                Some(&self.data[0])
            },
        }
    }

    /// Whether the heap holds no element.
    pub fn is_empty(&self) -> (r: bool)
        ensures
            r == (self@.len() == 0),
    {
        broadcast use vstd::seq_lib::group_to_multiset_ensures;

        self.data.is_empty()
    }

    /// The number of elements held.
    pub fn size(&self) -> (r: usize)
        ensures
            r == self@.len(),
    {
        broadcast use vstd::seq_lib::group_to_multiset_ensures;

        self.data.len()
    }

    /// Draining step: the same as `del_max`.
    pub fn next(&mut self) -> (r: Option<T>)
        requires
            old(self).wf(),
        ensures
            final(self).wf(),
            old(self)@.len() == 0 ==> r is None && final(self)@ == old(self)@,
            old(self)@.len() > 0 ==> (r matches Some(x) && is_max_of(old(self)@, x) && final(self)@ == old(self)@.remove(x)),
    {
        self.del_max()
    }

    /// Sorts `data` in ascending order with heapsort.
    #[verifier::loop_isolation(false)]
    #[verifier::rlimit(40)]
    pub fn sort(data: &mut [T])
        requires
            total_order::<T>(),
        ensures
            sorted(final(data)@),
            final(data)@.len() == old(data)@.len(),
            final(data)@.to_multiset() == old(data)@.to_multiset(),
    {
        proof {
            lemma_total_order::<T>();
        }
        heap_construction(data);
        let len = data.len();
        let mut n = len;
        while n > 1
            invariant
                len == data@.len(),
                n <= len,
                len > 0 ==> n >= 1,
                heap_ordered(data@, n as int),
                sorted_range(data@, n as int, len as int),
                forall|p: int, q: int| 0 <= p < n <= q < len ==> elem_le(#[trigger] data@[p], #[trigger] data@[q]),
                data@.to_multiset() == old(data)@.to_multiset(),
            decreases n,
        {
            let ghost d0 = data@;
            proof {
                assert forall|p: int| 0 <= p < n implies elem_le(#[trigger] d0[p], d0[0]) by {
                    lemma_heap_root_max(d0, n as int, p + 1);
                }
            }
            swap(data, 1, n);
            n -= 1;
            let ghost d1 = data@;
            proof {
                assert forall|c: int| 2 <= c <= n && 1 <= c / 2 && c / 2 != 1 implies #[trigger] child_ok(d1, c) by {
                    assert(child_ok(d0, c));
                }
                assert forall|p: int, q: int| 0 <= p < n <= q < len implies elem_le(#[trigger] d1[p], #[trigger] d1[q]) by {
                    if q == n {
                        if p == 0 {
                            assert(elem_le(d0[n as int], d0[0]));
                        } else {
                            assert(elem_le(d0[p], d0[0]));
                        }
                    } else if p == 0 {
                        assert(elem_le(d0[n as int], d0[q]));
                    } else {
                        assert(elem_le(d0[p], d0[q]));
                    }
                }
            }
            sink(data, 1, n);
            let ghost d2 = data@;
            proof {
                lemma_range_of_whole(d1, d2, 0, n as int);
                assert forall|p: int, q: int| 0 <= p < n <= q < len implies elem_le(#[trigger] d2[p], #[trigger] d2[q]) by {
                    assert(d2[q] == d1[q]);
                    lemma_range_bound(d2, d1, 0, n as int, |x: T| elem_le(x, d1[q]));
                }
                assert forall|a: int, b: int| n <= a < b < len implies elem_le(#[trigger] d2[a], #[trigger] d2[b]) by {
                    assert(d2[a] == d1[a] && d2[b] == d1[b]);
                    if a > n {
                        assert(d1[a] == d0[a] && d1[b] == d0[b]);
                    } else {
                        assert(d1[b] == d0[b]);
                    }
                }
            }
        }
        proof {
            assert forall|a: int, b: int| 0 <= a < b < len implies elem_le(#[trigger] data@[a], #[trigger] data@[b]) by {
                if a < n {
                    assert(a == 0);
                }
            }
        }
    }
}

} // verus!
