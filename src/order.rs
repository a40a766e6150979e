//! Total orders on element types, sortedness, and the slice operations the
//! sorting routines are built from.

use core::cmp::Ordering;
use vstd::laws_cmp::obeys_partial_cmp_spec_properties;
use vstd::laws_eq::{obeys_concrete_eq, obeys_eq_spec_properties};
use vstd::pervasive::strictly_cloned;
use vstd::prelude::*;
use vstd::std_specs::cmp::PartialOrdSpec;

verus! {

/// `partial_cmp` on `T` is a total order whose equality is identity.
pub open spec fn total_order<T: PartialOrd>() -> bool {
    &&& T::obeys_partial_cmp_spec()
    &&& obeys_partial_cmp_spec_properties::<T>()
    &&& obeys_concrete_eq::<T>()
    &&& forall|a: T, b: T| #[trigger] a.partial_cmp_spec(&b) is Some
}

/// `clone` on `T` hands back a value equal to its source.
pub open spec fn exact_clone<T: Clone>() -> bool {
    forall|a: T, b: T| #[trigger] strictly_cloned(a, b) ==> a == b
}

/// `a` comes strictly before `b`.
pub open spec fn elem_lt<T: PartialOrd>(a: T, b: T) -> bool {
    a.partial_cmp_spec(&b) == Some(Ordering::Less)
}

/// `a` does not come after `b`.
pub open spec fn elem_le<T: PartialOrd>(a: T, b: T) -> bool {
    !elem_lt(b, a)
}

/// The elements of `s` in positions `lo..hi` are in ascending order.
pub open spec fn sorted_range<T: PartialOrd>(s: Seq<T>, lo: int, hi: int) -> bool {
    forall|a: int, b: int| lo <= a < b < hi ==> elem_le(#[trigger] s[a], #[trigger] s[b])
}

/// The whole of `s` is in ascending order.
pub open spec fn sorted<T: PartialOrd>(s: Seq<T>) -> bool {
    sorted_range(s, 0, s.len() as int)
}

/// The facts about `partial_cmp_spec` that a total order provides.
pub proof fn lemma_total_order<T: PartialOrd>()
    requires
        total_order::<T>(),
    ensures
        T::obeys_partial_cmp_spec(),
        forall|a: T, b: T| #[trigger] a.partial_cmp_spec(&b) == Some(Ordering::Greater) <==> elem_lt(b, a),
        forall|a: T, b: T| #[trigger] a.partial_cmp_spec(&b) == Some(Ordering::Equal) <==> a == b,
        forall|a: T, b: T| #[trigger] elem_lt(a, b) ==> a != b && !elem_lt(b, a),
        forall|a: T, b: T| !elem_lt(a, b) && !elem_lt(b, a) ==> #[trigger] a.partial_cmp_spec(&b) == Some(Ordering::Equal),
        forall|a: T, b: T, c: T| #[trigger] elem_lt(a, b) && #[trigger] elem_lt(b, c) ==> elem_lt(a, c),
        forall|a: T, b: T, c: T| #[trigger] elem_le(a, b) && #[trigger] elem_le(b, c) ==> elem_le(a, c),
        forall|a: T, b: T, c: T| #[trigger] elem_le(a, b) && #[trigger] elem_lt(b, c) ==> elem_lt(a, c),
        forall|a: T, b: T, c: T| #[trigger] elem_lt(a, b) && #[trigger] elem_le(b, c) ==> elem_lt(a, c),
{
    reveal(obeys_partial_cmp_spec_properties);
    reveal(obeys_eq_spec_properties);
    reveal(obeys_concrete_eq);
    assert forall|a: T, b: T| !elem_lt(a, b) && !elem_lt(b, a) implies #[trigger] a.partial_cmp_spec(&b) == Some(Ordering::Equal) by {
        assert(a.partial_cmp_spec(&b) is Some);
        if a.partial_cmp_spec(&b) == Some(Ordering::Greater) {
            assert(elem_lt(b, a));
        }
    }
    assert forall|a: T, b: T, c: T| #[trigger] elem_le(a, b) && #[trigger] elem_le(b, c) implies elem_le(a, c) by {
        if elem_lt(c, a) {
            if !elem_lt(b, a) && !elem_lt(a, b) {
                assert(a.partial_cmp_spec(&b) == Some(Ordering::Equal));
            } else if !elem_lt(c, b) && !elem_lt(b, c) {
                assert(b.partial_cmp_spec(&c) == Some(Ordering::Equal));
            } else {
                assert(elem_lt(a, b) || elem_lt(b, a));
            }
        }
    }
    assert forall|a: T, b: T, c: T| #[trigger] elem_le(a, b) && #[trigger] elem_lt(b, c) implies elem_lt(a, c) by {
        if !elem_lt(a, b) {
            assert(a.partial_cmp_spec(&b) == Some(Ordering::Equal));
        }
    }
    assert forall|a: T, b: T, c: T| #[trigger] elem_lt(a, b) && #[trigger] elem_le(b, c) implies elem_lt(a, c) by {
        if !elem_lt(b, c) {
            assert(b.partial_cmp_spec(&c) == Some(Ordering::Equal));
        }
    }
}

/// Relies on `<[T]>::swap`: the two positions trade their elements, and the
/// call panics only when a position is out of bounds.
pub assume_specification<Item>[ <[Item]>::swap ](items: &mut [Item], a: usize, b: usize)
    requires
        a < old(items)@.len(),
        b < old(items)@.len(),
    ensures
        final(items)@ == old(items)@.update(a as int, old(items)@[b as int]).update(b as int, old(items)@[a as int]),
;

/// Trading two elements keeps the multiset of elements.
pub proof fn lemma_swap_multiset<T>(s: Seq<T>, a: int, b: int)
    requires
        0 <= a < s.len(),
        0 <= b < s.len(),
    ensures
        s.update(a, s[b]).update(b, s[a]).to_multiset() == s.to_multiset(),
{
    broadcast use vstd::seq_lib::group_to_multiset_ensures;
    let t = s.update(a, s[b]);
    vstd::seq_lib::to_multiset_update(s, a, s[b]);
    vstd::seq_lib::to_multiset_update(t, b, s[a]);
    if a == b {
        assert(t.update(b, s[a]) =~= s);
    } else {
        assert(t.update(b, s[a]).to_multiset() =~= s.to_multiset());
    }
}

/// The elements of `s[lo..hi]` are those of `s[lo..mid]` together with
/// those of `s[mid..hi]`.
pub proof fn lemma_split_multiset<T>(s: Seq<T>, lo: int, mid: int, hi: int)
    requires
        0 <= lo <= mid <= hi <= s.len(),
    ensures
        s.subrange(lo, hi).to_multiset() == s.subrange(lo, mid).to_multiset().add(s.subrange(mid, hi).to_multiset()),
{
    vstd::seq_lib::lemma_multiset_commutative(s.subrange(lo, mid), s.subrange(mid, hi));
    assert(s.subrange(lo, mid) + s.subrange(mid, hi) =~= s.subrange(lo, hi));
}

/// Two sequences that agree outside `lo..hi`, and whose parts in `lo..hi`
/// hold the same elements, hold the same elements overall.
pub proof fn lemma_multiset_from_range<T>(s: Seq<T>, t: Seq<T>, lo: int, hi: int)
    requires
        0 <= lo <= hi <= s.len(),
        s.len() == t.len(),
        s.subrange(lo, hi).to_multiset() == t.subrange(lo, hi).to_multiset(),
        forall|p: int| 0 <= p < s.len() && !(lo <= p < hi) ==> s[p] == t[p],
    ensures
        s.to_multiset() == t.to_multiset(),
{
    lemma_split_multiset(s, 0, lo, s.len() as int);
    lemma_split_multiset(s, lo, hi, s.len() as int);
    lemma_split_multiset(t, 0, lo, t.len() as int);
    lemma_split_multiset(t, lo, hi, t.len() as int);
    assert(s.subrange(0, lo) =~= t.subrange(0, lo));
    assert(s.subrange(hi, s.len() as int) =~= t.subrange(hi, t.len() as int));
    assert(s.subrange(0, s.len() as int) =~= s);
    assert(t.subrange(0, t.len() as int) =~= t);
}

/// A property of every element of `t[lo..hi]` holds of every element of a
/// range of `s` with the same elements.
pub proof fn lemma_range_bound<T>(s: Seq<T>, t: Seq<T>, lo: int, hi: int, p: spec_fn(T) -> bool)
    requires
        0 <= lo <= hi <= s.len(),
        hi <= t.len(),
        s.subrange(lo, hi).to_multiset() == t.subrange(lo, hi).to_multiset(),
        forall|q: int| lo <= q < hi ==> p(#[trigger] t[q]),
    ensures
        forall|q: int| lo <= q < hi ==> p(#[trigger] s[q]),
{
    broadcast use vstd::seq_lib::group_to_multiset_ensures;

    assert forall|q: int| lo <= q < hi implies p(#[trigger] s[q]) by {
        let x = s[q];
        assert(s.subrange(lo, hi)[q - lo] == x);
        assert(s.subrange(lo, hi).contains(x));
        assert(t.subrange(lo, hi).to_multiset().count(x) > 0);
        assert(t.subrange(lo, hi).contains(x));
        let r = choose|r: int| 0 <= r < hi - lo && t.subrange(lo, hi)[r] == x;
        assert(t[lo + r] == x);
    }
}

/// Two sequences that agree outside `lo..hi` and hold the same elements
/// overall hold the same elements inside `lo..hi`.
pub proof fn lemma_range_of_whole<T>(s: Seq<T>, t: Seq<T>, lo: int, hi: int)
    requires
        0 <= lo <= hi <= s.len(),
        s.len() == t.len(),
        s.to_multiset() == t.to_multiset(),
        forall|p: int| 0 <= p < s.len() && !(lo <= p < hi) ==> s[p] == t[p],
    ensures
        t.subrange(lo, hi).to_multiset() == s.subrange(lo, hi).to_multiset(),
{
    lemma_split_multiset(s, 0, lo, s.len() as int);
    lemma_split_multiset(s, lo, hi, s.len() as int);
    lemma_split_multiset(t, 0, lo, t.len() as int);
    lemma_split_multiset(t, lo, hi, t.len() as int);
    assert(s.subrange(0, lo) =~= t.subrange(0, lo));
    assert(s.subrange(hi, s.len() as int) =~= t.subrange(hi, t.len() as int));
    assert(s.subrange(0, s.len() as int) =~= s);
    assert(t.subrange(0, t.len() as int) =~= t);
    let a = s.subrange(0, lo).to_multiset();
    let b = s.subrange(hi, s.len() as int).to_multiset();
    assert(s.subrange(lo, hi).to_multiset() =~= s.to_multiset().sub(a).sub(b)) by {
        assert(s.to_multiset() == a.add(s.subrange(lo, hi).to_multiset().add(b)));
    }
    assert(t.subrange(lo, hi).to_multiset() =~= t.to_multiset().sub(a).sub(b)) by {
        assert(t.to_multiset() == a.add(t.subrange(lo, hi).to_multiset().add(b)));
    }
}

} // verus!
