//! Bottom-up merge sort: sorted runs of width 1, 2, 4, ... are merged
//! pairwise until one run covers the slice.

use super::utils::{merge, to_vec};
use crate::order::{elem_le, exact_clone, lemma_multiset_from_range, lemma_total_order, sorted, sorted_range, total_order};
use vstd::prelude::*;

verus! {

/// The `m`-th run of width `w` of `s` (cut short at the end of `s`) is sorted.
pub open spec fn run_sorted<T: PartialOrd>(s: Seq<T>, w: int, m: int) -> bool {
    sorted_range(s, m * w, if m * w + w < s.len() { m * w + w } else { s.len() as int })
}

/// Sorts `data` in ascending order, equal elements keeping their order.
#[verifier::loop_isolation(false)]
#[verifier::rlimit(40)]
pub fn merge_sort<T: Ord + Clone>(data: &mut [T])
    requires
        total_order::<T>(),
        exact_clone::<T>(),
    ensures
        sorted(final(data)@),
        final(data)@.len() == old(data)@.len(),
        final(data)@.to_multiset() == old(data)@.to_multiset(),
{
    proof {
        lemma_total_order::<T>();
    }
    let mut aux = to_vec(data);
    let n = data.len();
    let mut sz: usize = 1;
    while sz < n
        invariant
            n == data@.len(),
            aux@.len() == n,
            1 <= sz,
            forall|m: int| 0 <= m ==> #[trigger] run_sorted(data@, sz as int, m),
            data@.to_multiset() == old(data)@.to_multiset(),
        decreases n - sz,
    {
        let mut low: usize = 0;
        let ghost mut m0: int = 0;
        let ghost w = sz as int;
        while low < n - sz
            invariant
                n == data@.len(),
                aux@.len() == n,
                sz as int == w,
                1 <= w < n,
                0 <= m0,
                low <= n,
                low < n ==> low as int == m0 * (2 * w),
                forall|m: int| 0 <= m < m0 ==> #[trigger] run_sorted(data@, 2 * w, m),
                low < n ==> forall|m: int| 2 * m0 <= m ==> #[trigger] run_sorted(data@, w, m),
                low == n ==> forall|m: int| m0 <= m ==> #[trigger] run_sorted(data@, 2 * w, m),
                data@.to_multiset() == old(data)@.to_multiset(),
            decreases n - low,
        {
            let mid = low + sz - 1;
            let hi = if sz < n - 1 - mid { mid + sz } else { n - 1 };
            let ghost before = data@;
            proof {
                assert((2 * m0) * w == low) by (nonlinear_arith)
                    requires low as int == m0 * (2 * w);
                assert((2 * m0 + 1) * w == low + w) by (nonlinear_arith)
                    requires low as int == m0 * (2 * w);
                assert(run_sorted(before, w, 2 * m0));
                assert(run_sorted(before, w, 2 * m0 + 1));
            }
            merge(data, aux.as_mut_slice(), low, mid, hi);
            proof {
                lemma_multiset_from_range(data@, before, low as int, hi + 1);
                assert forall|m: int| 0 <= m < m0 + 1 implies #[trigger] run_sorted(data@, 2 * w, m) by {
                    if m < m0 {
                        assert(m * (2 * w) + 2 * w <= low) by (nonlinear_arith)
                            requires low as int == m0 * (2 * w), m < m0, w >= 1;
                        assert(0 <= m * (2 * w)) by (nonlinear_arith)
                            requires 0 <= m, w >= 1;
                        assert(run_sorted(before, 2 * w, m));
                    } else {
                        assert(m * (2 * w) == low);
                    }
                }
                if hi < n - 1 {
                    assert forall|m: int| 2 * (m0 + 1) <= m implies #[trigger] run_sorted(data@, w, m) by {
                        assert(m * w >= low + 2 * w) by (nonlinear_arith)
                            requires low as int == m0 * (2 * w), 2 * (m0 + 1) <= m, w >= 1;
                        assert(run_sorted(before, w, m));
                    }
                    assert((m0 + 1) * (2 * w) == m0 * (2 * w) + 2 * w) by (nonlinear_arith);
                } else {
                    assert forall|m: int| m0 + 1 <= m implies #[trigger] run_sorted(data@, 2 * w, m) by {
                        assert(m * (2 * w) >= low + 2 * w) by (nonlinear_arith)
                            requires low as int == m0 * (2 * w), m0 + 1 <= m, w >= 1;
                    }
                }
            }
            low = hi + 1;
            proof {
                m0 = m0 + 1;
            }
        }
        proof {
            if low < n {
                assert forall|m: int| 0 <= m implies #[trigger] run_sorted(data@, 2 * w, m) by {
                    if m == m0 {
                        assert(2 * m0 * w == low) by (nonlinear_arith)
                            requires low as int == m0 * (2 * w);
                        assert(run_sorted(data@, w, 2 * m0));
                    } else if m > m0 {
                        assert(m * (2 * w) >= low + 2 * w) by (nonlinear_arith)
                            requires low as int == m0 * (2 * w), m > m0, w >= 1;
                    }
                }
            }
        }
        if sz >= n - sz {
            proof {
                assert forall|m: int| 0 <= m implies #[trigger] run_sorted(data@, n as int, m) by {
                    assert(run_sorted(data@, 2 * w, 0));
                    if m >= 1 {
                        assert(m * n >= n) by (nonlinear_arith)
                            requires m >= 1, n >= 1;
                    }
                }
            }
            sz = n;
        } else {
            sz = sz + sz;
        }
    }
    proof {
        assert(run_sorted(data@, sz as int, 0));
    }
}

} // verus!
