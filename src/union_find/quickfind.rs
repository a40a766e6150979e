//! Eager strategy: two objects are connected exactly when they carry the
//! same component id, so `connected` is one comparison and `union` relabels
//! a whole component.

use vstd::prelude::*;

verus! {

/// Component ids, one per object.
pub struct UT {
    pub id: Vec<u32>,
}

impl UT {
    /// Objects `i` and `j` lie in one component.
    pub open spec fn same(&self, i: int, j: int) -> bool {
        self.id@[i] == self.id@[j]
    }

    /// `n` objects, each in a component of its own.
    pub fn new(n: u32) -> (r: UT)
        ensures
            r.id@.len() == n,
            forall|i: int| 0 <= i < n ==> r.id@[i] == i,
            forall|i: int, j: int| 0 <= i < n && 0 <= j < n ==> (r.same(i, j) <==> i == j),
    {
        let mut r: Vec<u32> = Vec::with_capacity(n as usize);
        let mut i: u32 = 0;
        while i < n
            invariant
                i <= n,
                r@.len() == i,
                forall|k: int| 0 <= k < i ==> r@[k] == k,
            decreases n - i,
        {
            r.push(i);
            i += 1;
        }
        UT { id: r }
    }

    /// Whether `p` and `q` lie in one component.
    pub fn connected(&self, p: usize, q: usize) -> (r: bool)
        requires
            p < self.id@.len(),
            q < self.id@.len(),
        ensures
            r == self.same(p as int, q as int),
    {
        self.id[p] == self.id[q]
    }

    /// Joins the components of `p` and `q`: every object labelled like `p`
    /// takes the label of `q`.
    pub fn union(&mut self, p: usize, q: usize)
        requires
            p < old(self).id@.len(),
            q < old(self).id@.len(),
        ensures
            final(self).id@.len() == old(self).id@.len(),
            forall|i: int| 0 <= i < old(self).id@.len() ==> final(self).id@[i] == (
                if old(self).id@[i] == old(self).id@[p as int] { old(self).id@[q as int] } else { old(self).id@[i] }),
            forall|i: int, j: int| 0 <= i < old(self).id@.len() && 0 <= j < old(self).id@.len() ==>
                (final(self).same(i, j) <==> joined(*old(self), p as int, q as int, i, j)),
    {
        let pid = self.id[p];
        let qid = self.id[q];
        let n = self.id.len();
        let mut i: usize = 0;
        while i < n
            invariant
                n == self.id@.len(),
                n == old(self).id@.len(),
                i <= n,
                pid == old(self).id@[p as int],
                qid == old(self).id@[q as int],
                forall|k: int| 0 <= k < i ==> self.id@[k] == (
                    if old(self).id@[k] == pid { qid } else { old(self).id@[k] }),
                forall|k: int| i <= k < n ==> self.id@[k] == old(self).id@[k],
            decreases n - i,
        {
            if self.id[i] == pid {
                self.id.set(i, qid);
            }
            i += 1;
        }
    }
}

/// After joining the components of `p` and `q`, objects `i` and `j` share a
/// component when they did before, or one was with `p` and the other with `q`.
pub open spec fn joined(before: UT, p: int, q: int, i: int, j: int) -> bool {
    ||| before.same(i, j)
    ||| (before.same(i, p) && before.same(j, q))
    ||| (before.same(i, q) && before.same(j, p))
}

} // verus!
