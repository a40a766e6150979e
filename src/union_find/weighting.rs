//! Weighted strategy with path halving: a union hangs the lighter tree
//! under the heavier one, and every walk to a root points each visited
//! object at its grandparent.

use super::quickunion::{forest, lemma_hang_forest, lemma_hang_root, lemma_root_is_root, raise, raised_bound, root_of};
use vstd::prelude::*;

verus! {

/// Parents and tree weights of objects `0..n`, with the ranks that bound
/// every walk to a root.
pub struct UT {
    pub id: Vec<u32>,
    pub weights: Vec<u32>,
    pub rank: Ghost<Seq<nat>>,
    pub bound: Ghost<nat>,
}

impl UT {
    /// The parent links form a forest and every object has a weight.
    pub open spec fn wf(&self) -> bool {
        &&& forest(self.id@, self.rank@, self.bound@)
        &&& self.weights@.len() == self.id@.len()
    }

    /// The root of the tree holding `i`.
    pub open spec fn root_spec(&self, i: int) -> int {
        root_of(self.id@, self.rank@, self.bound@, i)
    }

    /// Objects `i` and `j` lie in one tree.
    pub open spec fn same(&self, i: int, j: int) -> bool {
        self.root_spec(i) == self.root_spec(j)
    }

    /// `n` objects, each the root of a tree of its own, of weight one.
    pub fn new(n: u32) -> (r: UT)
        ensures
            r.wf(),
            r.id@.len() == n,
            forall|i: int| 0 <= i < n ==> r.id@[i] == i && r.weights@[i] == 1,
            forall|i: int, j: int| 0 <= i < n && 0 <= j < n ==> (r.same(i, j) <==> i == j),
    {
        let mut r: Vec<u32> = Vec::with_capacity(n as usize);
        let mut w: Vec<u32> = Vec::with_capacity(n as usize);
        let mut i: u32 = 0;
        while i < n
            invariant
                i <= n,
                r@.len() == i,
                w@.len() == i,
                forall|k: int| 0 <= k < i ==> r@[k] == k && w@[k] == 1,
            decreases n - i,
        {
            r.push(i);
            w.push(1);
            i += 1;
        }
        let ut = UT { id: r, weights: w, rank: Ghost(Seq::new(n as nat, |k: int| 0nat)), bound: Ghost(1nat) };
        assert forall|i: int| 0 <= i < n implies #[trigger] ut.root_spec(i) == i by {
            assert(ut.id@[i] == i);
        }
        ut
    }

    /// The root of the tree holding `i`; on the way every visited object is
    /// pointed at its grandparent, which leaves every root as it was.
    #[verifier::rlimit(40)]
    pub fn root(&mut self, i: usize) -> (r: usize)
        requires
            old(self).wf(),
            i < old(self).id@.len(),
        ensures
            final(self).wf(),
            final(self).id@.len() == old(self).id@.len(),
            final(self).weights@ == old(self).weights@,
            forall|j: int| 0 <= j < old(self).id@.len() ==> #[trigger] final(self).root_spec(j) == old(self).root_spec(j),
            r as int == old(self).root_spec(i as int),
            r < final(self).id@.len(),
            final(self).id@[r as int] == r,
    {
        let mut i = i;
        let ghost start = i as int;
        proof {
            lemma_root_is_root(self.id@, self.rank@, self.bound@, start);
        }
        while self.id[i] as usize != i
            invariant
                self.wf(),
                self.id@.len() == old(self).id@.len(),
                self.rank@ == old(self).rank@,
                self.bound@ == old(self).bound@,
                self.weights@ == old(self).weights@,
                i < self.id@.len(),
                forall|j: int| 0 <= j < old(self).id@.len() ==> #[trigger] self.root_spec(j) == old(self).root_spec(j),
                self.root_spec(i as int) == old(self).root_spec(start),
            decreases self.bound@ - self.rank@[i as int],
        {
            let ghost before = self.id@;
            let ghost prev = *self;
            let parent = self.id[i] as usize;
            let grandparent = self.id[parent];
            self.id.set(i, grandparent);
            proof {
                lemma_halve_forest(before, self.rank@, self.bound@, i as int);
                assert forall|j: int| 0 <= j < old(self).id@.len() implies
                    #[trigger] self.root_spec(j) == old(self).root_spec(j) by {
                    lemma_halve_root(before, self.rank@, self.bound@, i as int, j);
                    assert(prev.root_spec(j) == old(self).root_spec(j));
                }
                lemma_halve_root(before, self.rank@, self.bound@, i as int, i as int);
                assert(root_of(before, self.rank@, self.bound@, i as int) == root_of(before, self.rank@, self.bound@, parent as int));
            }
            i = self.id[i] as usize;
        }
        proof {
            lemma_root_is_root(self.id@, self.rank@, self.bound@, i as int);
        }
        i
    }

    /// Whether `p` and `q` lie in one tree.
    pub fn connected(&mut self, p: usize, q: usize) -> (r: bool)
        requires
            old(self).wf(),
            p < old(self).id@.len(),
            q < old(self).id@.len(),
        ensures
            final(self).wf(),
            final(self).id@.len() == old(self).id@.len(),
            forall|i: int, j: int| 0 <= i < old(self).id@.len() && 0 <= j < old(self).id@.len() ==>
                (final(self).same(i, j) <==> old(self).same(i, j)),
            r == old(self).same(p as int, q as int),
    {
        let a = self.root(p);
        let b = self.root(q);
        a == b
    }

    /// Joins the trees of `p` and `q`, hanging the root of the lighter tree
    /// under the root of the heavier one (`p`'s under `q`'s on a tie); the
    /// heavier root takes the sum of both weights, clamped to the `u32` range.
    #[verifier::rlimit(40)]
    pub fn union(&mut self, p: usize, q: usize)
        requires
            old(self).wf(),
            p < old(self).id@.len(),
            q < old(self).id@.len(),
        ensures
            final(self).wf(),
            final(self).id@.len() == old(self).id@.len(),
            forall|i: int, j: int| 0 <= i < old(self).id@.len() && 0 <= j < old(self).id@.len() ==>
                (final(self).same(i, j) <==> joined(*old(self), p as int, q as int, i, j)),
    {
        let pi = self.root(p);
        let qi = self.root(q);
        let ghost mid = *self;
        proof {
            lemma_root_is_root(self.id@, self.rank@, self.bound@, p as int);
            lemma_root_is_root(self.id@, self.rank@, self.bound@, q as int);
        }
        if pi == qi {
            return;
        }
        proof {
            assert(mid.root_spec(p as int) == pi as int);
            assert(mid.root_spec(q as int) == qi as int);
        }
        let heavier_p = self.weights[pi] > self.weights[qi];
        let a = if heavier_p { qi } else { pi };
        let b = if heavier_p { pi } else { qi };
        let ghost old_id = self.id@;
        let ghost old_rank = self.rank@;
        let ghost old_bound = self.bound@;
        proof {
            lemma_hang_forest(old_id, old_rank, old_bound, a as int, b as int);
            self.rank = Ghost(raise(old_rank, a as int, b as int));
            self.bound = Ghost(raised_bound(old_rank, old_bound, a as int, b as int));
        }
        self.id.set(a, b as u32);
        let wa = self.weights[a];
        let wb = self.weights[b];
        self.weights.set(b, wb.saturating_add(wa));
        proof {
            assert forall|i: int| 0 <= i < old_id.len() implies #[trigger] self.root_spec(i) == (
                if mid.root_spec(i) == a as int { b as int } else { mid.root_spec(i) }) by {
                lemma_hang_root(old_id, old_rank, old_bound, self.id@, self.rank@, self.bound@, a as int, b as int, i);
            }
        }
    }
}

/// After joining the components of `p` and `q`, objects `i` and `j` share a
/// component when they did before, or one was with `p` and the other with `q`.
pub open spec fn joined(before: UT, p: int, q: int, i: int, j: int) -> bool {
    ||| before.same(i, j)
    ||| (before.same(i, p) && before.same(j, q))
    ||| (before.same(i, q) && before.same(j, p))
}

/// Pointing `i` at its grandparent keeps the parent links a forest.
pub proof fn lemma_halve_forest(id: Seq<u32>, rank: Seq<nat>, bound: nat, i: int)
    requires
        forest(id, rank, bound),
        0 <= i < id.len(),
    ensures
        forest(id.update(i, id[id[i] as int]), rank, bound),
{
    let id2 = id.update(i, id[id[i] as int]);
    assert forall|k: int| 0 <= k < id2.len() && id2[k] as int != k implies #[trigger] rank[k] < rank[id2[k] as int] by {
        if k == i {
            let pa = id[i] as int;
            assert(id[pa] < id.len());
        }
    }
    assert forall|k: int| 0 <= k < id2.len() implies #[trigger] id2[k] < id2.len() by {
        let pa = id[i] as int;
        assert(id[pa] < id.len());
    }
}

/// Pointing `i` at its grandparent leaves the root of every object as it was.
pub proof fn lemma_halve_root(id: Seq<u32>, rank: Seq<nat>, bound: nat, i: int, j: int)
    requires
        forest(id, rank, bound),
        0 <= i < id.len(),
        0 <= j < id.len(),
    ensures
        root_of(id.update(i, id[id[i] as int]), rank, bound, j) == root_of(id, rank, bound, j),
    decreases bound - rank[j],
{
    let id2 = id.update(i, id[id[i] as int]);
    lemma_halve_forest(id, rank, bound, i);
    let pa = id[i] as int;
    if pa == i || id[pa] as int == pa {
        assert(id2 =~= id);
    } else if j == i {
        let gp = id[pa] as int;
        lemma_halve_root(id, rank, bound, i, gp);
        assert(id2[i] as int == gp);
        assert(root_of(id2, rank, bound, i) == root_of(id2, rank, bound, gp));
        assert(root_of(id, rank, bound, pa) == root_of(id, rank, bound, gp));
        assert(root_of(id, rank, bound, i) == root_of(id, rank, bound, pa));
    } else if id[j] as int != j {
        lemma_halve_root(id, rank, bound, i, id[j] as int);
        assert(id2[j] == id[j]);
    } else {
        assert(id2[j] == id[j]);
    }
}

} // verus!
