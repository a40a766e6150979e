//! Lazy strategy: every object points at a parent, the objects form trees,
//! and two objects are connected when their trees have the same root.

use vstd::prelude::*;

verus! {

/// The root reached from `i` by following parents. `rank` grows strictly
/// from child to parent and stays under `bound`, which bounds the walk.
pub open spec fn root_of(id: Seq<u32>, rank: Seq<nat>, bound: nat, i: int) -> int
    decreases bound - rank[i],
{
    if 0 <= i < id.len() && id[i] as int != i && 0 <= id[i] < id.len() && i < rank.len() && id[i] < rank.len()
        && rank[i] < rank[id[i] as int] && rank[id[i] as int] < bound {
        root_of(id, rank, bound, id[i] as int)
    } else {
        i
    }
}

/// Parent links over `0..len` whose ranks grow towards the roots.
pub open spec fn forest(id: Seq<u32>, rank: Seq<nat>, bound: nat) -> bool {
    &&& id.len() <= u32::MAX as int + 1
    &&& rank.len() == id.len()
    &&& forall|i: int| 0 <= i < id.len() ==> #[trigger] id[i] < id.len()
    &&& forall|i: int| 0 <= i < id.len() && id[i] as int != i ==> #[trigger] rank[i] < rank[id[i] as int]
    &&& forall|i: int| 0 <= i < id.len() ==> #[trigger] rank[i] < bound
}

/// In a forest, the root reached from an object is an object that is its
/// own parent.
pub proof fn lemma_root_is_root(id: Seq<u32>, rank: Seq<nat>, bound: nat, i: int)
    requires
        forest(id, rank, bound),
        0 <= i < id.len(),
    ensures
        0 <= root_of(id, rank, bound, i) < id.len(),
        id[root_of(id, rank, bound, i)] as int == root_of(id, rank, bound, i),
    decreases bound - rank[i],
{
    if id[i] as int != i {
        lemma_root_is_root(id, rank, bound, id[i] as int);
    }
}

/// Parents of objects `0..n`, with the ranks that bound every walk to a root.
pub struct UT {
    pub id: Vec<u32>,
    pub rank: Ghost<Seq<nat>>,
    pub bound: Ghost<nat>,
}

impl UT {
    /// The parent links form a forest.
    pub open spec fn wf(&self) -> bool {
        forest(self.id@, self.rank@, self.bound@)
    }

    /// The root of the tree holding `i`.
    pub open spec fn root_spec(&self, i: int) -> int {
        root_of(self.id@, self.rank@, self.bound@, i)
    }

    /// Objects `i` and `j` lie in one tree.
    pub open spec fn same(&self, i: int, j: int) -> bool {
        self.root_spec(i) == self.root_spec(j)
    }

    /// `n` objects, each the root of a tree of its own.
    pub fn new(n: u32) -> (r: UT)
        ensures
            r.wf(),
            r.id@.len() == n,
            forall|i: int| 0 <= i < n ==> r.id@[i] == i,
            forall|i: int, j: int| 0 <= i < n && 0 <= j < n ==> (r.same(i, j) <==> i == j),
    {
        let mut r: Vec<u32> = Vec::with_capacity(n as usize);
        let mut i: u32 = 0;
        while i < n
            invariant
                i <= n,
                r@.len() == i,
                forall|k: int| 0 <= k < i ==> r@[k] == k,
            decreases n - i,
        {
            r.push(i);
            i += 1;
        }
        let ut = UT { id: r, rank: Ghost(Seq::new(n as nat, |k: int| 0nat)), bound: Ghost(1nat) };
        assert forall|i: int| 0 <= i < n implies #[trigger] ut.root_spec(i) == i by {
            assert(ut.id@[i] == i);
        }
        ut
    }

    /// The root of the tree holding `i`.
    pub fn root(&self, i: usize) -> (r: usize)
        requires
            self.wf(),
            i < self.id@.len(),
        ensures
            r as int == self.root_spec(i as int),
            r < self.id@.len(),
            self.id@[r as int] == r,
    {
        let mut i = i;
        let ghost start = i as int;
        proof {
            lemma_root_is_root(self.id@, self.rank@, self.bound@, start);
        }
        while self.id[i] as usize != i
            invariant
                self.wf(),
                i < self.id@.len(),
                self.root_spec(i as int) == self.root_spec(start),
            decreases self.bound@ - self.rank@[i as int],
        {
            i = self.id[i] as usize;
        }
        i
    }

    /// Whether `p` and `q` lie in one tree.
    pub fn connected(&self, p: usize, q: usize) -> (r: bool)
        requires
            self.wf(),
            p < self.id@.len(),
            q < self.id@.len(),
        ensures
            r == self.same(p as int, q as int),
    {
        self.root(p) == self.root(q)
    }

    /// Joins the trees of `p` and `q` by hanging the root of `p` under the
    /// root of `q`.
    #[verifier::rlimit(40)]
    pub fn union(&mut self, p: usize, q: usize)
        requires
            old(self).wf(),
            p < old(self).id@.len(),
            q < old(self).id@.len(),
        ensures
            final(self).wf(),
            final(self).id@.len() == old(self).id@.len(),
            forall|i: int| 0 <= i < old(self).id@.len() ==> #[trigger] final(self).root_spec(i) == (
                if old(self).same(i, p as int) { old(self).root_spec(q as int) } else { old(self).root_spec(i) }),
            forall|i: int, j: int| 0 <= i < old(self).id@.len() && 0 <= j < old(self).id@.len() ==>
                (final(self).same(i, j) <==> joined(*old(self), p as int, q as int, i, j)),
    {
        let pi = self.root(p);
        let qi = self.root(q);
        let ghost old_id = self.id@;
        let ghost old_rank = self.rank@;
        let ghost old_bound = self.bound@;
        proof {
            if pi != qi {
                lemma_hang_forest(old_id, old_rank, old_bound, pi as int, qi as int);
                self.rank = Ghost(raise(old_rank, pi as int, qi as int));
                self.bound = Ghost(raised_bound(old_rank, old_bound, pi as int, qi as int));
            }
        }
        self.id.set(pi, qi as u32);
        proof {
            if pi == qi {
                assert(self.id@ =~= old_id);
            }
            assert forall|i: int| 0 <= i < old_id.len() implies #[trigger] self.root_spec(i) == (
                if root_of(old_id, old_rank, old_bound, i) == pi as int { qi as int } else { root_of(old_id, old_rank, old_bound, i) }) by {
                lemma_hang_root(old_id, old_rank, old_bound, self.id@, self.rank@, self.bound@, pi as int, qi as int, i);
            }
        }
    }
}

/// After joining the components of `p` and `q`, objects `i` and `j` share a
/// component when they did before, or one was with `p` and the other with `q`.
pub open spec fn joined(before: UT, p: int, q: int, i: int, j: int) -> bool {
    ||| before.same(i, j)
    ||| (before.same(i, p) && before.same(j, q))
    ||| (before.same(i, q) && before.same(j, p))
}

/// Hanging root `a` under root `b` sends every object of `a`'s tree to `b`
/// and leaves the other roots alone.
pub proof fn lemma_hang_root(
    id: Seq<u32>, rank: Seq<nat>, bound: nat,
    id2: Seq<u32>, rank2: Seq<nat>, bound2: nat,
    a: int, b: int, i: int,
)
    requires
        forest(id, rank, bound),
        forest(id2, rank2, bound2),
        0 <= a < id.len(),
        0 <= b < id.len(),
        id[a] as int == a,
        id[b] as int == b,
        id2 == id.update(a, b as u32),
        0 <= i < id.len(),
    ensures
        root_of(id2, rank2, bound2, i) == (if root_of(id, rank, bound, i) == a { b } else { root_of(id, rank, bound, i) }),
    decreases bound - rank[i],
{
    if id[i] as int != i {
        lemma_hang_root(id, rank, bound, id2, rank2, bound2, a, b, id[i] as int);
        assert(id2[i] == id[i]);
    } else if i == a && a != b {
        assert(id2[b] as int == b);
        assert(root_of(id2, rank2, bound2, b) == b);
    }
}

/// Hanging root `a` under a different root `b`, with `b`'s rank raised above
/// `a`'s, keeps the parent links a forest.
pub proof fn lemma_hang_forest(id: Seq<u32>, rank: Seq<nat>, bound: nat, a: int, b: int)
    requires
        forest(id, rank, bound),
        0 <= a < id.len(),
        0 <= b < id.len(),
        a != b,
        id[a] as int == a,
        id[b] as int == b,
    ensures
        forest(id.update(a, b as u32), raise(rank, a, b), raised_bound(rank, bound, a, b)),
{
    let id2 = id.update(a, b as u32);
    let rank2 = raise(rank, a, b);
    let bound2 = raised_bound(rank, bound, a, b);
    assert forall|k: int| 0 <= k < id2.len() && id2[k] as int != k implies #[trigger] rank2[k] < rank2[id2[k] as int] by {
        if k != a {
            assert(id2[k] == id[k]);
            assert(k != b);
        }
    }
    assert forall|k: int| 0 <= k < id2.len() implies #[trigger] id2[k] < id2.len() by {
        if k != a {
            assert(id2[k] == id[k]);
        }
    }
    assert forall|k: int| 0 <= k < id2.len() implies #[trigger] rank2[k] < bound2 by {
        if k != b {
            assert(rank2[k] == rank[k]);
        }
    }
}

/// Ranks after hanging root `a` under root `b`: `b` climbs above `a` if it
/// was not already.
pub open spec fn raise(rank: Seq<nat>, a: int, b: int) -> Seq<nat> {
    if rank[b] > rank[a] { rank } else { rank.update(b, rank[a] + 1) }
}

/// A bound above every rank after `raise`.
pub open spec fn raised_bound(rank: Seq<nat>, bound: nat, a: int, b: int) -> nat {
    if raise(rank, a, b)[b] < bound { bound } else { raise(rank, a, b)[b] + 1 }
}

} // verus!
