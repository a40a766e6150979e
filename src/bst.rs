//! An unbalanced binary search tree keyed by a totally ordered type, with
//! every node carrying the number of nodes in its subtree.

use core::cmp::Ordering;
use vstd::laws_cmp::{obeys_cmp, obeys_cmp_ord, obeys_cmp_partial_ord, obeys_partial_cmp_spec_properties};
use vstd::laws_eq::{obeys_concrete_eq, obeys_eq_spec_properties};
use vstd::pervasive::strictly_cloned;
use vstd::prelude::*;
use vstd::std_specs::cmp::{OrdSpec, PartialOrdSpec};

verus! {

/// The key type orders its values totally, `cmp` agrees with that order,
/// equality under it is identity, and a clone equals its source.
pub open spec fn ordered_key<K: Ord + Clone>() -> bool {
    &&& obeys_cmp::<K>()
    &&& obeys_concrete_eq::<K>()
    &&& forall|a: K, b: K| #[trigger] strictly_cloned(a, b) ==> a == b
}

/// `a` comes strictly before `b`.
pub open spec fn key_lt<K: Ord>(a: K, b: K) -> bool {
    a.cmp_spec(&b) == Ordering::Less
}

/// The facts about `cmp_spec` that an ordered key type provides.
pub proof fn lemma_ordered_key<K: Ord + Clone>()
    requires
        ordered_key::<K>(),
    ensures
        K::obeys_cmp_spec(),
        forall|a: K, b: K| #[trigger] a.cmp_spec(&b) == Ordering::Equal <==> a == b,
        forall|a: K, b: K| #[trigger] a.cmp_spec(&b) == Ordering::Greater <==> key_lt(b, a),
        forall|a: K, b: K, c: K| #[trigger] key_lt(a, b) && #[trigger] key_lt(b, c) ==> key_lt(a, c),
        forall|a: K, b: K| strictly_cloned(a, b) ==> a == b,
{
    reveal(obeys_cmp_ord);
    reveal(obeys_cmp_partial_ord);
    reveal(obeys_partial_cmp_spec_properties);
    reveal(obeys_eq_spec_properties);
    reveal(obeys_concrete_eq);
    assert forall|a: K, b: K| #[trigger] a.cmp_spec(&b) == Ordering::Greater <==> key_lt(b, a) by {
        assert(a.partial_cmp_spec(&b) == Some(a.cmp_spec(&b)));
        assert(b.partial_cmp_spec(&a) == Some(b.cmp_spec(&a)));
    }
    assert forall|a: K, b: K, c: K| #[trigger] key_lt(a, b) && #[trigger] key_lt(b, c) implies key_lt(a, c) by {
        assert(a.partial_cmp_spec(&b) == Some(a.cmp_spec(&b)));
        assert(b.partial_cmp_spec(&c) == Some(b.cmp_spec(&c)));
        assert(a.partial_cmp_spec(&c) == Some(a.cmp_spec(&c)));
    }
    assert forall|a: K, b: K| #[trigger] a.cmp_spec(&b) == Ordering::Equal <==> a == b by {
        assert(a.partial_cmp_spec(&b) == Some(a.cmp_spec(&b)));
    }
}


/// An optional owned subtree.
pub type Link<K, V> = Option<Box<Node<K, V>>>;

/// One entry of the tree, with `size` counting the nodes of its subtree.
pub struct Node<K, V> {
    pub key: K,
    pub value: V,
    pub size: usize,
    pub left: Link<K, V>,
    pub right: Link<K, V>,
}

/// The entries held by a subtree.
pub open spec fn link_map<K, V>(link: Link<K, V>) -> Map<K, V>
    decreases link,
{
    match link {
        None => Map::empty(),
        Some(n) => link_map(n.left).union_prefer_right(link_map(n.right)).insert(n.key, n.value),
    }
}

/// The size recorded at the top of a subtree (zero when it is absent).
pub open spec fn link_size<K, V>(link: Link<K, V>) -> nat {
    match link {
        None => 0,
        Some(n) => n.size as nat,
    }
}

/// Search-tree order and size bookkeeping hold at every node of a subtree.
pub open spec fn link_wf<K: Ord, V>(link: Link<K, V>) -> bool
    decreases link,
{
    match link {
        None => true,
        Some(n) => {
            &&& forall|k: K| #[trigger] link_map(n.left).contains_key(k) ==> key_lt(k, n.key)
            &&& forall|k: K| #[trigger] link_map(n.right).contains_key(k) ==> key_lt(n.key, k)
            &&& n.size == 1 + link_size(n.left) + link_size(n.right)
            &&& link_wf(n.left)
            &&& link_wf(n.right)
        },
    }
}

/// `k` is present in `m` and no present key comes before it.
pub open spec fn is_least<K: Ord, V>(m: Map<K, V>, k: K) -> bool {
    m.contains_key(k) && forall|j: K| #[trigger] m.contains_key(j) ==> !key_lt(j, k)
}

/// `k` is present in `m` and no present key comes after it.
pub open spec fn is_greatest<K: Ord, V>(m: Map<K, V>, k: K) -> bool {
    m.contains_key(k) && forall|j: K| #[trigger] m.contains_key(j) ==> !key_lt(k, j)
}

/// `k` is the greatest key of `m` that does not come after `q`.
pub open spec fn is_floor<K: Ord, V>(m: Map<K, V>, q: K, k: K) -> bool {
    &&& m.contains_key(k)
    &&& !key_lt(q, k)
    &&& forall|j: K| #[trigger] m.contains_key(j) && !key_lt(q, j) ==> !key_lt(k, j)
}

/// `k` is the least key of `m` that does not come before `q`.
pub open spec fn is_ceiling<K: Ord, V>(m: Map<K, V>, q: K, k: K) -> bool {
    &&& m.contains_key(k)
    &&& !key_lt(k, q)
    &&& forall|j: K| #[trigger] m.contains_key(j) && !key_lt(j, q) ==> !key_lt(j, k)
}

/// The least key of a non-empty map.
pub open spec fn least_key<K: Ord, V>(m: Map<K, V>) -> K {
    choose|k: K| is_least(m, k)
}

/// The greatest key of a non-empty map.
pub open spec fn greatest_key<K: Ord, V>(m: Map<K, V>) -> K {
    choose|k: K| is_greatest(m, k)
}

/// A least key, when there is one, is the one `least_key` names.
pub proof fn lemma_least_key<K: Ord + Clone, V>(m: Map<K, V>, k: K)
    requires
        ordered_key::<K>(),
        is_least(m, k),
    ensures
        least_key(m) == k,
{
    lemma_ordered_key::<K>();
    let c = least_key(m);
    assert(is_least(m, c));
    assert(!key_lt(c, k) && !key_lt(k, c));
    assert(c.cmp_spec(&k) == Ordering::Equal);
}

/// A greatest key, when there is one, is the one `greatest_key` names.
pub proof fn lemma_greatest_key<K: Ord + Clone, V>(m: Map<K, V>, k: K)
    requires
        ordered_key::<K>(),
        is_greatest(m, k),
    ensures
        greatest_key(m) == k,
{
    lemma_ordered_key::<K>();
    let c = greatest_key(m);
    assert(is_greatest(m, c));
    assert(!key_lt(c, k) && !key_lt(k, c));
    assert(c.cmp_spec(&k) == Ordering::Equal);
}

/// The map reached from `m` by inserting the entries of `s` in order.
pub open spec fn insert_all<K, V>(m: Map<K, V>, s: Seq<(K, V)>) -> Map<K, V>
    decreases s.len(),
{
    if s.len() == 0 {
        m
    } else {
        insert_all(m, s.drop_last()).insert(s.last().0, s.last().1)
    }
}

/// The keys among the entries of `s`.
pub open spec fn keys_of<K, V>(s: Seq<(K, V)>) -> Set<K> {
    Set::new(|k: K| exists|i: int| 0 <= i < s.len() && #[trigger] s[i].0 == k)
}

/// Inserting any sequence of entries into an empty tree leaves one entry per
/// distinct key among them: a repeated key does not add to the size.
pub proof fn lemma_size_counts_distinct_keys<K, V>(s: Seq<(K, V)>)
    ensures
        insert_all(Map::empty(), s).dom() == keys_of(s),
        insert_all(Map::empty(), s).dom().finite(),
        insert_all(Map::empty(), s).len() == keys_of(s).len(),
    decreases s.len(),
{
    if s.len() == 0 {
        assert(keys_of(s) =~= Set::empty());
    } else {
        let p = s.drop_last();
        lemma_size_counts_distinct_keys(p);
        assert(keys_of(s) =~= keys_of(p).insert(s.last().0)) by {
            assert forall|k: K| keys_of(s).contains(k) implies keys_of(p).insert(s.last().0).contains(k) by {
                let i = choose|i: int| 0 <= i < s.len() && #[trigger] s[i].0 == k;
                if i < s.len() - 1 {
                    assert(p[i].0 == k);
                }
            }
            assert forall|k: K| keys_of(p).insert(s.last().0).contains(k) implies keys_of(s).contains(k) by {
                if k == s.last().0 {
                    assert(s[s.len() - 1].0 == k);
                } else {
                    let i = choose|i: int| 0 <= i < p.len() && #[trigger] p[i].0 == k;
                    assert(s[i].0 == k);
                }
            }
        }
    }
}

/// Draining in descending order yields strictly decreasing keys: once the
/// greatest key is taken out, the next greatest key comes before it.
pub proof fn lemma_descending_steps_decrease<K: Ord + Clone, V>(m: Map<K, V>)
    requires
        ordered_key::<K>(),
        m.dom().finite(),
        m.len() >= 2,
    ensures
        key_lt(greatest_key(m.remove(greatest_key(m))), greatest_key(m)),
{
    lemma_ordered_key::<K>();
    let a = greatest_key(m);
    lemma_greatest_key_exists(m);
    let rest = m.remove(a);
    assert(rest.len() >= 1);
    lemma_greatest_key_exists(rest);
    let b = greatest_key(rest);
    assert(m.contains_key(b) && b != a);
    assert(!key_lt(a, b));
}

/// The map left after taking out the least key `n` times.
pub open spec fn drain_after<K: Ord, V>(m: Map<K, V>, n: nat) -> Map<K, V>
    decreases n,
{
    if n == 0 {
        m
    } else {
        let r = drain_after(m, (n - 1) as nat);
        r.remove(least_key(r))
    }
}

/// Each removal in a drain takes out one present key, and never brings one back.
proof fn lemma_drain_shrinks<K: Ord + Clone, V>(m: Map<K, V>, a: nat, b: nat)
    requires
        ordered_key::<K>(),
        m.dom().finite(),
        a <= b <= m.len(),
    ensures
        drain_after(m, b).dom().finite(),
        drain_after(m, b).len() == m.len() - b,
        drain_after(m, b).dom().subset_of(drain_after(m, a).dom()),
    decreases b,
{
    if b > a {
        lemma_drain_shrinks(m, a, (b - 1) as nat);
        let r = drain_after(m, (b - 1) as nat);
        lemma_least_key_exists(r);
    } else if b > 0 {
        lemma_drain_shrinks(m, 0, (b - 1) as nat);
        let r = drain_after(m, (b - 1) as nat);
        lemma_least_key_exists(r);
    }
}

/// Draining in ascending order yields strictly increasing keys, one for each
/// entry, and leaves nothing behind: the key taken at step `i` comes before
/// the key taken at every later step, and after as many steps as there are
/// entries the map is empty.
pub proof fn lemma_ascending_drain<K: Ord + Clone, V>(m: Map<K, V>)
    requires
        ordered_key::<K>(),
        m.dom().finite(),
    ensures
        forall|i: nat, j: nat| i < j < m.len() ==>
            key_lt(#[trigger] least_key(drain_after(m, i)), #[trigger] least_key(drain_after(m, j))),
        drain_after(m, m.len()).len() == 0,
{
    lemma_ordered_key::<K>();
    assert forall|i: nat, j: nat| i < j < m.len() implies
        key_lt(#[trigger] least_key(drain_after(m, i)), #[trigger] least_key(drain_after(m, j))) by {
        lemma_drain_shrinks(m, i, i);
        lemma_drain_shrinks(m, i + 1, j);
        lemma_drain_shrinks(m, i, i + 1);
        let ri = drain_after(m, i);
        let rj = drain_after(m, j);
        lemma_least_key_exists(ri);
        lemma_least_key_exists(rj);
        let ki = least_key(ri);
        let kj = least_key(rj);
        assert(drain_after(m, i + 1) == ri.remove(ki));
        assert(ri.remove(ki).contains_key(kj));
        assert(!key_lt(kj, ki));
        assert(kj != ki);
    }
    lemma_drain_shrinks(m, 0, m.len());
}

/// A finite non-empty map has a least key.
pub proof fn lemma_least_key_exists<K: Ord + Clone, V>(m: Map<K, V>)
    requires
        ordered_key::<K>(),
        m.dom().finite(),
        m.len() >= 1,
    ensures
        is_least(m, least_key(m)),
    decreases m.len(),
{
    lemma_ordered_key::<K>();
    let a = m.dom().choose();
    assert(m.dom().contains(a));
    if m.len() == 1 {
        Set::lemma_is_singleton(m.dom());
        assert(is_least(m, a));
    } else {
        let rest = m.remove(a);
        lemma_least_key_exists(rest);
        let b = least_key(rest);
        if key_lt(a, b) {
            assert forall|j: K| #[trigger] m.contains_key(j) implies !key_lt(j, a) by {
                if j != a && key_lt(j, a) {
                    assert(rest.contains_key(j));
                    assert(key_lt(j, b));
                }
            }
            assert(is_least(m, a));
        } else {
            assert forall|j: K| #[trigger] m.contains_key(j) implies !key_lt(j, b) by {
                if j == a {
                    if key_lt(a, b) {
                    }
                } else {
                    assert(rest.contains_key(j));
                }
            }
            assert(is_least(m, b));
        }
    }
}

/// A finite non-empty map has a greatest key.
pub proof fn lemma_greatest_key_exists<K: Ord + Clone, V>(m: Map<K, V>)
    requires
        ordered_key::<K>(),
        m.dom().finite(),
        m.len() >= 1,
    ensures
        is_greatest(m, greatest_key(m)),
    decreases m.len(),
{
    lemma_ordered_key::<K>();
    let a = m.dom().choose();
    assert(m.dom().contains(a));
    if m.len() == 1 {
        Set::lemma_is_singleton(m.dom());
        assert(is_greatest(m, a));
    } else {
        let rest = m.remove(a);
        lemma_greatest_key_exists(rest);
        let b = greatest_key(rest);
        if key_lt(b, a) {
            assert forall|j: K| #[trigger] m.contains_key(j) implies !key_lt(a, j) by {
                if j != a && key_lt(a, j) {
                    assert(rest.contains_key(j));
                    assert(key_lt(b, j));
                }
            }
            assert(is_greatest(m, a));
        } else {
            assert forall|j: K| #[trigger] m.contains_key(j) implies !key_lt(b, j) by {
                if j != a {
                    assert(rest.contains_key(j));
                }
            }
            assert(is_greatest(m, b));
        }
    }
}

/// A well-formed subtree holds exactly as many entries as its recorded size.
pub proof fn lemma_link_len<K: Ord + Clone, V>(link: Link<K, V>)
    requires
        ordered_key::<K>(),
        link_wf(link),
    ensures
        link_map(link).dom().finite(),
        link_map(link).len() == link_size(link),
    decreases link,
{
    broadcast use vstd::map_lib::group_map_union, vstd::set_lib::lemma_set_disjoint_lens;

    lemma_ordered_key::<K>();
    if let Some(n) = link {
        lemma_link_len(n.left);
        lemma_link_len(n.right);
        let l = link_map(n.left).dom();
        let r = link_map(n.right).dom();
        assert(l.disjoint(r)) by {
            assert forall|k: K| l.contains(k) implies !r.contains(k) by {
                if r.contains(k) {
                    assert(key_lt(k, k));
                }
            }
        }
        assert(!(l + r).contains(n.key)) by {
            if l.contains(n.key) {
                assert(key_lt(n.key, n.key));
            }
            if r.contains(n.key) {
                assert(key_lt(n.key, n.key));
            }
        }
        assert(link_map(link).dom() =~= (l + r).insert(n.key));
    }
}

impl<K: Ord + Clone, V: Clone> Node<K, V> {
    /// A node with no children.
    pub fn new(key: K, value: V, size: usize) -> (r: Self)
        ensures
            r.key == key,
            r.value == value,
            r.size == size,
            r.left.is_none(),
            r.right.is_none(),
    {
        Node { key, value, size, left: None, right: None }
    }
}


/// An ordered map from keys to values, stored as an unbalanced search tree.
pub struct Bst<K, V> {
    pub root: Link<K, V>,
}

impl<K, V> View for Bst<K, V> {
    type V = Map<K, V>;

    open spec fn view(&self) -> Map<K, V> {
        link_map(self.root)
    }
}

impl<K: Ord + Clone, V: Clone> Bst<K, V> {
    /// The key type is ordered and the tree below the root is well formed.
    pub open spec fn wf(&self) -> bool {
        ordered_key::<K>() && link_wf(self.root)
    }

    /// An empty tree.
    pub fn new() -> (r: Self)
        requires
            ordered_key::<K>(),
        ensures
            r.wf(),
            r@ == Map::<K, V>::empty(),
    {
        Bst::<K, V> { root: None }
    }

    /// The size of a node whose children are `left` and `right`.
    fn root_size(left: &Link<K, V>, right: &Link<K, V>) -> (r: usize)
        requires
            1 + link_size(*left) + link_size(*right) <= usize::MAX,
        ensures
            r == 1 + link_size(*left) + link_size(*right),
    {
        let l: usize = match left {
            None => 0,
            Some(n) => n.size,
        };
        let r: usize = match right {
            None => 0,
            Some(n) => n.size,
        };
        1 + l + r
    }

    /// Inserts `key` with `value` below `root`, overwriting the value of an
    /// equal key, and hands back the new subtree.
    fn put_r(root: Link<K, V>, key: K, value: V) -> (r: Link<K, V>)
        requires
            ordered_key::<K>(),
            link_wf(root),
            link_size(root) < usize::MAX,
        ensures
            link_wf(r),
            link_map(r) == link_map(root).insert(key, value),
            link_size(r) == link_size(root) + if link_map(root).contains_key(key) { 0nat } else { 1nat },
        decreases root,
    {
        proof {
            lemma_ordered_key::<K>();
        }
        match root {
            None => {
                let r = Some(Box::new(Node::new(key, value, 1)));
                assert(link_map(r) =~= link_map(root).insert(key, value));
                r
            },
            Some(mut node) => {
                let ghost old_node = *node;
                let ghost lm = link_map(old_node.left);
                let ghost rm = link_map(old_node.right);
                match key.cmp(&node.key) {
                    Ordering::Less => {
                        assert(!rm.contains_key(key)) by {
                            if rm.contains_key(key) {
                                assert(key_lt(key, key));
                            }
                        }
                        let l = node.left.take();
                        node.left = Bst::put_r(l, key, value);
                        assert(link_map(Some(node)) =~= link_map(root).insert(key, value));
                    },
                    Ordering::Greater => {
                        assert(!lm.contains_key(key)) by {
                            if lm.contains_key(key) {
                                assert(key_lt(key, key));
                            }
                        }
                        let rt = node.right.take();
                        node.right = Bst::put_r(rt, key, value);
                        assert(link_map(Some(node)) =~= link_map(root).insert(key, value));
                    },
                    Ordering::Equal => {
                        assert(!lm.contains_key(key)) by {
                            if lm.contains_key(key) {
                                assert(key_lt(key, key));
                            }
                        }
                        assert(!rm.contains_key(key)) by {
                            if rm.contains_key(key) {
                                assert(key_lt(key, key));
                            }
                        }
                        node.value = value;
                        assert(link_map(Some(node)) =~= link_map(root).insert(key, value));
                    },
                }
                node.size = Bst::root_size(&node.right, &node.left);
                Some(node)
            },
        }
    }

    /// Associates `value` with `key`; an entry already under `key` gets the
    /// new value and the shape of the tree stays as it was.
    pub fn put(&mut self, key: K, value: V)
        requires
            old(self).wf(),
            old(self)@.len() < usize::MAX,
        ensures
            final(self).wf(),
            final(self)@ == old(self)@.insert(key, value),
    {
        proof {
            lemma_link_len(self.root);
        }
        self.root = Bst::put_r(self.root.take(), key, value);
    }

    /// The number of entries.
    pub fn size(&self) -> (r: usize)
        requires
            self.wf(),
        ensures
            r == self@.len(),
    {
        proof {
            lemma_link_len(self.root);
        }
        match &self.root {
            None => 0,
            Some(root) => root.size,
        }
    }

    /// Whether the tree holds no entry.
    pub fn is_empty(&self) -> (r: bool)
        requires
            self.wf(),
        ensures
            r == (self@.len() == 0),
    {
        self.size() == 0
    }

    /// The value stored under `key` below `link`.
    fn get_r(link: &Link<K, V>, key: K) -> (r: Option<&V>)
        requires
            ordered_key::<K>(),
            link_wf(*link),
        ensures
            r == (if link_map(*link).contains_key(key) { Some(&link_map(*link)[key]) } else { None }),
        decreases link,
    {
        proof {
            lemma_ordered_key::<K>();
        }
        match link {
            None => None,
            Some(node) => {
                let ghost lm = link_map(node.left);
                let ghost rm = link_map(node.right);
                match node.key.cmp(&key) {
                    Ordering::Greater => {
                        assert(!rm.contains_key(key)) by {
                            if rm.contains_key(key) {
                                assert(key_lt(key, key));
                            }
                        }
                        Bst::get_r(&node.left, key)
                    },
                    Ordering::Less => {
                        assert(!lm.contains_key(key)) by {
                            if lm.contains_key(key) {
                                assert(key_lt(key, key));
                            }
                        }
                        Bst::get_r(&node.right, key)
                    },
                    Ordering::Equal => Some(&node.value),
                }
            },
        }
    }

    /// The value stored under `key`, if any.
    pub fn get(&self, key: K) -> (r: Option<&V>)
        requires
            self.wf(),
        ensures
            r == (if self@.contains_key(key) { Some(&self@[key]) } else { None }),
    {
        Bst::get_r(&self.root, key)
    }

    /// Whether an entry is stored under `key`.
    pub fn contains(&self, key: K) -> (r: bool)
        requires
            self.wf(),
        ensures
            r == self@.contains_key(key),
    {
        self.get(key).is_some()
    }

    /// The node with the least key below a non-empty `root`.
    fn min_r(root: &Link<K, V>) -> (r: &Link<K, V>)
        requires
            ordered_key::<K>(),
            root.is_some(),
            link_wf(*root),
        ensures
            r.is_some(),
            is_least(link_map(*root), r.unwrap().key),
            link_map(*root)[r.unwrap().key] == r.unwrap().value,
        decreases root,
    {
        proof {
            lemma_ordered_key::<K>();
        }
        let node = root.as_ref().unwrap();
        match &node.left {
            None => {
                assert(link_map(node.left) =~= Map::empty());
                assert forall|j: K| #[trigger] link_map(*root).contains_key(j) implies !key_lt(j, node.key) by {
                    if link_map(node.right).contains_key(j) && key_lt(j, node.key) {
                        assert(key_lt(j, j));
                    }
                }
                root
            },
            Some(_) => {
                let r = Bst::min_r(&node.left);
                let ghost m = r.unwrap().key;
                assert(!link_map(node.right).contains_key(m)) by {
                    if link_map(node.right).contains_key(m) {
                        assert(key_lt(m, m));
                    }
                }
                assert forall|j: K| #[trigger] link_map(*root).contains_key(j) implies !key_lt(j, m) by {
                    if link_map(node.right).contains_key(j) {
                        assert(key_lt(m, j));
                    }
                }
                r
            },
        }
    }

    /// The node with the greatest key below a non-empty `root`.
    fn max_r(root: &Link<K, V>) -> (r: &Link<K, V>)
        requires
            ordered_key::<K>(),
            root.is_some(),
            link_wf(*root),
        ensures
            r.is_some(),
            is_greatest(link_map(*root), r.unwrap().key),
            link_map(*root)[r.unwrap().key] == r.unwrap().value,
        decreases root,
    {
        proof {
            lemma_ordered_key::<K>();
        }
        let node = root.as_ref().unwrap();
        match &node.right {
            None => {
                assert(link_map(node.right) =~= Map::empty());
                assert(!link_map(node.left).contains_key(node.key)) by {
                    if link_map(node.left).contains_key(node.key) {
                        assert(key_lt(node.key, node.key));
                    }
                }
                root
            },
            Some(_) => {
                let r = Bst::max_r(&node.right);
                let ghost m = r.unwrap().key;
                assert forall|j: K| #[trigger] link_map(*root).contains_key(j) implies !key_lt(m, j) by {
                    if link_map(node.left).contains_key(j) {
                        assert(key_lt(j, m));
                    }
                }
                r
            },
        }
    }

    /// The entry with the least key, or `None` on an empty tree.
    pub fn min(&self) -> (r: Option<(&K, &V)>)
        requires
            self.wf(),
        ensures
            r is None ==> self@.len() == 0,
            r matches Some((k, v)) ==> is_least(self@, *k) && self@[*k] == *v,
    {
        proof {
            lemma_link_len(self.root);
        }
        match self.root {
            None => None,
            Some(_) => {
                let min_link = Bst::min_r(&self.root);
                let node = min_link.as_ref().unwrap();
                Some((&node.key, &node.value))
            },
        }
    }

    /// The entry with the greatest key, or `None` on an empty tree.
    pub fn max(&self) -> (r: Option<(&K, &V)>)
        requires
            self.wf(),
        ensures
            r is None ==> self@.len() == 0,
            r matches Some((k, v)) ==> is_greatest(self@, *k) && self@[*k] == *v,
    {
        proof {
            lemma_link_len(self.root);
        }
        match self.root {
            None => None,
            Some(_) => {
                let max_link = Bst::max_r(&self.root);
                let node = max_link.as_ref().unwrap();
                Some((&node.key, &node.value))
            },
        }
    }

    /// Detaches the node with the least key from a non-empty `root`; hands
    /// back what remains of the subtree and the detached node.
    fn delete_min_r(root: Link<K, V>) -> (r: (Link<K, V>, Box<Node<K, V>>))
        requires
            ordered_key::<K>(),
            root.is_some(),
            link_wf(root),
        ensures
            link_wf(r.0),
            is_least(link_map(root), r.1.key),
            link_map(root)[r.1.key] == r.1.value,
            link_map(r.0) == link_map(root).remove(r.1.key),
            link_size(r.0) + 1 == link_size(root),
        decreases root,
    {
        proof {
            lemma_ordered_key::<K>();
        }
        let mut node = root.unwrap();
        let ghost old_node = *node;
        let ghost lm = link_map(old_node.left);
        let ghost rm = link_map(old_node.right);
        match node.left.take() {
            None => {
                let rest = node.right.take();
                assert(!rm.contains_key(old_node.key)) by {
                    if rm.contains_key(old_node.key) {
                        assert(key_lt(old_node.key, old_node.key));
                    }
                }
                assert(link_map(rest) =~= link_map(root).remove(old_node.key));
                (rest, node)
            },
            Some(l) => {
                let (new_left, min_node) = Bst::delete_min_r(Some(l));
                let ghost m = min_node.key;
                assert(!rm.contains_key(m)) by {
                    if rm.contains_key(m) {
                        assert(key_lt(m, m));
                    }
                }
                assert forall|j: K| #[trigger] link_map(root).contains_key(j) implies !key_lt(j, m) by {
                    if rm.contains_key(j) {
                        assert(key_lt(m, j));
                    }
                }
                node.left = new_left;
                node.size = Bst::root_size(&node.right, &node.left);
                let rest = Some(node);
                assert(link_map(rest) =~= link_map(root).remove(m));
                (rest, min_node)
            },
        }
    }

    /// Detaches the node with the greatest key from a non-empty `root`;
    /// hands back what remains of the subtree and the detached node.
    fn delete_max_r(root: Link<K, V>) -> (r: (Link<K, V>, Box<Node<K, V>>))
        requires
            ordered_key::<K>(),
            root.is_some(),
            link_wf(root),
        ensures
            link_wf(r.0),
            is_greatest(link_map(root), r.1.key),
            link_map(root)[r.1.key] == r.1.value,
            link_map(r.0) == link_map(root).remove(r.1.key),
            link_size(r.0) + 1 == link_size(root),
        decreases root,
    {
        proof {
            lemma_ordered_key::<K>();
        }
        let mut node = root.unwrap();
        let ghost old_node = *node;
        let ghost lm = link_map(old_node.left);
        let ghost rm = link_map(old_node.right);
        match node.right.take() {
            None => {
                let rest = node.left.take();
                assert(!lm.contains_key(old_node.key)) by {
                    if lm.contains_key(old_node.key) {
                        assert(key_lt(old_node.key, old_node.key));
                    }
                }
                assert(link_map(rest) =~= link_map(root).remove(old_node.key));
                (rest, node)
            },
            Some(rt) => {
                let (new_right, max_node) = Bst::delete_max_r(Some(rt));
                let ghost m = max_node.key;
                assert(!lm.contains_key(m)) by {
                    if lm.contains_key(m) {
                        assert(key_lt(m, m));
                    }
                }
                assert forall|j: K| #[trigger] link_map(root).contains_key(j) implies !key_lt(m, j) by {
                    if lm.contains_key(j) {
                        assert(key_lt(j, m));
                    }
                }
                node.right = new_right;
                node.size = Bst::root_size(&node.right, &node.left);
                let rest = Some(node);
                assert(link_map(rest) =~= link_map(root).remove(m));
                (rest, max_node)
            },
        }
    }

    /// Removes the entry with the least key; an empty tree stays empty.
    pub fn delete_min(&mut self)
        requires
            old(self).wf(),
        ensures
            final(self).wf(),
            old(self)@.len() == 0 ==> final(self)@ == old(self)@,
            old(self)@.len() > 0 ==> final(self)@ == old(self)@.remove(least_key(old(self)@)),
    {
        proof {
            lemma_link_len(self.root);
        }
        if self.root.is_some() {
            let taken = self.root.take();
            let (rest, min_node) = Bst::delete_min_r(taken);
            proof {
                lemma_least_key(link_map(taken), min_node.key);
            }
            self.root = rest;
        }
    }

    /// Removes the entry with the greatest key; an empty tree stays empty.
    pub fn delete_max(&mut self)
        requires
            old(self).wf(),
        ensures
            final(self).wf(),
            old(self)@.len() == 0 ==> final(self)@ == old(self)@,
            old(self)@.len() > 0 ==> final(self)@ == old(self)@.remove(greatest_key(old(self)@)),
    {
        proof {
            lemma_link_len(self.root);
        }
        if self.root.is_some() {
            let taken = self.root.take();
            let (rest, max_node) = Bst::delete_max_r(taken);
            proof {
                lemma_greatest_key(link_map(taken), max_node.key);
            }
            self.root = rest;
        }
    }

    /// Removes `key` from the tree below `root`; a node with two children
    /// is replaced by its in-order successor.
    #[verifier::rlimit(40)]
    fn delete_r(root: Link<K, V>, key: K) -> (r: Link<K, V>)
        requires
            ordered_key::<K>(),
            link_wf(root),
        ensures
            link_wf(r),
            link_map(r) == link_map(root).remove(key),
            link_size(r) + if link_map(root).contains_key(key) { 1nat } else { 0nat } == link_size(root),
        decreases root,
    {
        proof {
            lemma_ordered_key::<K>();
        }
        match root {
            None => {
                assert(link_map(root) =~= link_map(root).remove(key));
                None
            },
            Some(mut node) => {
                let ghost old_node = *node;
                let ghost lm = link_map(old_node.left);
                let ghost rm = link_map(old_node.right);
                match key.cmp(&node.key) {
                    Ordering::Greater => {
                        assert(!lm.contains_key(key)) by {
                            if lm.contains_key(key) {
                                assert(key_lt(key, key));
                            }
                        }
                        let rt = node.right.take();
                        node.right = Bst::delete_r(rt, key);
                        node.size = Bst::root_size(&node.right, &node.left);
                        let r = Some(node);
                        assert(link_map(r) =~= link_map(root).remove(key));
                        r
                    },
                    Ordering::Less => {
                        assert(!rm.contains_key(key)) by {
                            if rm.contains_key(key) {
                                assert(key_lt(key, key));
                            }
                        }
                        let l = node.left.take();
                        node.left = Bst::delete_r(l, key);
                        node.size = Bst::root_size(&node.right, &node.left);
                        let r = Some(node);
                        assert(link_map(r) =~= link_map(root).remove(key));
                        r
                    },
                    Ordering::Equal => {
                        assert(!lm.contains_key(key)) by {
                            if lm.contains_key(key) {
                                assert(key_lt(key, key));
                            }
                        }
                        assert(!rm.contains_key(key)) by {
                            if rm.contains_key(key) {
                                assert(key_lt(key, key));
                            }
                        }
                        if node.right.is_none() {
                            let l = node.left.take();
                            assert(link_map(l) =~= link_map(root).remove(key));
                            return l;
                        }
                        if node.left.is_none() {
                            let rt = node.right.take();
                            assert(link_map(rt) =~= link_map(root).remove(key));
                            return rt;
                        }
                        let rt = node.right.take();
                        let (new_right, mut successor) = Bst::delete_min_r(rt);
                        let ghost s = successor.key;
                        assert forall|j: K| #[trigger] link_map(new_right).contains_key(j) implies key_lt(s, j) by {
                            assert(rm.contains_key(j) && j != s);
                            assert(!key_lt(j, s));
                        }
                        assert forall|j: K| #[trigger] lm.contains_key(j) implies key_lt(j, s) by {
                            assert(key_lt(key, s));
                        }
                        successor.right = new_right;
                        successor.left = node.left.take();
                        successor.size = Bst::root_size(&successor.right, &successor.left);
                        let r = Some(successor);
                        assert(link_map(r) =~= link_map(root).remove(key));
                        r
                    },
                }
            },
        }
    }

    /// Removes the entry under `key`; nothing changes when there is none.
    pub fn delete(&mut self, key: K)
        requires
            old(self).wf(),
        ensures
            final(self).wf(),
            final(self)@ == old(self)@.remove(key),
            !final(self)@.contains_key(key),
            old(self)@.contains_key(key) ==> final(self)@.len() == old(self)@.len() - 1,
            !old(self)@.contains_key(key) ==> final(self)@.len() == old(self)@.len(),
    {
        proof {
            lemma_link_len(self.root);
        }
        if self.root.is_some() {
            let taken = self.root.take();
            self.root = Bst::delete_r(taken, key);
        } else {
            assert(self@ =~= self@.remove(key));
        }
    }

    /// The node holding the least key at or after `key` below `root`.
    #[verifier::rlimit(40)]
    fn ceil_r(root: &Link<K, V>, key: K) -> (r: &Link<K, V>)
        requires
            ordered_key::<K>(),
            link_wf(*root),
        ensures
            r is None ==> forall|j: K| #[trigger] link_map(*root).contains_key(j) ==> key_lt(j, key),
            r is Some ==> is_ceiling(link_map(*root), key, r.unwrap().key),
            r is Some ==> link_map(*root)[r.unwrap().key] == r.unwrap().value,
        decreases root,
    {
        proof {
            lemma_ordered_key::<K>();
        }
        let ret: &Link<K, V> = match root {
            None => &None,
            Some(unwrapped) => {
                let ghost lm = link_map(unwrapped.left);
                let ghost rm = link_map(unwrapped.right);
                let ghost nk = unwrapped.key;
                assert(!lm.contains_key(nk)) by {
                    if lm.contains_key(nk) {
                        assert(key_lt(nk, nk));
                    }
                }
                assert(!rm.contains_key(nk)) by {
                    if rm.contains_key(nk) {
                        assert(key_lt(nk, nk));
                    }
                }
                match key.cmp(&unwrapped.key) {
                    Ordering::Equal => root,
                    Ordering::Greater => {
                        let t = Bst::ceil_r(&unwrapped.right, key);
                        assert forall|j: K| #[trigger] lm.contains_key(j) implies key_lt(j, key) by {
                            assert(key_lt(j, nk));
                        }
                        if t.is_some() {
                            let ghost c = t.unwrap().key;
                            assert(!lm.contains_key(c)) by {
                                if lm.contains_key(c) {
                                    assert(key_lt(c, nk));
                                }
                            }
                        }
                        return t;
                    },
                    Ordering::Less => {
                        let t = Bst::ceil_r(&unwrapped.left, key);
                        match t {
                            None => {
                                assert forall|j: K| #[trigger] link_map(*root).contains_key(j) && !key_lt(j, key) implies !key_lt(j, nk) by {
                                    if rm.contains_key(j) && key_lt(j, nk) {
                                        assert(key_lt(j, j));
                                    }
                                }
                                root
                            },
                            Some(_) => {
                                let ghost c = t.unwrap().key;
                                assert(!rm.contains_key(c)) by {
                                    if rm.contains_key(c) {
                                        assert(key_lt(c, c));
                                    }
                                }
                                assert forall|j: K| #[trigger] link_map(*root).contains_key(j) && !key_lt(j, key) implies !key_lt(j, c) by {
                                    if rm.contains_key(j) || j == nk {
                                        assert(key_lt(c, nk));
                                        if key_lt(j, c) {
                                            assert(key_lt(j, nk));
                                            if j != nk {
                                                assert(key_lt(j, j));
                                            }
                                        }
                                    }
                                }
                                t
                            },
                        }
                    },
                }
            },
        };
        ret
    }

    /// The least key at or after `key`, or `None` when every key comes before it.
    pub fn ceil(&self, key: K) -> (r: Option<K>)
        requires
            self.wf(),
        ensures
            r is None ==> forall|j: K| #[trigger] self@.contains_key(j) ==> key_lt(j, key),
            r matches Some(k) ==> is_ceiling(self@, key, k),
            self@.contains_key(key) ==> r == Some(key),
            !self@.contains_key(key) && r is Some ==> key_lt(key, r.unwrap()),
    {
        proof {
            lemma_ordered_key::<K>();
        }
        let ceil = Bst::ceil_r(&self.root, key);
        match ceil {
            None => None,
            Some(unwrapped) => {
                let k = unwrapped.key.clone();
                proof {
                    lemma_ordered_key::<K>();
                    assert(strictly_cloned(unwrapped.key, k));
                    assert(k == unwrapped.key);
                }
                Some(k)
            },
        }
    }

    /// The node holding the greatest key at or before `key` below `root`.
    #[verifier::rlimit(40)]
    fn floor_r(root: &Link<K, V>, key: K) -> (r: &Link<K, V>)
        requires
            ordered_key::<K>(),
            link_wf(*root),
        ensures
            r is None ==> forall|j: K| #[trigger] link_map(*root).contains_key(j) ==> key_lt(key, j),
            r is Some ==> is_floor(link_map(*root), key, r.unwrap().key),
            r is Some ==> link_map(*root)[r.unwrap().key] == r.unwrap().value,
        decreases root,
    {
        proof {
            lemma_ordered_key::<K>();
        }
        let ret: &Link<K, V> = match root {
            None => &None,
            Some(unwrapped) => {
                let ghost lm = link_map(unwrapped.left);
                let ghost rm = link_map(unwrapped.right);
                let ghost nk = unwrapped.key;
                assert(!lm.contains_key(nk)) by {
                    if lm.contains_key(nk) {
                        assert(key_lt(nk, nk));
                    }
                }
                assert(!rm.contains_key(nk)) by {
                    if rm.contains_key(nk) {
                        assert(key_lt(nk, nk));
                    }
                }
                match key.cmp(&unwrapped.key) {
                    Ordering::Equal => root,
                    Ordering::Less => {
                        let t = Bst::floor_r(&unwrapped.left, key);
                        assert forall|j: K| #[trigger] rm.contains_key(j) implies key_lt(key, j) by {
                            assert(key_lt(nk, j));
                        }
                        if t.is_some() {
                            let ghost c = t.unwrap().key;
                            assert(!rm.contains_key(c)) by {
                                if rm.contains_key(c) {
                                    assert(key_lt(nk, c));
                                }
                            }
                        }
                        return t;
                    },
                    Ordering::Greater => {
                        let t = Bst::floor_r(&unwrapped.right, key);
                        match t {
                            None => {
                                assert forall|j: K| #[trigger] link_map(*root).contains_key(j) && !key_lt(key, j) implies !key_lt(nk, j) by {
                                    if lm.contains_key(j) && key_lt(nk, j) {
                                        assert(key_lt(j, j));
                                    }
                                }
                                root
                            },
                            Some(_) => {
                                let ghost c = t.unwrap().key;
                                assert(!lm.contains_key(c)) by {
                                    if lm.contains_key(c) {
                                        assert(key_lt(c, c));
                                    }
                                }
                                assert forall|j: K| #[trigger] link_map(*root).contains_key(j) && !key_lt(key, j) implies !key_lt(c, j) by {
                                    if lm.contains_key(j) || j == nk {
                                        assert(key_lt(nk, c));
                                        if key_lt(c, j) {
                                            assert(key_lt(nk, j));
                                            if j != nk {
                                                assert(key_lt(j, j));
                                            }
                                        }
                                    }
                                }
                                t
                            },
                        }
                    },
                }
            },
        };
        ret
    }

    /// The greatest key at or before `key`, or `None` when every key comes after it.
    pub fn floor(&self, key: K) -> (r: Option<K>)
        requires
            self.wf(),
        ensures
            r is None ==> forall|j: K| #[trigger] self@.contains_key(j) ==> key_lt(key, j),
            r matches Some(k) ==> is_floor(self@, key, k),
            self@.contains_key(key) ==> r == Some(key),
            !self@.contains_key(key) && r is Some ==> key_lt(r.unwrap(), key),
    {
        proof {
            lemma_ordered_key::<K>();
        }
        let floor = Bst::floor_r(&self.root, key);
        match floor {
            None => None,
            Some(unwrapped) => {
                let k = unwrapped.key.clone();
                proof {
                    lemma_ordered_key::<K>();
                    assert(strictly_cloned(unwrapped.key, k));
                    assert(k == unwrapped.key);
                }
                Some(k)
            },
        }
    }
    /// An iterator that removes and yields the entries in ascending key order.
    pub fn asc_iter(&mut self) -> (r: AscIterator<'_, K, V>)
        ensures
            *r.data == *old(self),
            *final(self) == *final(r.data),
    {
        AscIterator { data: self }
    }

    /// An iterator that removes and yields the entries in descending key order.
    pub fn desc_iter(&mut self) -> (r: DescIterator<'_, K, V>)
        ensures
            *r.data == *old(self),
            *final(self) == *final(r.data),
    {
        DescIterator { data: self }
    }
}

/// Draining traversal in ascending key order: each step takes the entry with
/// the least key out of the tree it borrows.
pub struct AscIterator<'a, K, V> {
    pub data: &'a mut Bst<K, V>,
}

impl<'a, K: Ord + Clone, V: Clone> AscIterator<'a, K, V> {
    /// Removes the entry with the least key and yields it; `None` once the
    /// tree is empty.
    pub fn next(&mut self) -> (r: Option<(K, V)>)
        requires
            old(self).data.wf(),
        ensures
            *final(final(self).data) == *final(old(self).data),
            final(self).data.wf(),
            old(self).data@.len() == 0 ==> r is None && final(self).data@ == old(self).data@,
            old(self).data@.len() > 0 ==> r == Some((least_key(old(self).data@), old(self).data@[least_key(old(self).data@)])),
            old(self).data@.len() > 0 ==> final(self).data@ == old(self).data@.remove(least_key(old(self).data@)),
            old(self).data@.len() > 0 ==> final(self).data@.len() == old(self).data@.len() - 1,
    {
        proof {
            lemma_link_len(self.data.root);
        }
        if self.data.root.is_some() {
            let taken = self.data.root.take();
            let (rest, min_node) = Bst::delete_min_r(taken);
            proof {
                lemma_least_key(link_map(taken), min_node.key);
            }
            self.data.root = rest;
            let node = *min_node;
            Some((node.key, node.value))
        } else {
            None
        }
    }
}

/// Draining traversal in descending key order: each step takes the entry
/// with the greatest key out of the tree it borrows.
pub struct DescIterator<'a, K, V> {
    pub data: &'a mut Bst<K, V>,
}

impl<'a, K: Ord + Clone, V: Clone> DescIterator<'a, K, V> {
    /// Removes the entry with the greatest key and yields it; `None` once
    /// the tree is empty.
    pub fn next(&mut self) -> (r: Option<(K, V)>)
        requires
            old(self).data.wf(),
        ensures
            *final(final(self).data) == *final(old(self).data),
            final(self).data.wf(),
            old(self).data@.len() == 0 ==> r is None && final(self).data@ == old(self).data@,
            old(self).data@.len() > 0 ==> r == Some((greatest_key(old(self).data@), old(self).data@[greatest_key(old(self).data@)])),
            old(self).data@.len() > 0 ==> final(self).data@ == old(self).data@.remove(greatest_key(old(self).data@)),
            old(self).data@.len() > 0 ==> final(self).data@.len() == old(self).data@.len() - 1,
    {
        proof {
            lemma_link_len(self.data.root);
        }
        if self.data.root.is_some() {
            let taken = self.data.root.take();
            let (rest, max_node) = Bst::delete_max_r(taken);
            proof {
                lemma_greatest_key(link_map(taken), max_node.key);
            }
            self.data.root = rest;
            let node = *max_node;
            Some((node.key, node.value))
        } else {
            None
        }
    }
}

} // verus!
