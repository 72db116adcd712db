//! The Bonsai weight-balanced tree.
//!
//! Fully functional: every mutating operation rebuilds the path from the
//! root down to the point of change and commits the new tree with a single
//! root store.  Published nodes are immutable; builders only read existing
//! nodes and append new ones to the arena, so old subtrees are shared
//! between versions.  A builder that observes a retired subtree returns a
//! retired sentinel link (null with the retired tag), which aborts the whole
//! reconstruction; within one thread no concurrent commit can retire a
//! subtree mid-build, and the verifier shows those paths are never taken.
//!
//! Values live in a side arena and nodes refer to them by index, so sharing
//! a subtree never clones a value.

use crate::concurrent_map::{ConcurrentMap, OutputHolder};
use crate::smr::Cs;
use vstd::prelude::*;
use vstd::set_lib::{lemma_int_range, lemma_len_subset, lemma_set_disjoint_lens, set_int_range};

verus! {

/// The weight parameter of the balance condition.
pub const WEIGHT: usize = 2;

/// The retired-sentinel bit carried in a link's tag.
#[derive(Clone, Copy, PartialEq, Eq, Structural)]
pub struct Retired {
    bits: usize,
}

impl Retired {
    pub closed spec fn spec_retired(self) -> bool {
        self.bits % 2 == 1
    }

    pub fn new(retired: bool) -> (r: Self)
        ensures
            r.spec_retired() == retired,
    {
        Retired { bits: if retired { 1 } else { 0 } }
    }

    pub fn retired(self) -> (r: bool)
        ensures
            r == self.spec_retired(),
    {
        self.bits % 2 == 1
    }

    pub fn from_bits(bits: usize) -> (r: Self)
        ensures
            r.spec_retired() == (bits % 2 == 1),
    {
        Retired { bits }
    }

    pub fn bits(self) -> (b: usize)
        ensures
            (b % 2 == 1) == self.spec_retired(),
    {
        self.bits
    }
}

/// A tagged link: an optional arena index plus the tag bits of the pointer
/// word.  The retired sentinel is the null link with the retired tag set.
#[derive(Clone, Copy, PartialEq, Eq, Structural)]
pub struct Link {
    null: bool,
    idx: usize,
    tag: usize,
}

impl Link {
    pub closed spec fn spec_null(self) -> bool {
        self.null
    }

    pub closed spec fn spec_idx(self) -> usize {
        self.idx
    }

    pub closed spec fn spec_tag(self) -> usize {
        self.tag
    }

    fn none() -> (l: Link)
        ensures
            l == (Link { null: true, idx: 0, tag: 0 }),
    {
        Link { null: true, idx: 0, tag: 0 }
    }

    fn at(i: usize) -> (l: Link)
        ensures
            l == (Link { null: false, idx: i, tag: 0 }),
    {
        Link { null: false, idx: i, tag: 0 }
    }

    fn is_null(&self) -> (r: bool)
        ensures
            r == self.spec_null(),
    {
        self.null
    }

    fn index(&self) -> (i: usize)
        ensures
            i == self.spec_idx(),
    {
        self.idx
    }
}

/// A tree node: its key, the index of its value, its subtree size, and the
/// links to its children.  Immutable once published.
#[derive(Clone, Copy)]
pub struct Node {
    key: u64,
    val: usize,
    size: usize,
    left: Link,
    right: Link,
}

/// The Bonsai tree: the node arena, the value arena, and the root link.
pub struct BonsaiTreeMap<V> {
    nodes: Vec<Node>,
    vals: Vec<V>,
    root: Link,
}

/// The measure that makes recursion over child links well-founded: children
/// always have smaller arena indices than their parent, because a node is
/// appended after the subtrees it points to.
pub open spec fn link_m(l: Link) -> int {
    if l.spec_null() {
        0
    } else {
        l.spec_idx() + 1
    }
}

/// `lo < k < hi`, with `None` as no bound.
pub open spec fn in_range(k: u64, lo: Option<u64>, hi: Option<u64>) -> bool {
    &&& match lo {
        Some(b) => b < k,
        None => true,
    }
    &&& match hi {
        Some(b) => k < hi.unwrap(),
        None => true,
    }
}

impl<V> BonsaiTreeMap<V> {
    /// The current root link.
    pub closed spec fn spec_root(self) -> Link {
        self.root
    }

    spec fn ns(self) -> Seq<Node> {
        self.nodes@
    }

    spec fn vs(self) -> Seq<V> {
        self.vals@
    }
}

/// Subtree size, guarded so the recursion is well-founded on the index.
pub closed spec fn tsize(ns: Seq<Node>, l: Link) -> nat
    decreases link_m(l),
{
    if l.spec_null() || l.spec_idx() >= ns.len() {
        0
    } else {
        let n = ns[l.spec_idx() as int];
        1 + (if n.left.spec_null() || n.left.spec_idx() < l.spec_idx() {
            tsize(ns, n.left)
        } else {
            0
        }) + (if n.right.spec_null() || n.right.spec_idx() < l.spec_idx() {
            tsize(ns, n.right)
        } else {
            0
        })
    }
}

/// The set of arena indices of a subtree.
pub closed spec fn tnodes(ns: Seq<Node>, l: Link) -> Set<int>
    decreases link_m(l),
{
    if l.spec_null() || l.spec_idx() >= ns.len() {
        Set::empty()
    } else {
        let n = ns[l.spec_idx() as int];
        let sl: Set<int> = if n.left.spec_null() || n.left.spec_idx() < l.spec_idx() {
            tnodes(ns, n.left)
        } else {
            Set::empty()
        };
        let sr: Set<int> = if n.right.spec_null() || n.right.spec_idx() < l.spec_idx() {
            tnodes(ns, n.right)
        } else {
            Set::empty()
        };
        sl.union(sr).insert(l.spec_idx() as int)
    }
}

/// The subtree as a map from keys to values.
pub closed spec fn tview<V>(ns: Seq<Node>, vs: Seq<V>, l: Link) -> Map<u64, V>
    decreases link_m(l),
{
    if l.spec_null() || l.spec_idx() >= ns.len() {
        Map::empty()
    } else {
        let n = ns[l.spec_idx() as int];
        let lm: Map<u64, V> = if n.left.spec_null() || n.left.spec_idx() < l.spec_idx() {
            tview(ns, vs, n.left)
        } else {
            Map::empty()
        };
        let rm: Map<u64, V> = if n.right.spec_null() || n.right.spec_idx() < l.spec_idx() {
            tview(ns, vs, n.right)
        } else {
            Map::empty()
        };
        if n.val < vs.len() {
            lm.union_prefer_right(rm).insert(n.key, vs[n.val as int])
        } else {
            lm.union_prefer_right(rm)
        }
    }
}

/// Well-formedness of a subtree within open key bounds: valid untagged
/// links, children at smaller indices, value indices in range, the search
/// order, and exact size accounting.
pub closed spec fn twf(ns: Seq<Node>, nv: nat, l: Link, lo: Option<u64>, hi: Option<u64>) -> bool
    decreases link_m(l),
{
    l.spec_tag() == 0 && (l.spec_null() || {
        let i = l.spec_idx();
        let n = ns[i as int];
        &&& i < ns.len()
        &&& in_range(n.key, lo, hi)
        &&& n.val < nv
        &&& (n.left.spec_null() || n.left.spec_idx() < i)
        &&& (n.right.spec_null() || n.right.spec_idx() < i)
        &&& twf(ns, nv, n.left, lo, Some(n.key))
        &&& twf(ns, nv, n.right, Some(n.key), hi)
        &&& n.size == tsize(ns, n.left) + tsize(ns, n.right) + 1
    })
}

/// The balance condition: at every node, neither child's size exceeds
/// `WEIGHT` times the other's (counting an empty child as one).
pub closed spec fn tbal(ns: Seq<Node>, l: Link) -> bool
    decreases link_m(l),
{
    if l.spec_null() || l.spec_idx() >= ns.len() {
        true
    } else {
        let n = ns[l.spec_idx() as int];
        let gl = n.left.spec_null() || n.left.spec_idx() < l.spec_idx();
        let gr = n.right.spec_null() || n.right.spec_idx() < l.spec_idx();
        let ls = if gl { tsize(ns, n.left) } else { 0 };
        let rs = if gr { tsize(ns, n.right) } else { 0 };
        &&& ls <= WEIGHT * (if rs >= 1 { rs } else { 1 })
        &&& rs <= WEIGHT * (if ls >= 1 { ls } else { 1 })
        &&& (if gl { tbal(ns, n.left) } else { true })
        &&& (if gr { tbal(ns, n.right) } else { true })
    }
}

/// Appending nodes or values never disturbs an existing subtree.
proof fn lemma_grow<V>(
    ns: Seq<Node>,
    vs: Seq<V>,
    ns2: Seq<Node>,
    vs2: Seq<V>,
    l: Link,
    lo: Option<u64>,
    hi: Option<u64>,
)
    requires
        twf(ns, vs.len() as nat, l, lo, hi),
        ns.len() <= ns2.len(),
        forall|j: int| 0 <= j < ns.len() ==> ns2[j] == ns[j],
        vs.len() <= vs2.len(),
        forall|j: int| 0 <= j < vs.len() ==> vs2[j] == vs[j],
    ensures
        twf(ns2, vs2.len() as nat, l, lo, hi),
        tsize(ns2, l) == tsize(ns, l),
        tnodes(ns2, l) == tnodes(ns, l),
        tview(ns2, vs2, l) == tview(ns, vs, l),
    decreases link_m(l),
{
    if !l.spec_null() {
        let n = ns[l.spec_idx() as int];
        lemma_grow(ns, vs, ns2, vs2, n.left, lo, Some(n.key));
        lemma_grow(ns, vs, ns2, vs2, n.right, Some(n.key), hi);
        assert(tnodes(ns2, l) =~= tnodes(ns, l));
        assert(tview(ns2, vs2, l) =~= tview(ns, vs, l));
    }
}

/// Every key of a well-formed subtree lies within its bounds, and the
/// subtree's node set is within the arena with exactly `tsize` members, one
/// per key.
proof fn lemma_tree_shape<V>(ns: Seq<Node>, vs: Seq<V>, l: Link, lo: Option<u64>, hi: Option<u64>)
    requires
        twf(ns, vs.len() as nat, l, lo, hi),
    ensures
        forall|k: u64| #[trigger] tview(ns, vs, l).contains_key(k) ==> in_range(k, lo, hi),
        forall|j: int| #[trigger] tnodes(ns, l).contains(j) ==> 0 <= j < ns.len(),
        forall|j: int| #[trigger] tnodes(ns, l).contains(j) ==> in_range(ns[j].key, lo, hi),
        tnodes(ns, l).finite(),
        tnodes(ns, l).len() == tsize(ns, l),
        tview(ns, vs, l).dom().finite(),
        tview(ns, vs, l).dom().len() == tsize(ns, l),
        !l.spec_null() ==> tnodes(ns, l).contains(l.spec_idx() as int),
        !l.spec_null() ==> tview(ns, vs, l).contains_key(ns[l.spec_idx() as int].key),
    decreases link_m(l),
{
    if !l.spec_null() {
        let i = l.spec_idx();
        let n = ns[i as int];
        lemma_tree_shape(ns, vs, n.left, lo, Some(n.key));
        lemma_tree_shape(ns, vs, n.right, Some(n.key), hi);
        let sl = tnodes(ns, n.left);
        let sr = tnodes(ns, n.right);
        assert forall|j: int| sl.contains(j) implies !sr.contains(j) by {
            assert(ns[j].key < n.key);
        }
        assert(sl.disjoint(sr));
        lemma_set_disjoint_lens(sl, sr);
        assert(sl.union(sr) == sl + sr);
        assert(!sl.union(sr).contains(i as int));
        assert(tnodes(ns, l) == sl.union(sr).insert(i as int));
        let ml = tview::<V>(ns, vs, n.left);
        let mr = tview::<V>(ns, vs, n.right);
        assert forall|k: u64| true implies (tview(ns, vs, l).contains_key(k) <==> ml.contains_key(
            k,
        ) || mr.contains_key(k) || k == n.key) by {}
        assert(tview(ns, vs, l).dom() =~= ml.dom().union(mr.dom()).insert(n.key));
        assert forall|k: u64| ml.dom().contains(k) implies !mr.dom().contains(k) by {}
        assert(ml.dom().disjoint(mr.dom()));
        lemma_set_disjoint_lens(ml.dom(), mr.dom());
        assert(ml.dom().union(mr.dom()) == ml.dom() + mr.dom());
        assert(!ml.dom().union(mr.dom()).contains(n.key));
    }
}

/// The sizes of two disjointly ranged subtrees fit in the arena count.
proof fn lemma_sizes_fit<V>(
    ns: Seq<Node>,
    vs: Seq<V>,
    left: Link,
    right: Link,
    k: u64,
    lo: Option<u64>,
    hi: Option<u64>,
)
    requires
        twf(ns, vs.len() as nat, left, lo, Some(k)),
        twf(ns, vs.len() as nat, right, Some(k), hi),
    ensures
        tsize(ns, left) + tsize(ns, right) < ns.len() + 1,
{
    lemma_tree_shape(ns, vs, left, lo, Some(k));
    lemma_tree_shape(ns, vs, right, Some(k), hi);
    let sl = tnodes(ns, left);
    let sr = tnodes(ns, right);
    assert forall|j: int| sl.contains(j) implies !sr.contains(j) by {
        assert(ns[j].key < k);
    }
    assert(sl.disjoint(sr));
    lemma_set_disjoint_lens(sl, sr);
    let all = set_int_range(0, ns.len() as int);
    lemma_int_range(0, ns.len() as int);
    assert(sl.union(sr) == sl + sr);
    assert(sl.union(sr).subset_of(all));
    lemma_len_subset(sl.union(sr), all);
}

impl Node {
    /// The retired sentinel: a null link carrying the retired tag.
    fn retired_node() -> (l: Link)
        ensures
            l.spec_null(),
            l.spec_tag() % 2 == 1,
    {
        Link { null: true, idx: 0, tag: Retired::new(true).bits() }
    }

    /// Whether a link carries the retired tag.
    fn is_retired(l: Link) -> (r: bool)
        ensures
            r == (l.spec_tag() % 2 == 1),
    {
        Retired::from_bits(l.tag).retired()
    }
}

impl<V> BonsaiTreeMap<V> {
    /// Whether this spot was part of a retired subtree: the link itself or
    /// either outgoing edge of its node carries the retired tag.  On a
    /// well-formed subtree the answer is always no.
    fn is_retired_spot(&self, l: Link) -> (r: bool)
        requires
            !l.spec_null() ==> l.spec_idx() < self.ns().len(),
        ensures
            r == (l.spec_tag() % 2 == 1 || (!l.spec_null() && (self.ns()[l.spec_idx() as int].left.spec_tag() % 2 == 1
                || self.ns()[l.spec_idx() as int].right.spec_tag() % 2 == 1))),
    {
        if Node::is_retired(l) {
            return true;
        }
        if !l.is_null() {
            let n = self.nodes[l.idx];
            Node::is_retired(n.left) || Node::is_retired(n.right)
        } else {
            false
        }
    }

    /// The stored size of a subtree, zero for null.
    fn node_size(
        &self,
        l: Link,
        Ghost(lo): Ghost<Option<u64>>,
        Ghost(hi): Ghost<Option<u64>>,
    ) -> (r: usize)
        requires
            twf(self.ns(), self.vs().len() as nat, l, lo, hi),
        ensures
            r == tsize(self.ns(), l),
    {
        if l.is_null() {
            0
        } else {
            self.nodes[l.idx].size
        }
    }

    /// Both outgoing links of the node at `i`.
    fn load_children(&self, i: usize) -> (r: (Link, Link))
        requires
            i < self.ns().len(),
        ensures
            r.0 == self.ns()[i as int].left,
            r.1 == self.ns()[i as int].right,
    {
        let n = self.nodes[i];
        (n.left, n.right)
    }
}

/// Splits a well-formed non-null subtree link into the facts about its node.
proof fn lemma_twf_unfold<V>(ns: Seq<Node>, vs: Seq<V>, l: Link, lo: Option<u64>, hi: Option<u64>)
    requires
        twf(ns, vs.len() as nat, l, lo, hi),
        !l.spec_null(),
    ensures
        l.spec_idx() < ns.len(),
        in_range(ns[l.spec_idx() as int].key, lo, hi),
        ns[l.spec_idx() as int].val < vs.len(),
        twf(ns, vs.len() as nat, ns[l.spec_idx() as int].left, lo, Some(
            ns[l.spec_idx() as int].key,
        )),
        twf(ns, vs.len() as nat, ns[l.spec_idx() as int].right, Some(
            ns[l.spec_idx() as int].key,
        ), hi),
        ns[l.spec_idx() as int].left.spec_null() || ns[l.spec_idx() as int].left.spec_idx()
            < l.spec_idx(),
        ns[l.spec_idx() as int].right.spec_null() || ns[l.spec_idx() as int].right.spec_idx()
            < l.spec_idx(),
        ns[l.spec_idx() as int].size == tsize(ns, ns[l.spec_idx() as int].left) + tsize(
            ns,
            ns[l.spec_idx() as int].right,
        ) + 1,
        tsize(ns, l) == ns[l.spec_idx() as int].size,
        tview(ns, vs, l) == tview(ns, vs, ns[l.spec_idx() as int].left).union_prefer_right(
            tview(ns, vs, ns[l.spec_idx() as int].right),
        ).insert(ns[l.spec_idx() as int].key, vs[ns[l.spec_idx() as int].val as int]),
        ns[l.spec_idx() as int].left.spec_tag() == 0,
        ns[l.spec_idx() as int].right.spec_tag() == 0,
{
}

/// A caller-owned local state for one rebuilding operation: the root the
/// operation started from and the value it pulled out, if any.
pub struct State {
    root: Link,
    found: Option<usize>,
}

impl State {
    fn new(root: Link) -> (s: State)
        ensures
            s.root == root,
            s.found is None,
    {
        State { root, found: None }
    }

    pub closed spec fn spec_root(self) -> Link {
        self.root
    }

    pub closed spec fn spec_found(self) -> Option<usize> {
        self.found
    }

    /// Whether the root this operation started from is still the live root:
    /// a rebuild whose observations span a committed reconstruction must
    /// abort.
    pub fn check_root<V>(&self, t: &BonsaiTreeMap<V>) -> (r: bool)
        ensures
            r == (self.spec_root() == t.spec_root()),
    {
        self.root == t.root
    }

    /// Builds a node over two subtrees, sharing them, and computes its size.
    #[verifier::rlimit(100)]
    fn mk_node<V>(
        &mut self,
        t: &mut BonsaiTreeMap<V>,
        left: Link,
        right: Link,
        key: u64,
        vidx: usize,
        Ghost(lo): Ghost<Option<u64>>,
        Ghost(hi): Ghost<Option<u64>>,
    ) -> (r: Link)
        requires
            twf(old(t).ns(), old(t).vs().len() as nat, left, lo, Some(key)),
            twf(old(t).ns(), old(t).vs().len() as nat, right, Some(key), hi),
            in_range(key, lo, hi),
            vidx < old(t).vs().len(),
        ensures
            *final(self) == *old(self),
            final(t).vs() == old(t).vs(),
            final(t).root == old(t).root,
            final(t).ns().len() >= old(t).ns().len(),
            forall|j: int| 0 <= j < old(t).ns().len() ==> final(t).ns()[j] == old(t).ns()[j],
            twf(final(t).ns(), final(t).vs().len() as nat, r, lo, hi),
            !r.spec_null(),
            r.spec_idx() < final(t).ns().len(),
            final(t).ns()[r.spec_idx() as int].key == key,
            final(t).ns()[r.spec_idx() as int].val == vidx,
            tview(final(t).ns(), final(t).vs(), r) == tview(old(t).ns(), old(t).vs(),
                left,
            ).union_prefer_right(tview(old(t).ns(), old(t).vs(), right)).insert(
                key,
                old(t).vs()[vidx as int],
            ),
            tsize(final(t).ns(), r) == tsize(old(t).ns(), left) + tsize(old(t).ns(), right)
                + 1,
    {
        proof {
            if !left.spec_null() {
                lemma_twf_unfold(t.ns(), t.vs(), left, lo, Some(key));
            }
            if !right.spec_null() {
                lemma_twf_unfold(t.ns(), t.vs(), right, Some(key), hi);
            }
        }
        if t.is_retired_spot(left) || t.is_retired_spot(right) {
            return Node::retired_node();
        }
        let ls = t.node_size(left, Ghost(lo), Ghost(Some(key)));
        let rs = t.node_size(right, Ghost(Some(key)), Ghost(hi));
        proof {
            lemma_sizes_fit(t.ns(), t.vs(), left, right, key, lo, hi);
        }
        let n_idx = t.nodes.len();
        let sz = ls + rs;
        t.nodes.push(Node { key, val: vidx, size: sz, left, right });
        // the full size is set after the push, whose success bounds it
        let new_len = t.nodes.len();
        proof {
            assert(sz < new_len);
        }
        let full = sz + 1;
        t.nodes[n_idx].size = full;
        proof {
            lemma_grow(old(t).ns(), old(t).vs(), t.ns(), t.vs(), left, lo, Some(key));
            lemma_grow(old(t).ns(), old(t).vs(), t.ns(), t.vs(), right, Some(key), hi);
            assert(twf(t.ns(), t.vs().len() as nat, Link { null: false, idx: n_idx, tag: 0 },
                lo, hi));
            assert(tview(t.ns(), t.vs(), Link { null: false, idx: n_idx, tag: 0 }) =~= tview(
                old(t).ns(),
                old(t).vs(),
                left,
            ).union_prefer_right(tview(old(t).ns(), old(t).vs(), right)).insert(
                key,
                old(t).vs()[vidx as int],
            ));
        }
        Link::at(n_idx)
    }
}

impl State {
    /// Rebalances the subtree rooted at `cur` over freshly built children.
    /// When one side outweighs the other beyond the weight bound, a single
    /// or double rotation restores the balance; the map and the size are
    /// those of a plain node over the same children.
    #[verifier::rlimit(100)]
    fn mk_balanced<V>(
        &mut self,
        t: &mut BonsaiTreeMap<V>,
        cur: Link,
        left: Link,
        right: Link,
        Ghost(lo): Ghost<Option<u64>>,
        Ghost(hi): Ghost<Option<u64>>,
    ) -> (r: Link)
        requires
            !cur.spec_null(),
            cur.spec_tag() == 0,
            cur.spec_idx() < old(t).ns().len(),
            old(t).ns()[cur.spec_idx() as int].val < old(t).vs().len(),
            old(t).ns()[cur.spec_idx() as int].left.spec_tag() == 0,
            old(t).ns()[cur.spec_idx() as int].right.spec_tag() == 0,
            in_range(old(t).ns()[cur.spec_idx() as int].key, lo, hi),
            twf(old(t).ns(), old(t).vs().len() as nat, left, lo, Some(
                old(t).ns()[cur.spec_idx() as int].key,
            )),
            twf(old(t).ns(), old(t).vs().len() as nat, right, Some(
                old(t).ns()[cur.spec_idx() as int].key,
            ), hi),
            old(self).root == old(t).root,
        ensures
            *final(self) == *old(self),
            final(t).vs() == old(t).vs(),
            final(t).root == old(t).root,
            final(t).ns().len() >= old(t).ns().len(),
            forall|j: int| 0 <= j < old(t).ns().len() ==> final(t).ns()[j] == old(t).ns()[j],
            twf(final(t).ns(), final(t).vs().len() as nat, r, lo, hi),
            !r.spec_null(),
            tview(final(t).ns(), final(t).vs(), r) == tview(old(t).ns(), old(t).vs(),
                left,
            ).union_prefer_right(tview(old(t).ns(), old(t).vs(), right)).insert(
                old(t).ns()[cur.spec_idx() as int].key,
                old(t).vs()[old(t).ns()[cur.spec_idx() as int].val as int],
            ),
            tsize(final(t).ns(), r) == tsize(old(t).ns(), left) + tsize(old(t).ns(), right)
                + 1,
    {
        proof {
            if !left.spec_null() {
                lemma_twf_unfold(t.ns(), t.vs(), left, lo, Some(
                    t.ns()[cur.spec_idx() as int].key,
                ));
            }
            if !right.spec_null() {
                lemma_twf_unfold(t.ns(), t.vs(), right, Some(
                    t.ns()[cur.spec_idx() as int].key,
                ), hi);
            }
        }
        if t.is_retired_spot(cur) || t.is_retired_spot(left) || t.is_retired_spot(right) {
            return Node::retired_node();
        }
        let cur_node = t.nodes[cur.index()];
        let key = cur_node.key;
        let vidx = cur_node.val;
        let ghost kb: Option<u64> = Some(key);
        let l_size = t.node_size(left, Ghost(lo), Ghost(kb));
        let r_size = t.node_size(right, Ghost(kb), Ghost(hi));
        // the products are widened so they cannot wrap
        if r_size > 0 && ((l_size > 0 && (r_size as u128) > (WEIGHT as u128) * (l_size as u128))
            || (l_size == 0 && r_size > WEIGHT)) {
            self.mk_balanced_left(t, left, right, key, vidx, Ghost(lo), Ghost(hi))
        } else if l_size > 0 && ((r_size > 0 && (l_size as u128) > (WEIGHT as u128) * (
        r_size as u128)) || (r_size == 0 && l_size > WEIGHT)) {
            self.mk_balanced_right(t, left, right, key, vidx, Ghost(lo), Ghost(hi))
        } else {
            self.mk_node(t, left, right, key, vidx, Ghost(lo), Ghost(hi))
        }
    }

    /// The right side is too heavy: rotate left, singly or doubly depending
    /// on which grandchild carries the weight.
    #[verifier::rlimit(100)]
    fn mk_balanced_left<V>(
        &mut self,
        t: &mut BonsaiTreeMap<V>,
        left: Link,
        right: Link,
        key: u64,
        vidx: usize,
        Ghost(lo): Ghost<Option<u64>>,
        Ghost(hi): Ghost<Option<u64>>,
    ) -> (r: Link)
        requires
            twf(old(t).ns(), old(t).vs().len() as nat, left, lo, Some(key)),
            twf(old(t).ns(), old(t).vs().len() as nat, right, Some(key), hi),
            in_range(key, lo, hi),
            vidx < old(t).vs().len(),
            tsize(old(t).ns(), right) >= 3,
            old(self).root == old(t).root,
        ensures
            *final(self) == *old(self),
            final(t).vs() == old(t).vs(),
            final(t).root == old(t).root,
            final(t).ns().len() >= old(t).ns().len(),
            forall|j: int| 0 <= j < old(t).ns().len() ==> final(t).ns()[j] == old(t).ns()[j],
            twf(final(t).ns(), final(t).vs().len() as nat, r, lo, hi),
            !r.spec_null(),
            tview(final(t).ns(), final(t).vs(), r) == tview(old(t).ns(), old(t).vs(),
                left,
            ).union_prefer_right(tview(old(t).ns(), old(t).vs(), right)).insert(
                key,
                old(t).vs()[vidx as int],
            ),
            tsize(final(t).ns(), r) == tsize(old(t).ns(), left) + tsize(old(t).ns(), right)
                + 1,
    {
        proof {
            lemma_twf_unfold(t.ns(), t.vs(), right, Some(key), hi);
        }
        let right_node = t.nodes[right.index()];
        let (right_left, right_right) = t.load_children(right.index());
        let ghost rk = right_node.key;
        proof {
            if !right_left.spec_null() {
                lemma_twf_unfold(t.ns(), t.vs(), right_left, Some(key), Some(rk));
            }
            if !right_right.spec_null() {
                lemma_twf_unfold(t.ns(), t.vs(), right_right, Some(rk), hi);
            }
        }
        if !self.check_root(t) || t.is_retired_spot(right_left) || t.is_retired_spot(
            right_right,
        ) {
            return Node::retired_node();
        }
        if t.node_size(right_left, Ghost(Some(key)), Ghost(Some(rk))) < t.node_size(
            right_right,
            Ghost(Some(rk)),
            Ghost(hi),
        ) {
            // single left rotation
            self.single_left(t, left, right, right_left, right_right, key, vidx, Ghost(lo),
                Ghost(hi))
        } else {
            // double left rotation
            self.double_left(t, left, right, right_left, right_right, key, vidx, Ghost(lo),
                Ghost(hi))
        }
    }

    /// Single left rotation: the right child becomes the root of the rebuilt
    /// subtree.
    #[verifier::rlimit(100)]
    fn single_left<V>(
        &mut self,
        t: &mut BonsaiTreeMap<V>,
        left: Link,
        right: Link,
        right_left: Link,
        right_right: Link,
        key: u64,
        vidx: usize,
        Ghost(lo): Ghost<Option<u64>>,
        Ghost(hi): Ghost<Option<u64>>,
    ) -> (r: Link)
        requires
            twf(old(t).ns(), old(t).vs().len() as nat, left, lo, Some(key)),
            twf(old(t).ns(), old(t).vs().len() as nat, right, Some(key), hi),
            in_range(key, lo, hi),
            vidx < old(t).vs().len(),
            !right.spec_null(),
            right_left == old(t).ns()[right.spec_idx() as int].left,
            right_right == old(t).ns()[right.spec_idx() as int].right,
            old(self).root == old(t).root,
        ensures
            *final(self) == *old(self),
            final(t).vs() == old(t).vs(),
            final(t).root == old(t).root,
            final(t).ns().len() >= old(t).ns().len(),
            forall|j: int| 0 <= j < old(t).ns().len() ==> final(t).ns()[j] == old(t).ns()[j],
            twf(final(t).ns(), final(t).vs().len() as nat, r, lo, hi),
            !r.spec_null(),
            tview(final(t).ns(), final(t).vs(), r) == tview(old(t).ns(), old(t).vs(),
                left,
            ).union_prefer_right(tview(old(t).ns(), old(t).vs(), right)).insert(
                key,
                old(t).vs()[vidx as int],
            ),
            tsize(final(t).ns(), r) == tsize(old(t).ns(), left) + tsize(old(t).ns(), right)
                + 1,
    {
        proof {
            lemma_twf_unfold(t.ns(), t.vs(), right, Some(key), hi);
        }
        let right_node = t.nodes[right.index()];
        let rk = right_node.key;
        let rv = right_node.val;
        let ghost t0 = *t;
        let new_left = self.mk_node(t, left, right_left, key, vidx, Ghost(lo), Ghost(
            Some(rk),
        ));
        proof {
            lemma_grow(t0.ns(), t0.vs(), t.ns(), t.vs(), right_right, Some(rk), hi);
        }
        let r = self.mk_node(t, new_left, right_right, rk, rv, Ghost(lo), Ghost(hi));
        proof {
            lemma_tree_shape(t0.ns(), t0.vs(), left, lo, Some(key));
            lemma_tree_shape(t0.ns(), t0.vs(), right_left, Some(key), Some(rk));
            lemma_tree_shape(t0.ns(), t0.vs(), right_right, Some(rk), hi);
            let vl = tview(t0.ns(), t0.vs(), left);
            let vrl = tview(t0.ns(), t0.vs(), right_left);
            let vrr = tview(t0.ns(), t0.vs(), right_right);
            let vv = t0.vs()[vidx as int];
            let rvv = t0.vs()[rv as int];
            assert(tview(t.ns(), t.vs(), r) =~= vl.union_prefer_right(
                vrl.union_prefer_right(vrr).insert(rk, rvv),
            ).insert(key, vv));
        }
        r
    }

    /// Double left rotation: a right rotation at the right child, then a
    /// left rotation here; the right child's left child becomes the root of
    /// the rebuilt subtree.
    #[verifier::rlimit(100)]
    fn double_left<V>(
        &mut self,
        t: &mut BonsaiTreeMap<V>,
        left: Link,
        right: Link,
        right_left: Link,
        right_right: Link,
        key: u64,
        vidx: usize,
        Ghost(lo): Ghost<Option<u64>>,
        Ghost(hi): Ghost<Option<u64>>,
    ) -> (r: Link)
        requires
            twf(old(t).ns(), old(t).vs().len() as nat, left, lo, Some(key)),
            twf(old(t).ns(), old(t).vs().len() as nat, right, Some(key), hi),
            in_range(key, lo, hi),
            vidx < old(t).vs().len(),
            !right.spec_null(),
            right_left == old(t).ns()[right.spec_idx() as int].left,
            right_right == old(t).ns()[right.spec_idx() as int].right,
            !right_left.spec_null(),
            old(self).root == old(t).root,
        ensures
            *final(self) == *old(self),
            final(t).vs() == old(t).vs(),
            final(t).root == old(t).root,
            final(t).ns().len() >= old(t).ns().len(),
            forall|j: int| 0 <= j < old(t).ns().len() ==> final(t).ns()[j] == old(t).ns()[j],
            twf(final(t).ns(), final(t).vs().len() as nat, r, lo, hi),
            !r.spec_null(),
            tview(final(t).ns(), final(t).vs(), r) == tview(old(t).ns(), old(t).vs(),
                left,
            ).union_prefer_right(tview(old(t).ns(), old(t).vs(), right)).insert(
                key,
                old(t).vs()[vidx as int],
            ),
            tsize(final(t).ns(), r) == tsize(old(t).ns(), left) + tsize(old(t).ns(), right)
                + 1,
    {
        proof {
            lemma_twf_unfold(t.ns(), t.vs(), right, Some(key), hi);
        }
        let right_node = t.nodes[right.index()];
        let rk = right_node.key;
        let rv = right_node.val;
        proof {
            lemma_twf_unfold(t.ns(), t.vs(), right_left, Some(key), Some(rk));
        }
        let right_left_node = t.nodes[right_left.index()];
        let rlk = right_left_node.key;
        let rlv = right_left_node.val;
        let (right_left_left, right_left_right) = t.load_children(right_left.index());
        proof {
            if !right_left_left.spec_null() {
                lemma_twf_unfold(t.ns(), t.vs(), right_left_left, Some(key), Some(rlk));
            }
            if !right_left_right.spec_null() {
                lemma_twf_unfold(t.ns(), t.vs(), right_left_right, Some(rlk), Some(rk));
            }
        }
        if !self.check_root(t) || t.is_retired_spot(right_left_left) || t.is_retired_spot(
            right_left_right,
        ) {
            return Node::retired_node();
        }
        let ghost t0 = *t;
        let new_left = self.mk_node(t, left, right_left_left, key, vidx, Ghost(lo), Ghost(
            Some(rlk),
        ));
        proof {
            lemma_grow(t0.ns(), t0.vs(), t.ns(), t.vs(), right_left_right, Some(rlk), Some(
                rk,
            ));
            lemma_grow(t0.ns(), t0.vs(), t.ns(), t.vs(), right_right, Some(rk), hi);
        }
        let ghost t1 = *t;
        let new_right = self.mk_node(t, right_left_right, right_right, rk, rv, Ghost(
            Some(rlk),
        ), Ghost(hi));
        proof {
            lemma_grow(t1.ns(), t1.vs(), t.ns(), t.vs(), new_left, lo, Some(rlk));
        }
        let r = self.mk_node(t, new_left, new_right, rlk, rlv, Ghost(lo), Ghost(hi));
        proof {
            lemma_tree_shape(t0.ns(), t0.vs(), left, lo, Some(key));
            lemma_tree_shape(t0.ns(), t0.vs(), right_left_left, Some(key), Some(rlk));
            lemma_tree_shape(t0.ns(), t0.vs(), right_left_right, Some(rlk), Some(rk));
            lemma_tree_shape(t0.ns(), t0.vs(), right_right, Some(rk), hi);
            let vl = tview(t0.ns(), t0.vs(), left);
            let vrll = tview(t0.ns(), t0.vs(), right_left_left);
            let vrlr = tview(t0.ns(), t0.vs(), right_left_right);
            let vrr = tview(t0.ns(), t0.vs(), right_right);
            let vv = t0.vs()[vidx as int];
            assert(tview(t.ns(), t.vs(), r) =~= vl.union_prefer_right(
                vrll.union_prefer_right(vrlr).insert(rlk, t0.vs()[rlv as int],
                ).union_prefer_right(vrr).insert(rk, t0.vs()[rv as int]),
            ).insert(key, vv));
        }
        r
    }

    /// The left side is too heavy: rotate right, singly or doubly.
    #[verifier::rlimit(100)]
    fn mk_balanced_right<V>(
        &mut self,
        t: &mut BonsaiTreeMap<V>,
        left: Link,
        right: Link,
        key: u64,
        vidx: usize,
        Ghost(lo): Ghost<Option<u64>>,
        Ghost(hi): Ghost<Option<u64>>,
    ) -> (r: Link)
        requires
            twf(old(t).ns(), old(t).vs().len() as nat, left, lo, Some(key)),
            twf(old(t).ns(), old(t).vs().len() as nat, right, Some(key), hi),
            in_range(key, lo, hi),
            vidx < old(t).vs().len(),
            tsize(old(t).ns(), left) >= 3,
            old(self).root == old(t).root,
        ensures
            *final(self) == *old(self),
            final(t).vs() == old(t).vs(),
            final(t).root == old(t).root,
            final(t).ns().len() >= old(t).ns().len(),
            forall|j: int| 0 <= j < old(t).ns().len() ==> final(t).ns()[j] == old(t).ns()[j],
            twf(final(t).ns(), final(t).vs().len() as nat, r, lo, hi),
            !r.spec_null(),
            tview(final(t).ns(), final(t).vs(), r) == tview(old(t).ns(), old(t).vs(),
                left,
            ).union_prefer_right(tview(old(t).ns(), old(t).vs(), right)).insert(
                key,
                old(t).vs()[vidx as int],
            ),
            tsize(final(t).ns(), r) == tsize(old(t).ns(), left) + tsize(old(t).ns(), right)
                + 1,
    {
        proof {
            lemma_twf_unfold(t.ns(), t.vs(), left, lo, Some(key));
        }
        let left_node = t.nodes[left.index()];
        let (left_left, left_right) = t.load_children(left.index());
        let ghost lk = left_node.key;
        proof {
            if !left_left.spec_null() {
                lemma_twf_unfold(t.ns(), t.vs(), left_left, lo, Some(lk));
            }
            if !left_right.spec_null() {
                lemma_twf_unfold(t.ns(), t.vs(), left_right, Some(lk), Some(key));
            }
        }
        if !self.check_root(t) || t.is_retired_spot(left_right) || t.is_retired_spot(
            left_left,
        ) {
            return Node::retired_node();
        }
        if t.node_size(left_right, Ghost(Some(lk)), Ghost(Some(key))) < t.node_size(
            left_left,
            Ghost(lo),
            Ghost(Some(lk)),
        ) {
            // single right rotation
            self.single_right(t, left, right, left_right, left_left, key, vidx, Ghost(lo),
                Ghost(hi))
        } else {
            // double right rotation
            self.double_right(t, left, right, left_right, left_left, key, vidx, Ghost(lo),
                Ghost(hi))
        }
    }

    /// Single right rotation: the left child becomes the root of the rebuilt
    /// subtree.
    #[verifier::rlimit(100)]
    fn single_right<V>(
        &mut self,
        t: &mut BonsaiTreeMap<V>,
        left: Link,
        right: Link,
        left_right: Link,
        left_left: Link,
        key: u64,
        vidx: usize,
        Ghost(lo): Ghost<Option<u64>>,
        Ghost(hi): Ghost<Option<u64>>,
    ) -> (r: Link)
        requires
            twf(old(t).ns(), old(t).vs().len() as nat, left, lo, Some(key)),
            twf(old(t).ns(), old(t).vs().len() as nat, right, Some(key), hi),
            in_range(key, lo, hi),
            vidx < old(t).vs().len(),
            !left.spec_null(),
            left_right == old(t).ns()[left.spec_idx() as int].right,
            left_left == old(t).ns()[left.spec_idx() as int].left,
            old(self).root == old(t).root,
        ensures
            *final(self) == *old(self),
            final(t).vs() == old(t).vs(),
            final(t).root == old(t).root,
            final(t).ns().len() >= old(t).ns().len(),
            forall|j: int| 0 <= j < old(t).ns().len() ==> final(t).ns()[j] == old(t).ns()[j],
            twf(final(t).ns(), final(t).vs().len() as nat, r, lo, hi),
            !r.spec_null(),
            tview(final(t).ns(), final(t).vs(), r) == tview(old(t).ns(), old(t).vs(),
                left,
            ).union_prefer_right(tview(old(t).ns(), old(t).vs(), right)).insert(
                key,
                old(t).vs()[vidx as int],
            ),
            tsize(final(t).ns(), r) == tsize(old(t).ns(), left) + tsize(old(t).ns(), right)
                + 1,
    {
        proof {
            lemma_twf_unfold(t.ns(), t.vs(), left, lo, Some(key));
        }
        let left_node = t.nodes[left.index()];
        let lk = left_node.key;
        let lv = left_node.val;
        let ghost t0 = *t;
        let new_right = self.mk_node(t, left_right, right, key, vidx, Ghost(Some(lk)), Ghost(
            hi,
        ));
        proof {
            lemma_grow(t0.ns(), t0.vs(), t.ns(), t.vs(), left_left, lo, Some(lk));
        }
        let r = self.mk_node(t, left_left, new_right, lk, lv, Ghost(lo), Ghost(hi));
        proof {
            lemma_tree_shape(t0.ns(), t0.vs(), left_left, lo, Some(lk));
            lemma_tree_shape(t0.ns(), t0.vs(), left_right, Some(lk), Some(key));
            lemma_tree_shape(t0.ns(), t0.vs(), right, Some(key), hi);
            let vll = tview(t0.ns(), t0.vs(), left_left);
            let vlr = tview(t0.ns(), t0.vs(), left_right);
            let vr = tview(t0.ns(), t0.vs(), right);
            let vv = t0.vs()[vidx as int];
            assert(tview(t.ns(), t.vs(), r) =~= vll.union_prefer_right(vlr).insert(
                lk,
                t0.vs()[lv as int],
            ).union_prefer_right(vr).insert(key, vv));
        }
        r
    }

    /// Double right rotation: a left rotation at the left child, then a
    /// right rotation here.
    #[verifier::rlimit(100)]
    fn double_right<V>(
        &mut self,
        t: &mut BonsaiTreeMap<V>,
        left: Link,
        right: Link,
        left_right: Link,
        left_left: Link,
        key: u64,
        vidx: usize,
        Ghost(lo): Ghost<Option<u64>>,
        Ghost(hi): Ghost<Option<u64>>,
    ) -> (r: Link)
        requires
            twf(old(t).ns(), old(t).vs().len() as nat, left, lo, Some(key)),
            twf(old(t).ns(), old(t).vs().len() as nat, right, Some(key), hi),
            in_range(key, lo, hi),
            vidx < old(t).vs().len(),
            !left.spec_null(),
            left_right == old(t).ns()[left.spec_idx() as int].right,
            left_left == old(t).ns()[left.spec_idx() as int].left,
            !left_right.spec_null(),
            old(self).root == old(t).root,
        ensures
            *final(self) == *old(self),
            final(t).vs() == old(t).vs(),
            final(t).root == old(t).root,
            final(t).ns().len() >= old(t).ns().len(),
            forall|j: int| 0 <= j < old(t).ns().len() ==> final(t).ns()[j] == old(t).ns()[j],
            twf(final(t).ns(), final(t).vs().len() as nat, r, lo, hi),
            !r.spec_null(),
            tview(final(t).ns(), final(t).vs(), r) == tview(old(t).ns(), old(t).vs(),
                left,
            ).union_prefer_right(tview(old(t).ns(), old(t).vs(), right)).insert(
                key,
                old(t).vs()[vidx as int],
            ),
            tsize(final(t).ns(), r) == tsize(old(t).ns(), left) + tsize(old(t).ns(), right)
                + 1,
    {
        proof {
            lemma_twf_unfold(t.ns(), t.vs(), left, lo, Some(key));
        }
        let left_node = t.nodes[left.index()];
        let lk = left_node.key;
        let lv = left_node.val;
        proof {
            lemma_twf_unfold(t.ns(), t.vs(), left_right, Some(lk), Some(key));
        }
        let left_right_node = t.nodes[left_right.index()];
        let lrk = left_right_node.key;
        let lrv = left_right_node.val;
        let (left_right_left, left_right_right) = t.load_children(left_right.index());
        proof {
            if !left_right_left.spec_null() {
                lemma_twf_unfold(t.ns(), t.vs(), left_right_left, Some(lk), Some(lrk));
            }
            if !left_right_right.spec_null() {
                lemma_twf_unfold(t.ns(), t.vs(), left_right_right, Some(lrk), Some(key));
            }
        }
        if !self.check_root(t) || t.is_retired_spot(left_right_left) || t.is_retired_spot(
            left_right_right,
        ) {
            return Node::retired_node();
        }
        let ghost t0 = *t;
        let new_left = self.mk_node(t, left_left, left_right_left, lk, lv, Ghost(lo), Ghost(
            Some(lrk),
        ));
        proof {
            lemma_grow(t0.ns(), t0.vs(), t.ns(), t.vs(), left_right_right, Some(lrk), Some(
                key,
            ));
            lemma_grow(t0.ns(), t0.vs(), t.ns(), t.vs(), right, Some(key), hi);
        }
        let ghost t1 = *t;
        let new_right = self.mk_node(t, left_right_right, right, key, vidx, Ghost(Some(lrk)),
            Ghost(hi));
        proof {
            lemma_grow(t1.ns(), t1.vs(), t.ns(), t.vs(), new_left, lo, Some(lrk));
        }
        let r = self.mk_node(t, new_left, new_right, lrk, lrv, Ghost(lo), Ghost(hi));
        proof {
            lemma_tree_shape(t0.ns(), t0.vs(), left_left, lo, Some(lk));
            lemma_tree_shape(t0.ns(), t0.vs(), left_right_left, Some(lk), Some(lrk));
            lemma_tree_shape(t0.ns(), t0.vs(), left_right_right, Some(lrk), Some(key));
            lemma_tree_shape(t0.ns(), t0.vs(), right, Some(key), hi);
            let vll = tview(t0.ns(), t0.vs(), left_left);
            let vlrl = tview(t0.ns(), t0.vs(), left_right_left);
            let vlrr = tview(t0.ns(), t0.vs(), left_right_right);
            let vr = tview(t0.ns(), t0.vs(), right);
            let vv = t0.vs()[vidx as int];
            assert(tview(t.ns(), t.vs(), r) =~= vll.union_prefer_right(vlrl).insert(
                lk,
                t0.vs()[lv as int],
            ).union_prefer_right(vlrr.union_prefer_right(vr).insert(key, vv)).insert(
                lrk,
                t0.vs()[lrv as int],
            ));
        }
        r
    }
}

/// A subtree well-formed within tight bounds is well-formed within any
/// looser bounds.
proof fn lemma_widen<V>(
    ns: Seq<Node>,
    vs: Seq<V>,
    l: Link,
    lo: Option<u64>,
    hi: Option<u64>,
    lo2: Option<u64>,
    hi2: Option<u64>,
)
    requires
        twf(ns, vs.len() as nat, l, lo, hi),
        forall|k: u64| in_range(k, lo, hi) ==> in_range(k, lo2, hi2),
    ensures
        twf(ns, vs.len() as nat, l, lo2, hi2),
    decreases link_m(l),
{
    if !l.spec_null() {
        let n = ns[l.spec_idx() as int];
        assert forall|k: u64| in_range(k, lo, Some(n.key)) implies in_range(
            k,
            lo2,
            Some(n.key),
        ) by {
            assert(in_range(k, lo, hi));
        }
        assert forall|k: u64| in_range(k, Some(n.key), hi) implies in_range(
            k,
            Some(n.key),
            hi2,
        ) by {
            assert(in_range(k, lo, hi));
        }
        lemma_widen(ns, vs, n.left, lo, Some(n.key), lo2, Some(n.key));
        lemma_widen(ns, vs, n.right, Some(n.key), hi, Some(n.key), hi2);
    }
}

impl State {
    /// Recursive insert: rebuilds the path to the key's position, sharing
    /// every untouched subtree, and reports whether the key was new.
    #[verifier::rlimit(100)]
    fn do_insert<V>(
        &mut self,
        t: &mut BonsaiTreeMap<V>,
        node: Link,
        key: u64,
        vidx: usize,
        Ghost(lo): Ghost<Option<u64>>,
        Ghost(hi): Ghost<Option<u64>>,
    ) -> (r: (Link, bool))
        requires
            twf(old(t).ns(), old(t).vs().len() as nat, node, lo, hi),
            in_range(key, lo, hi),
            vidx < old(t).vs().len(),
            old(self).root == old(t).root,
        ensures
            *final(self) == *old(self),
            final(t).vs() == old(t).vs(),
            final(t).root == old(t).root,
            final(t).ns().len() >= old(t).ns().len(),
            forall|j: int| 0 <= j < old(t).ns().len() ==> final(t).ns()[j] == old(t).ns()[j],
            twf(final(t).ns(), final(t).vs().len() as nat, r.0, lo, hi),
            r.1 == !tview(old(t).ns(), old(t).vs(), node).contains_key(key),
            r.1 ==> tview(final(t).ns(), final(t).vs(), r.0) == tview(old(t).ns(), old(t).vs(), node).insert(key, old(t).vs()[vidx as int]),
            !r.1 ==> tview(final(t).ns(), final(t).vs(), r.0) == tview(old(t).ns(), old(t).vs(), node),
            r.1 ==> tsize(final(t).ns(), r.0) == tsize(old(t).ns(), node) + 1,
            !r.1 ==> tsize(final(t).ns(), r.0) == tsize(old(t).ns(), node),
        decreases link_m(node),
    {
        proof {
            if !node.spec_null() {
                lemma_twf_unfold(t.ns(), t.vs(), node, lo, hi);
            }
        }
        if t.is_retired_spot(node) {
            return (Node::retired_node(), false);
        }
        if node.is_null() {
            let r = self.mk_node(t, Link::none(), Link::none(), key, vidx, Ghost(lo), Ghost(
                hi,
            ));
            proof {
                assert(tview(old(t).ns(), old(t).vs(), node) =~= Map::<u64, V>::empty());
                assert(tview(t.ns(), t.vs(), r) =~= tview(old(t).ns(), old(t).vs(),
                    node,
                ).insert(key, old(t).vs()[vidx as int]));
            }
            return (r, true);
        }
        let node_ref = t.nodes[node.index()];
        let (left, right) = t.load_children(node.index());
        let ghost nk = node_ref.key;
        proof {
            if !left.spec_null() {
                lemma_twf_unfold(t.ns(), t.vs(), left, lo, Some(nk));
            }
            if !right.spec_null() {
                lemma_twf_unfold(t.ns(), t.vs(), right, Some(nk), hi);
            }
        }
        if !self.check_root(t) || t.is_retired_spot(left) || t.is_retired_spot(right) {
            return (Node::retired_node(), false);
        }
        let ghost t0 = *t;
        proof {
            lemma_tree_shape(t0.ns(), t0.vs(), left, lo, Some(nk));
            lemma_tree_shape(t0.ns(), t0.vs(), right, Some(nk), hi);
        }
        if node_ref.key == key {
            (node, false)
        } else if node_ref.key < key {
            let (new_right, inserted) = self.do_insert(t, right, key, vidx, Ghost(
                Some(nk),
            ), Ghost(hi));
            proof {
                lemma_grow(t0.ns(), t0.vs(), t.ns(), t.vs(), left, lo, Some(nk));
            }
            let r = self.mk_balanced(t, node, left, new_right, Ghost(lo), Ghost(hi));
            proof {
                let vl = tview(t0.ns(), t0.vs(), left);
                let vr = tview(t0.ns(), t0.vs(), right);
                let nv = t0.vs()[t0.ns()[node.spec_idx() as int].val as int];
                if inserted {
                    assert(tview(t.ns(), t.vs(), r) =~= vl.union_prefer_right(vr).insert(
                        nk,
                        nv,
                    ).insert(key, t0.vs()[vidx as int]));
                } else {
                    assert(tview(t.ns(), t.vs(), r) =~= vl.union_prefer_right(vr).insert(
                        nk,
                        nv,
                    ));
                }
            }
            (r, inserted)
        } else {
            let (new_left, inserted) = self.do_insert(t, left, key, vidx, Ghost(lo), Ghost(
                Some(nk),
            ));
            proof {
                lemma_grow(t0.ns(), t0.vs(), t.ns(), t.vs(), right, Some(nk), hi);
            }
            let r = self.mk_balanced(t, node, new_left, right, Ghost(lo), Ghost(hi));
            proof {
                let vl = tview(t0.ns(), t0.vs(), left);
                let vr = tview(t0.ns(), t0.vs(), right);
                let nv = t0.vs()[t0.ns()[node.spec_idx() as int].val as int];
                if inserted {
                    assert(tview(t.ns(), t.vs(), r) =~= vl.union_prefer_right(vr).insert(
                        nk,
                        nv,
                    ).insert(key, t0.vs()[vidx as int]));
                } else {
                    assert(tview(t.ns(), t.vs(), r) =~= vl.union_prefer_right(vr).insert(
                        nk,
                        nv,
                    ));
                }
            }
            (r, inserted)
        }
    }
}

impl State {
    /// Detaches the leftmost pair of a nonempty subtree: returns the rebuilt
    /// remainder and a fresh leaf carrying the minimum key and its value.
    #[verifier::rlimit(100)]
    fn pull_leftmost<V>(
        &mut self,
        t: &mut BonsaiTreeMap<V>,
        node: Link,
        Ghost(lo): Ghost<Option<u64>>,
        Ghost(hi): Ghost<Option<u64>>,
    ) -> (r: (Link, Link))
        requires
            twf(old(t).ns(), old(t).vs().len() as nat, node, lo, hi),
            !node.spec_null(),
            old(self).root == old(t).root,
        ensures
            *final(self) == *old(self),
            final(t).vs() == old(t).vs(),
            final(t).root == old(t).root,
            final(t).ns().len() >= old(t).ns().len(),
            forall|j: int| 0 <= j < old(t).ns().len() ==> final(t).ns()[j] == old(t).ns()[j],
            !r.1.spec_null(),
            r.1.spec_tag() == 0,
            r.1.spec_idx() < final(t).ns().len(),
            final(t).ns()[r.1.spec_idx() as int].left.spec_tag() == 0,
            final(t).ns()[r.1.spec_idx() as int].right.spec_tag() == 0,
            final(t).ns()[r.1.spec_idx() as int].val < final(t).vs().len(),
            in_range(final(t).ns()[r.1.spec_idx() as int].key, lo, hi),
            tview(old(t).ns(), old(t).vs(), node).contains_key(
                final(t).ns()[r.1.spec_idx() as int].key,
            ),
            tview(old(t).ns(), old(t).vs(), node)[final(t).ns()[r.1.spec_idx() as int].key]
                == final(t).vs()[final(t).ns()[r.1.spec_idx() as int].val as int],
            forall|k: u64|
                #[trigger] tview(old(t).ns(), old(t).vs(), node).contains_key(k) ==> final(t).ns()[r.1.spec_idx() as int].key <= k,
            twf(final(t).ns(), final(t).vs().len() as nat, r.0, Some(
                final(t).ns()[r.1.spec_idx() as int].key,
            ), hi),
            tview(final(t).ns(), final(t).vs(), r.0) == tview(old(t).ns(), old(t).vs(),
                node,
            ).remove(final(t).ns()[r.1.spec_idx() as int].key),
            tsize(final(t).ns(), r.0) == tsize(old(t).ns(), node) - 1,
        decreases link_m(node),
    {
        proof {
            lemma_twf_unfold(t.ns(), t.vs(), node, lo, hi);
        }
        if t.is_retired_spot(node) {
            return (Node::retired_node(), Node::retired_node());
        }
        let node_ref = t.nodes[node.index()];
        let (left, right) = t.load_children(node.index());
        let ghost nk = node_ref.key;
        proof {
            if !left.spec_null() {
                lemma_twf_unfold(t.ns(), t.vs(), left, lo, Some(nk));
            }
            if !right.spec_null() {
                lemma_twf_unfold(t.ns(), t.vs(), right, Some(nk), hi);
            }
        }
        if !self.check_root(t) || t.is_retired_spot(left) || t.is_retired_spot(right) {
            return (Node::retired_node(), Node::retired_node());
        }
        let ghost t0 = *t;
        proof {
            lemma_tree_shape(t0.ns(), t0.vs(), left, lo, Some(nk));
            lemma_tree_shape(t0.ns(), t0.vs(), right, Some(nk), hi);
        }
        if !left.is_null() {
            let (new_left, succ) = self.pull_leftmost(t, left, Ghost(lo), Ghost(Some(nk)));
            let ghost sk = t.ns()[succ.spec_idx() as int].key;
            proof {
                lemma_grow(t0.ns(), t0.vs(), t.ns(), t.vs(), right, Some(nk), hi);
                assert forall|k: u64| in_range(k, Some(nk), hi) implies in_range(
                    k,
                    Some(sk),
                    hi,
                ) by {}
                lemma_widen(t.ns(), t.vs(), right, Some(nk), hi, Some(sk), hi);
            }
            let ghost t1 = *t;
            let r0 = self.mk_balanced(t, node, new_left, right, Ghost(Some(sk)), Ghost(hi));
            proof {
                assert(t.ns()[succ.spec_idx() as int] == t1.ns()[succ.spec_idx() as int]);
                let vl = tview(t0.ns(), t0.vs(), left);
                let vr = tview(t0.ns(), t0.vs(), right);
                let nv = t0.vs()[t0.ns()[node.spec_idx() as int].val as int];
                assert(tview(t.ns(), t.vs(), r0) =~= vl.union_prefer_right(vr).insert(
                    nk,
                    nv,
                ).remove(sk));
            }
            (r0, succ)
        } else {
            // node is the leftmost
            let succ = self.mk_node(t, Link::none(), Link::none(), node_ref.key,
                node_ref.val, Ghost(lo), Ghost(hi));
            proof {
                lemma_twf_unfold(t.ns(), t.vs(), succ, lo, hi);
                let vr = tview(t0.ns(), t0.vs(), right);
                let nv = t0.vs()[t0.ns()[node.spec_idx() as int].val as int];
                lemma_grow(t0.ns(), t0.vs(), t.ns(), t.vs(), right, Some(nk), hi);
                assert(tview(t0.ns(), t0.vs(), left) =~= Map::<u64, V>::empty());
                assert(vr =~= tview(t0.ns(), t0.vs(), node).remove(nk));
            }
            (right, succ)
        }
    }

    /// Detaches the rightmost pair of a nonempty subtree: returns the
    /// rebuilt remainder and a fresh leaf carrying the maximum key and its
    /// value.
    #[verifier::rlimit(100)]
    fn pull_rightmost<V>(
        &mut self,
        t: &mut BonsaiTreeMap<V>,
        node: Link,
        Ghost(lo): Ghost<Option<u64>>,
        Ghost(hi): Ghost<Option<u64>>,
    ) -> (r: (Link, Link))
        requires
            twf(old(t).ns(), old(t).vs().len() as nat, node, lo, hi),
            !node.spec_null(),
            old(self).root == old(t).root,
        ensures
            *final(self) == *old(self),
            final(t).vs() == old(t).vs(),
            final(t).root == old(t).root,
            final(t).ns().len() >= old(t).ns().len(),
            forall|j: int| 0 <= j < old(t).ns().len() ==> final(t).ns()[j] == old(t).ns()[j],
            !r.1.spec_null(),
            r.1.spec_tag() == 0,
            r.1.spec_idx() < final(t).ns().len(),
            final(t).ns()[r.1.spec_idx() as int].left.spec_tag() == 0,
            final(t).ns()[r.1.spec_idx() as int].right.spec_tag() == 0,
            final(t).ns()[r.1.spec_idx() as int].val < final(t).vs().len(),
            in_range(final(t).ns()[r.1.spec_idx() as int].key, lo, hi),
            tview(old(t).ns(), old(t).vs(), node).contains_key(
                final(t).ns()[r.1.spec_idx() as int].key,
            ),
            tview(old(t).ns(), old(t).vs(), node)[final(t).ns()[r.1.spec_idx() as int].key]
                == final(t).vs()[final(t).ns()[r.1.spec_idx() as int].val as int],
            forall|k: u64|
                #[trigger] tview(old(t).ns(), old(t).vs(), node).contains_key(k) ==> k
                    <= final(t).ns()[r.1.spec_idx() as int].key,
            twf(final(t).ns(), final(t).vs().len() as nat, r.0, lo, Some(
                final(t).ns()[r.1.spec_idx() as int].key,
            )),
            tview(final(t).ns(), final(t).vs(), r.0) == tview(old(t).ns(), old(t).vs(),
                node,
            ).remove(final(t).ns()[r.1.spec_idx() as int].key),
            tsize(final(t).ns(), r.0) == tsize(old(t).ns(), node) - 1,
        decreases link_m(node),
    {
        proof {
            lemma_twf_unfold(t.ns(), t.vs(), node, lo, hi);
        }
        if t.is_retired_spot(node) {
            return (Node::retired_node(), Node::retired_node());
        }
        let node_ref = t.nodes[node.index()];
        let (left, right) = t.load_children(node.index());
        let ghost nk = node_ref.key;
        proof {
            if !left.spec_null() {
                lemma_twf_unfold(t.ns(), t.vs(), left, lo, Some(nk));
            }
            if !right.spec_null() {
                lemma_twf_unfold(t.ns(), t.vs(), right, Some(nk), hi);
            }
        }
        if !self.check_root(t) || t.is_retired_spot(left) || t.is_retired_spot(right) {
            return (Node::retired_node(), Node::retired_node());
        }
        let ghost t0 = *t;
        proof {
            lemma_tree_shape(t0.ns(), t0.vs(), left, lo, Some(nk));
            lemma_tree_shape(t0.ns(), t0.vs(), right, Some(nk), hi);
        }
        if !right.is_null() {
            let (new_right, succ) = self.pull_rightmost(t, right, Ghost(Some(nk)), Ghost(
                hi,
            ));
            let ghost sk = t.ns()[succ.spec_idx() as int].key;
            proof {
                lemma_grow(t0.ns(), t0.vs(), t.ns(), t.vs(), left, lo, Some(nk));
                assert forall|k: u64| in_range(k, lo, Some(nk)) implies in_range(
                    k,
                    lo,
                    Some(sk),
                ) by {}
                lemma_widen(t.ns(), t.vs(), left, lo, Some(nk), lo, Some(sk));
            }
            let ghost t1 = *t;
            let r0 = self.mk_balanced(t, node, left, new_right, Ghost(lo), Ghost(Some(sk)));
            proof {
                assert(t.ns()[succ.spec_idx() as int] == t1.ns()[succ.spec_idx() as int]);
                let vl = tview(t0.ns(), t0.vs(), left);
                let vr = tview(t0.ns(), t0.vs(), right);
                let nv = t0.vs()[t0.ns()[node.spec_idx() as int].val as int];
                assert(tview(t.ns(), t.vs(), r0) =~= vl.union_prefer_right(vr).insert(
                    nk,
                    nv,
                ).remove(sk));
            }
            (r0, succ)
        } else {
            // node is the rightmost
            let succ = self.mk_node(t, Link::none(), Link::none(), node_ref.key,
                node_ref.val, Ghost(lo), Ghost(hi));
            proof {
                lemma_twf_unfold(t.ns(), t.vs(), succ, lo, hi);
                let vl = tview(t0.ns(), t0.vs(), left);
                let nv = t0.vs()[t0.ns()[node.spec_idx() as int].val as int];
                lemma_grow(t0.ns(), t0.vs(), t.ns(), t.vs(), left, lo, Some(nk));
                assert(tview(t0.ns(), t0.vs(), right) =~= Map::<u64, V>::empty());
                assert(vl =~= tview(t0.ns(), t0.vs(), node).remove(nk));
            }
            (left, succ)
        }
    }

    /// Recursive remove: rebuilds the path to the key, splicing an inorder
    /// neighbour in at a removed interior node, and records the removed
    /// value's index.
    #[verifier::rlimit(100)]
    fn do_remove<V>(
        &mut self,
        t: &mut BonsaiTreeMap<V>,
        node: Link,
        key: u64,
        Ghost(lo): Ghost<Option<u64>>,
        Ghost(hi): Ghost<Option<u64>>,
    ) -> (r: (Link, bool))
        requires
            twf(old(t).ns(), old(t).vs().len() as nat, node, lo, hi),
            in_range(key, lo, hi),
            old(self).root == old(t).root,
        ensures
            final(self).root == old(self).root,
            final(t).vs() == old(t).vs(),
            final(t).root == old(t).root,
            final(t).ns().len() >= old(t).ns().len(),
            forall|j: int| 0 <= j < old(t).ns().len() ==> final(t).ns()[j] == old(t).ns()[j],
            twf(final(t).ns(), final(t).vs().len() as nat, r.0, lo, hi),
            r.1 == tview(old(t).ns(), old(t).vs(), node).contains_key(key),
            r.1 ==> tview(final(t).ns(), final(t).vs(), r.0) == tview(old(t).ns(), old(t).vs(), node).remove(key),
            !r.1 ==> tview(final(t).ns(), final(t).vs(), r.0) == tview(old(t).ns(), old(t).vs(), node),
            r.1 ==> tsize(final(t).ns(), r.0) == tsize(old(t).ns(), node) - 1,
            !r.1 ==> tsize(final(t).ns(), r.0) == tsize(old(t).ns(), node),
            r.1 ==> match final(self).found {
                Some(vi) => vi < final(t).vs().len() && final(t).vs()[vi as int] == tview(old(t).ns(), old(t).vs(), node)[key],
                None => false,
            },
            !r.1 ==> final(self).found == old(self).found,
        decreases link_m(node),
    {
        proof {
            if !node.spec_null() {
                lemma_twf_unfold(t.ns(), t.vs(), node, lo, hi);
            }
        }
        if t.is_retired_spot(node) {
            return (Node::retired_node(), false);
        }
        if node.is_null() {
            return (Link::none(), false);
        }
        let node_ref = t.nodes[node.index()];
        let (left, right) = t.load_children(node.index());
        let ghost nk = node_ref.key;
        proof {
            if !left.spec_null() {
                lemma_twf_unfold(t.ns(), t.vs(), left, lo, Some(nk));
            }
            if !right.spec_null() {
                lemma_twf_unfold(t.ns(), t.vs(), right, Some(nk), hi);
            }
        }
        if !self.check_root(t) || t.is_retired_spot(left) || t.is_retired_spot(right) {
            return (Node::retired_node(), false);
        }
        let ghost t0 = *t;
        proof {
            lemma_tree_shape(t0.ns(), t0.vs(), left, lo, Some(nk));
            lemma_tree_shape(t0.ns(), t0.vs(), right, Some(nk), hi);
        }
        if node_ref.key == key {
            self.found = Some(node_ref.val);
            let ghost vl = tview(t0.ns(), t0.vs(), left);
            let ghost vr = tview(t0.ns(), t0.vs(), right);
            if node_ref.size == 1 {
                proof {
                    assert(tview(t0.ns(), t0.vs(), node).remove(key) =~= Map::<u64,
                        V,
                    >::empty());
                }
                return (Link::none(), true);
            }
            if !left.is_null() {
                let (new_left, succ) = self.pull_rightmost(t, left, Ghost(lo), Ghost(
                    Some(nk),
                ));
                let ghost sk = t.ns()[succ.spec_idx() as int].key;
                proof {
                    lemma_grow(t0.ns(), t0.vs(), t.ns(), t.vs(), right, Some(nk), hi);
                    assert forall|k: u64| in_range(k, Some(nk), hi) implies in_range(
                        k,
                        Some(sk),
                        hi,
                    ) by {}
                    lemma_widen(t.ns(), t.vs(), right, Some(nk), hi, Some(sk), hi);
                }
                let r0 = self.mk_balanced(t, succ, new_left, right, Ghost(lo), Ghost(hi));
                proof {
                    assert(tview(t.ns(), t.vs(), r0) =~= vl.union_prefer_right(vr).insert(
                        nk,
                        t0.vs()[t0.ns()[node.spec_idx() as int].val as int],
                    ).remove(key));
                }
                return (r0, true);
            }
            let (new_right, succ) = self.pull_leftmost(t, right, Ghost(Some(nk)), Ghost(hi));
            let ghost sk = t.ns()[succ.spec_idx() as int].key;
            proof {
                lemma_grow(t0.ns(), t0.vs(), t.ns(), t.vs(), left, lo, Some(nk));
                assert forall|k: u64| in_range(k, lo, Some(nk)) implies in_range(
                    k,
                    lo,
                    Some(sk),
                ) by {}
                lemma_widen(t.ns(), t.vs(), left, lo, Some(nk), lo, Some(sk));
            }
            let r0 = self.mk_balanced(t, succ, left, new_right, Ghost(lo), Ghost(hi));
            proof {
                assert(tview(t.ns(), t.vs(), r0) =~= vl.union_prefer_right(vr).insert(
                    nk,
                    t0.vs()[t0.ns()[node.spec_idx() as int].val as int],
                ).remove(key));
            }
            (r0, true)
        } else if node_ref.key < key {
            let (new_right, found) = self.do_remove(t, right, key, Ghost(Some(nk)), Ghost(
                hi,
            ));
            proof {
                lemma_grow(t0.ns(), t0.vs(), t.ns(), t.vs(), left, lo, Some(nk));
            }
            let r = self.mk_balanced(t, node, left, new_right, Ghost(lo), Ghost(hi));
            proof {
                let vl = tview(t0.ns(), t0.vs(), left);
                let vr = tview(t0.ns(), t0.vs(), right);
                let nv = t0.vs()[t0.ns()[node.spec_idx() as int].val as int];
                if found {
                    assert(tview(t.ns(), t.vs(), r) =~= vl.union_prefer_right(vr).insert(
                        nk,
                        nv,
                    ).remove(key));
                } else {
                    assert(tview(t.ns(), t.vs(), r) =~= vl.union_prefer_right(vr).insert(
                        nk,
                        nv,
                    ));
                }
            }
            (r, found)
        } else {
            let (new_left, found) = self.do_remove(t, left, key, Ghost(lo), Ghost(Some(nk)));
            proof {
                lemma_grow(t0.ns(), t0.vs(), t.ns(), t.vs(), right, Some(nk), hi);
            }
            let r = self.mk_balanced(t, node, new_left, right, Ghost(lo), Ghost(hi));
            proof {
                let vl = tview(t0.ns(), t0.vs(), left);
                let vr = tview(t0.ns(), t0.vs(), right);
                let nv = t0.vs()[t0.ns()[node.spec_idx() as int].val as int];
                if found {
                    assert(tview(t.ns(), t.vs(), r) =~= vl.union_prefer_right(vr).insert(
                        nk,
                        nv,
                    ).remove(key));
                } else {
                    assert(tview(t.ns(), t.vs(), r) =~= vl.union_prefer_right(vr).insert(
                        nk,
                        nv,
                    ));
                }
            }
            (r, found)
        }
    }
}

/// The per-operation holder: the root the operation observed, the traversal
/// snapshots of `get`, and the index of the value last found or removed.
pub struct Holder {
    root: Link,
    curr: Link,
    temp: Link,
    found: Option<usize>,
}

/// The reusable per-operation cursor: a holder and the root snapshot the
/// rebuild starts from.
pub struct Cursor {
    holder: Holder,
    root_snapshot: Link,
}

impl Holder {
    pub closed spec fn spec_found(self) -> Option<usize> {
        self.found
    }
}

impl Cursor {
    pub closed spec fn spec_found(self) -> Option<usize> {
        self.holder.found
    }
}

impl<V> OutputHolder<V> for Cursor {
    fn default() -> Self {
        Cursor {
            holder: Holder {
                root: Link { null: true, idx: 0, tag: 0 },
                curr: Link { null: true, idx: 0, tag: 0 },
                temp: Link { null: true, idx: 0, tag: 0 },
                found: None,
            },
            root_snapshot: Link { null: true, idx: 0, tag: 0 },
        }
    }
}

impl<V> BonsaiTreeMap<V> {
    /// The whole tree is well formed under no bounds.
    pub closed spec fn wf(self) -> bool {
        twf(self.ns(), self.vs().len() as nat, self.root, None, None)
    }

    /// The tree as a mathematical map.
    pub closed spec fn view(self) -> Map<u64, V> {
        tview(self.ns(), self.vs(), self.root)
    }

    /// Whether every node satisfies the weight-balance condition.
    pub closed spec fn balanced(self) -> bool {
        tbal(self.ns(), self.root)
    }

    /// The value stored at a slot of the value arena.
    pub closed spec fn value_at(self, vi: int) -> V {
        self.vals@[vi]
    }

    /// How many values the value arena holds.
    pub closed spec fn vals_len(self) -> nat {
        self.vals@.len()
    }

    /// The value a holder exposes, if any.
    pub closed spec fn output_of(self, c: &Cursor) -> Option<V> {
        match c.holder.found {
            Some(vi) => if vi < self.vs().len() {
                Some(self.vs()[vi as int])
            } else {
                None
            },
            None => None,
        }
    }

    /// An empty tree.
    pub fn new() -> (t: Self)
        ensures
            t.wf(),
            t.view() == Map::<u64, V>::empty(),
    {
        let t = BonsaiTreeMap {
            nodes: Vec::new(),
            vals: Vec::new(),
            root: Link { null: true, idx: 0, tag: 0 },
        };
        proof {
            assert(t.view() =~= Map::<u64, V>::empty());
        }
        t
    }

    /// The number of keys in the tree, read off the root's size field.
    pub fn len(&self) -> (n: usize)
        requires
            self.wf(),
        ensures
            n == self.view().dom().len(),
    {
        proof {
            lemma_tree_shape(self.ns(), self.vs(), self.root, None, None);
            if !self.root.spec_null() {
                lemma_twf_unfold(self.ns(), self.vs(), self.root, None, None);
            }
        }
        if self.root.is_null() {
            0
        } else {
            self.nodes[self.root.index()].size
        }
    }

    /// Decides the balance condition for one subtree.
    fn balanced_at(
        &self,
        l: Link,
        Ghost(lo): Ghost<Option<u64>>,
        Ghost(hi): Ghost<Option<u64>>,
    ) -> (r: bool)
        requires
            twf(self.ns(), self.vs().len() as nat, l, lo, hi),
        ensures
            r == tbal(self.ns(), l),
        decreases link_m(l),
    {
        if l.is_null() {
            return true;
        }
        proof {
            lemma_twf_unfold(self.ns(), self.vs(), l, lo, hi);
        }
        let n = self.nodes[l.index()];
        let ls = self.node_size(n.left, Ghost(lo), Ghost(Some(n.key)));
        let rs = self.node_size(n.right, Ghost(Some(n.key)), Ghost(hi));
        let lw = if ls >= 1 {
            ls
        } else {
            1
        };
        let rw = if rs >= 1 {
            rs
        } else {
            1
        };
        // the products are widened so they cannot wrap
        if (ls as u128) > (WEIGHT as u128) * (rw as u128) || (rs as u128) > (WEIGHT as u128)
            * (lw as u128) {
            return false;
        }
        let bl = self.balanced_at(n.left, Ghost(lo), Ghost(Some(n.key)));
        let br = self.balanced_at(n.right, Ghost(Some(n.key)), Ghost(hi));
        bl && br
    }

    /// Whether the whole published tree is weight-balanced.
    pub fn is_balanced(&self) -> (r: bool)
        requires
            self.wf(),
        ensures
            r == self.balanced(),
    {
        self.balanced_at(self.root, Ghost(None), Ghost(None))
    }

    /// Pure traversal from the current root; retries would only be needed if
    /// the traversed subtree had been retired by a concurrent commit.
    #[verifier::loop_isolation(false)]
    pub fn get(&self, key: &u64, holder: &mut Holder, cs: &mut Cs) -> (r: bool)
        requires
            self.wf(),
        ensures
            r == self.view().contains_key(*key),
            r ==> match final(holder).spec_found() {
                Some(vi) => vi < self.vals_len() && self.value_at(vi as int) == self.view()[
                    *key
                ],
                None => false,
            },
    {
        let ghost mut lo: Option<u64> = None;
        let ghost mut hi: Option<u64> = None;
        holder.curr = self.root;
        loop
            invariant
                twf(self.ns(), self.vs().len() as nat, holder.curr, lo, hi),
                in_range(*key, lo, hi),
                tview(self.ns(), self.vs(), holder.curr).contains_key(*key) == self.view(
                ).contains_key(*key),
                self.view().contains_key(*key) ==> tview(self.ns(), self.vs(), holder.curr)[
                    *key] == self.view()[*key],
            decreases link_m(holder.curr),
        {
            if holder.curr.is_null() {
                return false;
            }
            proof {
                lemma_twf_unfold(self.ns(), self.vs(), holder.curr, lo, hi);
                lemma_tree_shape(self.ns(), self.vs(),
                    self.ns()[holder.curr.spec_idx() as int].left, lo, Some(
                    self.ns()[holder.curr.spec_idx() as int].key,
                ));
                lemma_tree_shape(self.ns(), self.vs(),
                    self.ns()[holder.curr.spec_idx() as int].right, Some(
                    self.ns()[holder.curr.spec_idx() as int].key,
                ), hi);
            }
            let curr_node = self.nodes[holder.curr.index()];
            if *key == curr_node.key {
                break;
            } else if *key < curr_node.key {
                holder.temp = curr_node.left;
                proof {
                    hi = Some(curr_node.key);
                }
            } else {
                holder.temp = curr_node.right;
                proof {
                    lo = Some(curr_node.key);
                }
            }
            let next = holder.temp;
            holder.temp = holder.curr;
            holder.curr = next;
        }
        proof {
            lemma_twf_unfold(self.ns(), self.vs(), holder.curr, lo, hi);
        }
        if self.is_retired_spot(holder.curr) {
            return false;
        }
        if holder.curr.is_null() {
            return false;
        }
        holder.found = Some(self.nodes[holder.curr.index()].val);
        true
    }

    /// Rebuilds the path to the key from the root snapshot and commits the
    /// new root; within one thread the commit cannot lose a race.
    pub fn insert(&mut self, key: u64, value: V, cursor: &mut Cursor, cs: &mut Cs) -> (r:
        bool)
        requires
            old(self).wf(),
        ensures
            final(self).wf(),
            r == !old(self).view().contains_key(key),
            r ==> final(self).view() == old(self).view().insert(key, value),
            !r ==> final(self).view() == old(self).view(),
    {
        let ghost t0 = *self;
        let vidx = self.vals.len();
        self.vals.push(value);
        proof {
            lemma_grow(t0.ns(), t0.vs(), self.ns(), self.vs(), self.root, None, None);
        }
        let ghost t1 = *self;
        let mut state = State::new(self.root);
        cursor.root_snapshot = self.root;
        cursor.holder.root = self.root;
        let (new_root, inserted) = state.do_insert(self, self.root, key, vidx, Ghost(None),
            Ghost(None));
        if Node::is_retired(new_root) {
            proof {
                assert(false);
            }
            return false;
        }
        // commit: the root is unchanged since the snapshot was taken
        if self.root == cursor.root_snapshot {
            self.root = new_root;
            proof {
                if inserted {
                    assert(self.view() == t1.view().insert(key, t1.vs()[vidx as int]));
                }
            }
            inserted
        } else {
            proof {
                assert(false);
            }
            false
        }
    }

    /// Rebuilds the path to the key, splicing in an inorder neighbour at the
    /// removed node, and commits the new root.
    pub fn remove(&mut self, key: &u64, cursor: &mut Cursor, cs: &mut Cs) -> (r: bool)
        requires
            old(self).wf(),
        ensures
            final(self).wf(),
            r == old(self).view().contains_key(*key),
            final(self).view() == old(self).view().remove(*key),
            r ==> final(self).output_of(final(cursor)) == Some(old(self).view()[*key]),
    {
        let ghost t0 = *self;
        let mut state = State::new(self.root);
        cursor.root_snapshot = self.root;
        cursor.holder.root = self.root;
        let (new_root, found) = state.do_remove(self, self.root, *key, Ghost(None), Ghost(
            None,
        ));
        if Node::is_retired(new_root) {
            proof {
                assert(false);
            }
            return false;
        }
        if self.root == cursor.root_snapshot {
            self.root = new_root;
            cursor.holder.found = state.found;
            proof {
                if !found {
                    assert(t0.view().remove(*key) =~= t0.view());
                }
            }
            found
        } else {
            proof {
                assert(false);
            }
            false
        }
    }
}

impl<V> ConcurrentMap<V> for BonsaiTreeMap<V> {
    type Output = Cursor;

    closed spec fn inv(&self) -> bool {
        self.wf()
    }

    closed spec fn view(&self) -> Map<u64, V> {
        BonsaiTreeMap::view(*self)
    }

    closed spec fn output_of(&self, output: &Cursor) -> Option<V> {
        BonsaiTreeMap::output_of(*self, output)
    }

    fn new() -> Self {
        BonsaiTreeMap::new()
    }

    fn get(&mut self, key: &u64, output: &mut Cursor, cs: &mut Cs) -> bool {
        BonsaiTreeMap::get(self, key, &mut output.holder, cs)
    }

    fn insert(&mut self, key: u64, value: V, output: &mut Cursor, cs: &mut Cs) -> bool {
        BonsaiTreeMap::insert(self, key, value, output, cs)
    }

    fn remove(&mut self, key: &u64, output: &mut Cursor, cs: &mut Cs) -> bool {
        BonsaiTreeMap::remove(self, key, output, cs)
    }

    fn output<'a>(&'a self, output: &'a Cursor) -> &'a V {
        match &output.holder.found {
            Some(vi) => &self.vals[*vi],
            None => {
                proof {
                    assert(false);
                }
                &self.vals[0]
            },
        }
    }
}

/// The keys of a subtree in symmetric order.
pub closed spec fn tkeys(ns: Seq<Node>, l: Link) -> Seq<u64>
    decreases link_m(l),
{
    if l.spec_null() || l.spec_idx() >= ns.len() {
        Seq::empty()
    } else {
        let n = ns[l.spec_idx() as int];
        let lk: Seq<u64> = if n.left.spec_null() || n.left.spec_idx() < l.spec_idx() {
            tkeys(ns, n.left)
        } else {
            Seq::empty()
        };
        let rk: Seq<u64> = if n.right.spec_null() || n.right.spec_idx() < l.spec_idx() {
            tkeys(ns, n.right)
        } else {
            Seq::empty()
        };
        lk + seq![n.key] + rk
    }
}

/// Search-tree order: in a well-formed subtree the symmetric-order key
/// sequence is strictly increasing, and it carries exactly the keys of the
/// subtree's map — every key left of a node is below it, every key right of
/// it above it.
proof fn lemma_tree_inorder<V>(
    ns: Seq<Node>,
    vs: Seq<V>,
    l: Link,
    lo: Option<u64>,
    hi: Option<u64>,
)
    requires
        twf(ns, vs.len() as nat, l, lo, hi),
    ensures
        forall|i: int, j: int|
            0 <= i < j < tkeys(ns, l).len() ==> tkeys(ns, l)[i] < tkeys(ns, l)[j],
        forall|i: int|
            0 <= i < tkeys(ns, l).len() ==> in_range(#[trigger] tkeys(ns, l)[i], lo, hi),
        forall|i: int|
            0 <= i < tkeys(ns, l).len() ==> tview(ns, vs, l).contains_key(
                #[trigger] tkeys(ns, l)[i],
            ),
        forall|k: u64| #[trigger] tview(ns, vs, l).contains_key(k) ==> tkeys(ns, l).contains(k),
    decreases link_m(l),
{
    if !l.spec_null() {
        let n = ns[l.spec_idx() as int];
        lemma_tree_inorder(ns, vs, n.left, lo, Some(n.key));
        lemma_tree_inorder(ns, vs, n.right, Some(n.key), hi);
        lemma_tree_shape(ns, vs, l, lo, hi);
        let lk = tkeys(ns, n.left);
        let rk = tkeys(ns, n.right);
        let all = tkeys(ns, l);
        assert(all =~= lk + seq![n.key] + rk);
        assert forall|i: int| 0 <= i < all.len() implies tview(ns, vs, l).contains_key(
            #[trigger] all[i],
        ) && in_range(all[i], lo, hi) by {
            if i < lk.len() {
                assert(all[i] == lk[i]);
            } else if i == lk.len() {
                assert(all[i] == n.key);
            } else {
                assert(all[i] == rk[i - lk.len() - 1]);
            }
        }
        assert forall|i: int, j: int| 0 <= i < j < all.len() implies all[i] < all[j] by {
            if i < lk.len() {
                assert(all[i] == lk[i] && in_range(lk[i], lo, Some(n.key)));
            } else if i == lk.len() {
                assert(all[i] == n.key);
            } else {
                assert(all[i] == rk[i - lk.len() - 1] && in_range(all[i], Some(n.key), hi));
            }
            if j < lk.len() {
                assert(all[j] == lk[j] && in_range(lk[j], lo, Some(n.key)));
            } else if j == lk.len() {
                assert(all[j] == n.key);
            } else {
                assert(all[j] == rk[j - lk.len() - 1] && in_range(all[j], Some(n.key), hi));
            }
        }
        assert forall|k: u64| #[trigger] tview(ns, vs, l).contains_key(k) implies tkeys(
            ns,
            l,
        ).contains(k) by {
            if k == n.key {
                assert(all[lk.len() as int] == k);
            } else if tview(ns, vs, n.left).contains_key(k) {
                let i = choose|i: int| 0 <= i < lk.len() && lk[i] == k;
                assert(all[i] == k);
            } else {
                assert(tview(ns, vs, n.right).contains_key(k));
                let i = choose|i: int| 0 <= i < rk.len() && rk[i] == k;
                assert(all[lk.len() + 1 + i] == k);
            }
        }
    }
}

impl<V> BonsaiTreeMap<V> {
    /// The tree's keys in symmetric order.
    pub closed spec fn key_seq(self) -> Seq<u64> {
        tkeys(self.ns(), self.root)
    }
}

/// Search-tree order, observed at the root: the symmetric-order key
/// sequence of the whole tree is strictly increasing and carries exactly
/// the keys of the view.
pub proof fn lemma_search_tree_order<V>(t: &BonsaiTreeMap<V>)
    requires
        t.wf(),
    ensures
        forall|i: int, j: int|
            0 <= i < j < t.key_seq().len() ==> t.key_seq()[i] < t.key_seq()[j],
        forall|k: u64| #[trigger] t.view().contains_key(k) ==> t.key_seq().contains(k),
        forall|i: int|
            0 <= i < t.key_seq().len() ==> t.view().contains_key(#[trigger] t.key_seq()[i]),
{
    lemma_tree_inorder(t.ns(), t.vs(), t.root, None, None);
}

} // verus!
