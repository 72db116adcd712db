//! The Natarajan–Mittal external binary search tree.
//!
//! Keys live only at the leaves; internal nodes route by key order, a node's
//! key being the least key of its right subtree.  A fixed skeleton of
//! infinite-key sentinels guarantees that a seek always has a well-defined
//! ancestor and parent.  A removal first flags the (parent, leaf) edge, then
//! tags the sibling edge so neither of the parent's outgoing edges can
//! change, and finally splices the sibling into the grandparent with one
//! store, unlinking the parent and the flagged leaf together.  Within one
//! thread no helper races the cleanup, and the verifier shows the helping
//! retry paths are never taken.

use crate::concurrent_map::{ConcurrentMap, OutputHolder};
use crate::smr::Cs;
use vstd::prelude::*;

verus! {

/// The marks a removal plants on the low bits of an edge: the (parent,
/// target) edge is flagged and the (parent, sibling) edge is tagged.
#[derive(Clone, Copy, PartialEq, Eq, Structural)]
pub struct Marks {
    bits: usize,
}

impl Marks {
    pub closed spec fn spec_flag(self) -> bool {
        self.bits / 2 % 2 == 1
    }

    pub closed spec fn spec_tag(self) -> bool {
        self.bits % 2 == 1
    }

    pub fn new(flag: bool, tag: bool) -> (r: Self)
        ensures
            r.spec_flag() == flag,
            r.spec_tag() == tag,
    {
        Marks { bits: (if flag { 2 } else { 0 }) + (if tag { 1 } else { 0 }) }
    }

    pub fn flag(self) -> (r: bool)
        ensures
            r == self.spec_flag(),
    {
        self.bits / 2 % 2 == 1
    }

    pub fn tag(self) -> (r: bool)
        ensures
            r == self.spec_tag(),
    {
        self.bits % 2 == 1
    }
}

/// A routing key: finite, or the infinite sentinel that orders above every
/// finite key.
#[derive(Clone, Copy, PartialEq, Eq, Structural)]
pub enum Key {
    Fin(u64),
    Inf,
}

impl Key {
    /// How this key orders against a finite search key: the infinite
    /// sentinel is greater than everything.
    pub fn cmp(&self, rhs: &u64) -> (r: core::cmp::Ordering)
        ensures
            r == core::cmp::Ordering::Equal <==> self == Key::Fin(*rhs),
            r == core::cmp::Ordering::Greater <==> (match *self {
                Key::Fin(k) => k > *rhs,
                Key::Inf => true,
            }),
            r == core::cmp::Ordering::Less <==> (match *self {
                Key::Fin(k) => k < *rhs,
                Key::Inf => false,
            }),
    {
        match self {
            Key::Fin(k) => if *k < *rhs {
                core::cmp::Ordering::Less
            } else if *k == *rhs {
                core::cmp::Ordering::Equal
            } else {
                core::cmp::Ordering::Greater
            },
            Key::Inf => core::cmp::Ordering::Greater,
        }
    }
}

/// An outgoing edge: the modeled pointer word, with the removal marks in its
/// low bits.
#[derive(Clone, Copy, PartialEq, Eq, Structural)]
pub struct Edge {
    null: bool,
    idx: usize,
    flag: bool,
    tag: bool,
}

impl Edge {
    pub closed spec fn spec_null(self) -> bool {
        self.null
    }

    pub closed spec fn spec_idx(self) -> usize {
        self.idx
    }

    pub closed spec fn spec_flag(self) -> bool {
        self.flag
    }

    pub closed spec fn spec_tag(self) -> bool {
        self.tag
    }

    fn to(i: usize) -> (e: Edge)
        ensures
            e == (Edge { null: false, idx: i, flag: false, tag: false }),
    {
        Edge { null: false, idx: i, flag: false, tag: false }
    }

    fn none() -> (e: Edge)
        ensures
            e == (Edge { null: true, idx: 0, flag: false, tag: false }),
    {
        Edge { null: true, idx: 0, flag: false, tag: false }
    }

    /// The same pointer word with the given marks.
    fn with_marks(self, flag: bool, tag: bool) -> (e: Edge)
        ensures
            e.spec_null() == self.spec_null(),
            e.spec_idx() == self.spec_idx(),
            e.spec_flag() == flag,
            e.spec_tag() == tag,
    {
        Edge { null: self.null, idx: self.idx, flag, tag }
    }

    fn is_null(&self) -> (r: bool)
        ensures
            r == self.spec_null(),
    {
        self.null
    }

    fn index(&self) -> (i: usize)
        ensures
            i == self.spec_idx(),
    {
        self.idx
    }

    /// Pointer-word equality ignoring the marks.
    fn same_ptr(&self, other: &Edge) -> (r: bool)
        ensures
            r == self.spec_same_ptr(*other),
    {
        if self.null {
            other.null
        } else {
            !other.null && self.idx == other.idx
        }
    }

    pub open spec fn spec_same_ptr(self, other: Edge) -> bool {
        if self.spec_null() {
            other.spec_null()
        } else {
            !other.spec_null() && self.spec_idx() == other.spec_idx()
        }
    }
}

/// A tree node.  Leaves have two null edges and, for finite keys, a value;
/// internal nodes have two children and no value.
pub struct Node<V> {
    key: Key,
    value: Option<V>,
    left: Edge,
    right: Edge,
}

/// A range bound for the finite keys of a subtree.
#[derive(Clone, Copy, PartialEq, Eq, Structural)]
pub enum Bound {
    Bot,
    At(u64),
    Top,
}

/// Whether the finite key `x` lies in the half-open range `[lo, hi)`.
pub open spec fn fin_in(x: u64, lo: Bound, hi: Bound) -> bool {
    &&& match lo {
        Bound::Bot => true,
        Bound::At(b) => b <= x,
        Bound::Top => false,
    }
    &&& match hi {
        Bound::Bot => false,
        Bound::At(b) => x < b,
        Bound::Top => true,
    }
}

/// The bound a routing key imposes: the infinite sentinel admits no finite
/// key to its right.
pub open spec fn key_bound(k: Key) -> Bound {
    match k {
        Key::Fin(x) => Bound::At(x),
        Key::Inf => Bound::Top,
    }
}

/// Bound order.
pub open spec fn bnd_le(a: Bound, b: Bound) -> bool {
    match (a, b) {
        (Bound::Bot, _) => true,
        (_, Bound::Top) => true,
        (Bound::At(x), Bound::At(y)) => x <= y,
        _ => false,
    }
}

/// Structure, order, node distinctness and mark-cleanliness of the subtree
/// hanging off an edge, within `fuel` levels.  Between operations every
/// in-tree edge is free of flags and tags.
pub closed spec fn ewf<V>(
    ns: Seq<Node<V>>,
    e: Edge,
    lo: Bound,
    hi: Bound,
    fuel: nat,
) -> bool
    decreases fuel,
{
    !e.spec_flag() && !e.spec_tag() && (e.spec_null() || (fuel > 0 && e.spec_idx() < ns.len()
        && {
        let n = ns[e.spec_idx() as int];
        &&& (n.left.spec_null() <==> n.right.spec_null())
        &&& if n.left.spec_null() {
            // leaf
            match n.key {
                Key::Fin(x) => fin_in(x, lo, hi) && n.value is Some,
                Key::Inf => n.value is None && hi == Bound::Top,
            }
        } else {
            // internal: the key is the least key of the right subtree
            &&& n.value is None
            &&& bnd_le(lo, key_bound(n.key))
            &&& bnd_le(key_bound(n.key), hi)
            &&& ewf(ns, n.left, lo, key_bound(n.key), (fuel - 1) as nat)
            &&& ewf(ns, n.right, key_bound(n.key), hi, (fuel - 1) as nat)
            &&& enodes(ns, n.left, (fuel - 1) as nat).disjoint(
                enodes(ns, n.right, (fuel - 1) as nat),
            )
            &&& !enodes(ns, n.left, (fuel - 1) as nat).contains(e.spec_idx() as int)
            &&& !enodes(ns, n.right, (fuel - 1) as nat).contains(e.spec_idx() as int)
        }
    }))
}

/// The arena indices of a subtree, within `fuel` levels.
pub closed spec fn enodes<V>(ns: Seq<Node<V>>, e: Edge, fuel: nat) -> Set<int>
    decreases fuel,
{
    if e.spec_null() || fuel == 0 || e.spec_idx() >= ns.len() {
        Set::empty()
    } else {
        let n = ns[e.spec_idx() as int];
        enodes(ns, n.left, (fuel - 1) as nat).union(
            enodes(ns, n.right, (fuel - 1) as nat),
        ).insert(e.spec_idx() as int)
    }
}

/// The subtree as a map: the finite-keyed leaves and their values.
pub closed spec fn eview<V>(ns: Seq<Node<V>>, e: Edge, fuel: nat) -> Map<u64, V>
    decreases fuel,
{
    if e.spec_null() || fuel == 0 || e.spec_idx() >= ns.len() {
        Map::empty()
    } else {
        let n = ns[e.spec_idx() as int];
        if n.left.spec_null() {
            match n.key {
                Key::Fin(x) => match n.value {
                    Some(v) => Map::empty().insert(x, v),
                    None => Map::empty(),
                },
                Key::Inf => Map::empty(),
            }
        } else {
            eview(ns, n.left, (fuel - 1) as nat).union_prefer_right(
                eview(ns, n.right, (fuel - 1) as nat),
            )
        }
    }
}

/// More fuel never changes any of the subtree functions.
proof fn lemma_fuel<V>(ns: Seq<Node<V>>, e: Edge, lo: Bound, hi: Bound, f1: nat, f2: nat)
    requires
        ewf(ns, e, lo, hi, f1),
        f1 <= f2,
    ensures
        ewf(ns, e, lo, hi, f2),
        enodes(ns, e, f2) == enodes(ns, e, f1),
        eview(ns, e, f2) == eview(ns, e, f1),
    decreases f1,
{
    if !e.spec_null() {
        let n = ns[e.spec_idx() as int];
        if !n.left.spec_null() {
            assert(f1 > 0);
            assert(e.spec_idx() < ns.len());
            lemma_fuel(ns, n.left, lo, key_bound(n.key), (f1 - 1) as nat, (f2 - 1) as nat);
            lemma_fuel(ns, n.right, key_bound(n.key), hi, (f1 - 1) as nat, (f2 - 1) as nat);
            assert(enodes(ns, e, f1) == enodes(ns, n.left, (f1 - 1) as nat).union(
                enodes(ns, n.right, (f1 - 1) as nat),
            ).insert(e.spec_idx() as int));
            assert(enodes(ns, e, f2) == enodes(ns, n.left, (f2 - 1) as nat).union(
                enodes(ns, n.right, (f2 - 1) as nat),
            ).insert(e.spec_idx() as int));
        } else {
            assert(enodes(ns, n.left, (f1 - 1) as nat) =~= Set::<int>::empty());
            assert(enodes(ns, n.left, (f2 - 1) as nat) =~= Set::<int>::empty());
            assert(enodes(ns, n.right, (f1 - 1) as nat) =~= Set::<int>::empty());
            assert(enodes(ns, n.right, (f2 - 1) as nat) =~= Set::<int>::empty());
            assert(eview(ns, n.left, (f1 - 1) as nat) =~= Map::<u64, V>::empty());
            assert(eview(ns, n.left, (f2 - 1) as nat) =~= Map::<u64, V>::empty());
            assert(eview(ns, n.right, (f1 - 1) as nat) =~= Map::<u64, V>::empty());
            assert(eview(ns, n.right, (f2 - 1) as nat) =~= Map::<u64, V>::empty());
        }
        assert(enodes(ns, e, f2) =~= enodes(ns, e, f1));
        assert(eview(ns, e, f2) =~= eview(ns, e, f1));
    } else {
        assert(enodes(ns, e, f2) =~= enodes(ns, e, f1));
        assert(eview(ns, e, f2) =~= eview(ns, e, f1));
    }
}

/// Subtree facts: the nodes are in the arena, every key of the view is in
/// the subtree's range, and a non-null subtree's root is among its nodes.
proof fn lemma_eshape<V>(ns: Seq<Node<V>>, e: Edge, lo: Bound, hi: Bound, fuel: nat)
    requires
        ewf(ns, e, lo, hi, fuel),
    ensures
        forall|j: int| #[trigger] enodes(ns, e, fuel).contains(j) ==> 0 <= j < ns.len(),
        forall|k: u64| #[trigger] eview(ns, e, fuel).contains_key(k) ==> fin_in(k, lo, hi),
        !e.spec_null() ==> enodes(ns, e, fuel).contains(e.spec_idx() as int),
        enodes(ns, e, fuel).finite(),
    decreases fuel,
{
    if !e.spec_null() {
        let n = ns[e.spec_idx() as int];
        if !n.left.spec_null() {
            lemma_eshape(ns, n.left, lo, key_bound(n.key), (fuel - 1) as nat);
            lemma_eshape(ns, n.right, key_bound(n.key), hi, (fuel - 1) as nat);
            assert forall|k: u64| #[trigger] eview(ns, e, fuel).contains_key(k) implies fin_in(
                k,
                lo,
                hi,
            ) by {
                if eview(ns, n.left, (fuel - 1) as nat).contains_key(k) {
                    assert(fin_in(k, lo, key_bound(n.key)));
                } else {
                    assert(eview(ns, n.right, (fuel - 1) as nat).contains_key(k));
                    assert(fin_in(k, key_bound(n.key), hi));
                }
            }
        } else {
            assert(enodes(ns, n.left, (fuel - 1) as nat) =~= Set::<int>::empty());
            assert(enodes(ns, n.right, (fuel - 1) as nat) =~= Set::<int>::empty());
        }
    }
}

/// The subtree functions read only the subtree's own slots, so they are
/// unchanged by appended nodes and by edits outside the subtree.
proof fn lemma_eframe<V>(
    ns: Seq<Node<V>>,
    ns2: Seq<Node<V>>,
    e: Edge,
    lo: Bound,
    hi: Bound,
    fuel: nat,
)
    requires
        ewf(ns, e, lo, hi, fuel),
        ns.len() <= ns2.len(),
        forall|j: int| #[trigger] enodes(ns, e, fuel).contains(j) ==> ns2[j] == ns[j],
    ensures
        ewf(ns2, e, lo, hi, fuel),
        enodes(ns2, e, fuel) == enodes(ns, e, fuel),
        eview(ns2, e, fuel) == eview(ns, e, fuel),
    decreases fuel,
{
    if !e.spec_null() {
        let n = ns[e.spec_idx() as int];
        assert(enodes(ns, e, fuel).contains(e.spec_idx() as int));
        assert(ns2[e.spec_idx() as int] == ns[e.spec_idx() as int]);
        if !n.left.spec_null() {
            assert forall|j: int| #[trigger] enodes(ns, n.left, (fuel - 1) as nat).contains(
                j,
            ) implies enodes(ns, e, fuel).contains(j) by {}
            assert forall|j: int| #[trigger] enodes(ns, n.right, (fuel - 1) as nat).contains(
                j,
            ) implies enodes(ns, e, fuel).contains(j) by {}
            lemma_eframe(ns, ns2, n.left, lo, key_bound(n.key), (fuel - 1) as nat);
            lemma_eframe(ns, ns2, n.right, key_bound(n.key), hi, (fuel - 1) as nat);
            assert(enodes(ns2, e, fuel) =~= enodes(ns, e, fuel));
            assert(eview(ns2, e, fuel) =~= eview(ns, e, fuel));
        } else {
            assert(enodes(ns, n.left, (fuel - 1) as nat) =~= Set::<int>::empty());
            assert(enodes(ns2, n.left, (fuel - 1) as nat) =~= Set::<int>::empty());
            assert(enodes(ns, n.right, (fuel - 1) as nat) =~= Set::<int>::empty());
            assert(enodes(ns2, n.right, (fuel - 1) as nat) =~= Set::<int>::empty());
            assert(eview(ns, n.left, (fuel - 1) as nat) =~= Map::<u64, V>::empty());
            assert(eview(ns2, n.left, (fuel - 1) as nat) =~= Map::<u64, V>::empty());
            assert(eview(ns, n.right, (fuel - 1) as nat) =~= Map::<u64, V>::empty());
            assert(eview(ns2, n.right, (fuel - 1) as nat) =~= Map::<u64, V>::empty());
            assert(enodes(ns2, e, fuel) =~= enodes(ns, e, fuel));
            assert(eview(ns2, e, fuel) =~= eview(ns, e, fuel));
        }
    } else {
        assert(enodes(ns2, e, fuel) =~= enodes(ns, e, fuel));
        assert(eview(ns2, e, fuel) =~= eview(ns, e, fuel));
    }
}

/// The child edge of a node in a direction: true is right.
pub closed spec fn child_edge<V>(n: Node<V>, d: bool) -> Edge {
    if d {
        n.right
    } else {
        n.left
    }
}

/// The edge reached from `e` by the directions.
pub closed spec fn follow<V>(ns: Seq<Node<V>>, e: Edge, dirs: Seq<bool>) -> Edge
    decreases dirs.len(),
{
    if dirs.len() == 0 {
        e
    } else {
        follow(ns, child_edge(ns[e.spec_idx() as int], dirs[0]), dirs.drop_first())
    }
}

/// The directions descend through internal nodes, and the final edge's
/// range is `[tlo, thi)`.
pub closed spec fn path_range_ok<V>(
    ns: Seq<Node<V>>,
    e: Edge,
    dirs: Seq<bool>,
    lo: Bound,
    hi: Bound,
    tlo: Bound,
    thi: Bound,
) -> bool
    decreases dirs.len(),
{
    if dirs.len() == 0 {
        lo == tlo && hi == thi
    } else {
        &&& !e.spec_null()
        &&& e.spec_idx() < ns.len()
        &&& !ns[e.spec_idx() as int].left.spec_null()
        &&& if dirs[0] {
            path_range_ok(ns, ns[e.spec_idx() as int].right, dirs.drop_first(), key_bound(
                ns[e.spec_idx() as int].key,
            ), hi, tlo, thi)
        } else {
            path_range_ok(ns, ns[e.spec_idx() as int].left, dirs.drop_first(), lo, key_bound(
                ns[e.spec_idx() as int].key,
            ), tlo, thi)
        }
    }
}

/// Along a valid path the subtree at every prefix is well formed; in
/// particular the final target is well formed within its range, with the
/// fuel left after the descent, and its nodes are among the tree's.
proof fn lemma_path_wf<V>(
    ns: Seq<Node<V>>,
    e: Edge,
    dirs: Seq<bool>,
    lo: Bound,
    hi: Bound,
    fuel: nat,
    tlo: Bound,
    thi: Bound,
)
    requires
        ewf(ns, e, lo, hi, fuel),
        path_range_ok(ns, e, dirs, lo, hi, tlo, thi),
    ensures
        dirs.len() <= fuel || dirs.len() == 0,
        ewf(ns, follow(ns, e, dirs), tlo, thi, (fuel - dirs.len()) as nat),
        forall|j: int|
            #[trigger] enodes(ns, follow(ns, e, dirs), (fuel - dirs.len()) as nat).contains(
                j,
            ) ==> enodes(ns, e, fuel).contains(j),
        forall|k: u64| #[trigger] fin_in(k, tlo, thi) ==> fin_in(k, lo, hi),
        forall|k: u64|
            #[trigger] eview(ns, follow(ns, e, dirs), (fuel - dirs.len()) as nat).contains_key(
                k,
            ) ==> eview(ns, e, fuel).contains_key(k) && eview(ns, e, fuel)[k] == eview(
                ns,
                follow(ns, e, dirs),
                (fuel - dirs.len()) as nat,
            )[k],
    decreases dirs.len(),
{
    if dirs.len() == 0 {
    } else {
        let n = ns[e.spec_idx() as int];
        let d0 = dirs[0];
        let chosen = child_edge(n, d0);
        let sib = child_edge(n, !d0);
        let clo = if d0 { key_bound(n.key) } else { lo };
        let chi = if d0 { hi } else { key_bound(n.key) };
        let slo = if d0 { lo } else { key_bound(n.key) };
        let shi = if d0 { key_bound(n.key) } else { hi };
        let rest = dirs.drop_first();
        assert(ewf(ns, chosen, clo, chi, (fuel - 1) as nat));
        lemma_path_wf(ns, chosen, rest, clo, chi, (fuel - 1) as nat, tlo, thi);
        assert(follow(ns, e, dirs) == follow(ns, chosen, rest));
        assert(((fuel - 1) - rest.len()) as nat == (fuel - dirs.len()) as nat);
        assert forall|j: int| #[trigger] enodes(ns, chosen, (fuel - 1) as nat).contains(j)
            implies enodes(ns, e, fuel).contains(j) by {}
        lemma_eshape(ns, chosen, clo, chi, (fuel - 1) as nat);
        lemma_eshape(ns, sib, slo, shi, (fuel - 1) as nat);
        assert forall|k: u64|
            #[trigger] eview(ns, follow(ns, e, dirs), (fuel - dirs.len()) as nat).contains_key(
                k,
            ) implies eview(ns, e, fuel).contains_key(k) && eview(ns, e, fuel)[k] == eview(
            ns,
            follow(ns, e, dirs),
            (fuel - dirs.len()) as nat,
        )[k] by {
            assert(eview(ns, chosen, (fuel - 1) as nat).contains_key(k));
            assert(fin_in(k, clo, chi));
            assert(!eview(ns, sib, (fuel - 1) as nat).contains_key(k));
        }
    }
}

/// Replacing the subtree at the end of a path: one slot's child edge is
/// redirected to a new subtree; everything else of the tree is untouched.
/// The whole tree stays well formed, and its map loses the old subtree's
/// keys and gains the new subtree's map.
#[verifier::rlimit(100)]
proof fn lemma_replace<V>(
    ns: Seq<Node<V>>,
    ns2: Seq<Node<V>>,
    e: Edge,
    dirs: Seq<bool>,
    lo: Bound,
    hi: Bound,
    fuel: nat,
    enew: Edge,
    f2: nat,
    tlo: Bound,
    thi: Bound,
)
    requires
        ewf(ns, e, lo, hi, fuel),
        dirs.len() >= 1,
        path_range_ok(ns, e, dirs, lo, hi, tlo, thi),
        ns.len() <= ns2.len(),
        forall|j: int|
            #[trigger] enodes(ns, e, fuel).contains(j) && j != follow(
                ns,
                e,
                dirs.drop_last(),
            ).spec_idx() && !enodes(ns, follow(ns, e, dirs), (fuel - dirs.len()) as nat).contains(
                j,
            ) ==> ns2[j] == ns[j],
        follow(ns, e, dirs.drop_last()).spec_idx() < ns.len(),
        ns2[follow(ns, e, dirs.drop_last()).spec_idx() as int].key == ns[follow(
            ns,
            e,
            dirs.drop_last(),
        ).spec_idx() as int].key,
        ns2[follow(ns, e, dirs.drop_last()).spec_idx() as int].value == ns[follow(
            ns,
            e,
            dirs.drop_last(),
        ).spec_idx() as int].value,
        child_edge(ns2[follow(ns, e, dirs.drop_last()).spec_idx() as int], dirs.last())
            == enew,
        child_edge(ns2[follow(ns, e, dirs.drop_last()).spec_idx() as int], !dirs.last())
            == child_edge(ns[follow(ns, e, dirs.drop_last()).spec_idx() as int], !dirs.last()),
        ewf(ns2, enew, tlo, thi, f2),
        !enew.spec_null(),
        forall|j: int|
            #[trigger] enodes(ns2, enew, f2).contains(j) && enodes(ns, e, fuel).contains(j)
                ==> enodes(ns, follow(ns, e, dirs), (fuel - dirs.len()) as nat).contains(j),
    ensures
        ewf(ns2, e, lo, hi, (fuel + f2) as nat),
        eview(ns2, e, (fuel + f2) as nat) == eview(ns, e, fuel).remove_keys(
            eview(ns, follow(ns, e, dirs), (fuel - dirs.len()) as nat).dom(),
        ).union_prefer_right(eview(ns2, enew, f2)),
        forall|j: int|
            #[trigger] enodes(ns2, e, (fuel + f2) as nat).contains(j) ==> enodes(
                ns,
                e,
                fuel,
            ).contains(j) || enodes(ns2, enew, f2).contains(j),
    decreases dirs.len(),
{
    let i = e.spec_idx() as int;
    let n = ns[i];
    let d0 = dirs[0];
    lemma_eshape(ns, e, lo, hi, fuel);
    assert(enodes(ns, e, fuel).contains(i));
    lemma_eshape(ns, n.left, lo, key_bound(n.key), (fuel - 1) as nat);
    lemma_eshape(ns, n.right, key_bound(n.key), hi, (fuel - 1) as nat);
    assert forall|j: int| #[trigger] enodes(ns, n.left, (fuel - 1) as nat).contains(j)
        implies enodes(ns, e, fuel).contains(j) by {}
    assert forall|j: int| #[trigger] enodes(ns, n.right, (fuel - 1) as nat).contains(j)
        implies enodes(ns, e, fuel).contains(j) by {}
    let chosen = child_edge(n, d0);
    let sib = child_edge(n, !d0);
    let clo = if d0 { key_bound(n.key) } else { lo };
    let chi = if d0 { hi } else { key_bound(n.key) };
    let slo = if d0 { lo } else { key_bound(n.key) };
    let shi = if d0 { key_bound(n.key) } else { hi };
    if dirs.len() == 1 {
        assert(dirs.drop_last() =~= Seq::<bool>::empty());
        assert(follow(ns, e, dirs.drop_last()) == e);
        assert(dirs.last() == d0);
        let n2 = ns2[i];
        assert(dirs.drop_first() =~= Seq::<bool>::empty());
        assert(follow(ns, e, dirs) == follow(ns, chosen, dirs.drop_first()));
        assert(follow(ns, chosen, Seq::<bool>::empty()) == chosen);
        assert(follow(ns, e, dirs) == chosen);
        assert(path_range_ok(ns, chosen, dirs.drop_first(), clo, chi, tlo, thi));
        assert(path_range_ok(ns, chosen, Seq::<bool>::empty(), clo, chi, tlo, thi));
        assert(tlo == clo && thi == chi);
        lemma_fuel(ns, chosen, clo, chi, (fuel - 1) as nat, (fuel - dirs.len()) as nat);
        assert forall|j: int| #[trigger] enodes(ns, sib, (fuel - 1) as nat).contains(j)
            implies ns2[j] == ns[j] by {
            assert(!enodes(ns, chosen, (fuel - 1) as nat).contains(j));
            assert(!enodes(ns, follow(ns, e, dirs), (fuel - dirs.len()) as nat).contains(j));
        }
        lemma_eframe(ns, ns2, sib, slo, shi, (fuel - 1) as nat);
        lemma_fuel(ns2, sib, slo, shi, (fuel - 1) as nat, (fuel + f2 - 1) as nat);
        lemma_fuel(ns2, enew, tlo, thi, f2, (fuel + f2 - 1) as nat);
        lemma_eshape(ns2, enew, tlo, thi, f2);
        lemma_fuel(ns, chosen, clo, chi, (fuel - 1) as nat, fuel);
        assert((fuel - dirs.len()) as nat >= (fuel - 1) as nat);
        lemma_fuel(ns, chosen, clo, chi, (fuel - 1) as nat, (fuel - dirs.len()) as nat);
        assert(ewf(ns2, e, lo, hi, (fuel + f2) as nat)) by {
            assert(child_edge(n2, d0) == enew);
            assert(child_edge(n2, !d0) == sib);
            assert(ewf(ns2, enew, tlo, thi, (fuel + f2 - 1) as nat));
            assert(ewf(ns2, sib, slo, shi, (fuel + f2 - 1) as nat));
            assert(enodes(ns2, enew, (fuel + f2 - 1) as nat) == enodes(ns2, enew, f2));
            assert(enodes(ns2, sib, (fuel + f2 - 1) as nat) == enodes(ns, sib, (fuel
                - 1) as nat));
            assert forall|j: int| #[trigger] enodes(ns2, enew, f2).contains(j) implies !enodes(
                ns,
                sib,
                (fuel - 1) as nat,
            ).contains(j) && j != i by {
                if enodes(ns, sib, (fuel - 1) as nat).contains(j) || j == i {
                    assert(enodes(ns, e, fuel).contains(j));
                    assert(enodes(ns, chosen, (fuel - dirs.len()) as nat).contains(j));
                    assert(enodes(ns, chosen, (fuel - 1) as nat).contains(j));
                }
            }
            assert(!n2.left.spec_null() && !n2.right.spec_null());
            assert(enodes(ns2, enew, f2).disjoint(enodes(ns, sib, (fuel - 1) as nat)));
            assert(!enodes(ns2, enew, f2).contains(i));
            assert(!enodes(ns, sib, (fuel - 1) as nat).contains(i));
        }
        assert(eview(ns2, e, (fuel + f2) as nat) =~= eview(ns, e, fuel).remove_keys(
            eview(ns, chosen, (fuel - dirs.len()) as nat).dom(),
        ).union_prefer_right(eview(ns2, enew, f2))) by {
            assert(eview(ns2, e, (fuel + f2) as nat) == eview(ns2, sib, (fuel + f2
                - 1) as nat).union_prefer_right(eview(ns2, enew, (fuel + f2 - 1) as nat))
                || eview(ns2, e, (fuel + f2) as nat) == eview(ns2, enew, (fuel + f2
                - 1) as nat).union_prefer_right(eview(ns2, sib, (fuel + f2 - 1) as nat)));
            assert(eview(ns2, sib, (fuel + f2 - 1) as nat) == eview(ns, sib, (fuel
                - 1) as nat));
            assert(eview(ns2, enew, (fuel + f2 - 1) as nat) == eview(ns2, enew, f2));
            assert(eview(ns, e, fuel) == eview(ns, n.left, (fuel - 1) as nat).union_prefer_right(
                eview(ns, n.right, (fuel - 1) as nat),
            ));
            assert(eview(ns, chosen, (fuel - dirs.len()) as nat) == eview(ns, chosen, (fuel
                - 1) as nat));
            lemma_eshape(ns, sib, slo, shi, (fuel - 1) as nat);
            lemma_eshape(ns, chosen, clo, chi, (fuel - 1) as nat);
        }
        assert forall|j: int|
            #[trigger] enodes(ns2, e, (fuel + f2) as nat).contains(j) implies enodes(
            ns,
            e,
            fuel,
        ).contains(j) || enodes(ns2, enew, f2).contains(j) by {}
    } else {
        let rest = dirs.drop_first();
        assert(rest.len() >= 1);
        assert(follow(ns, e, dirs.drop_last()) == follow(ns, chosen, rest.drop_last())) by {
            assert(dirs.drop_last()[0] == d0);
            assert(dirs.drop_last().drop_first() =~= rest.drop_last());
            assert(follow(ns, e, dirs.drop_last()) == follow(ns, chosen, dirs.drop_last(
            ).drop_first()));
        }
        assert(follow(ns, e, dirs) == follow(ns, chosen, rest));
        assert(rest.last() == dirs.last());
        let eidx = follow(ns, chosen, rest.drop_last()).spec_idx() as int;
        lemma_path_wf(ns, chosen, rest, clo, chi, (fuel - 1) as nat, tlo, thi);
        assert(((fuel - 1) - rest.len()) as nat == (fuel - dirs.len()) as nat);
        lemma_replace(ns, ns2, chosen, rest, clo, chi, (fuel - 1) as nat, enew, f2, tlo,
            thi);
        // the sibling and this node are untouched
        lemma_path_wf(ns, e, dirs, lo, hi, fuel, tlo, thi);
        lemma_path_wf_prefix(ns, chosen, rest, clo, chi, (fuel - 1) as nat, tlo, thi);
        assert(enodes(ns, chosen, (fuel - 1) as nat).contains(eidx));
        assert(eidx != i);
        assert(ns2[i] == ns[i]);
        assert forall|j: int| #[trigger] enodes(ns, sib, (fuel - 1) as nat).contains(j)
            implies ns2[j] == ns[j] by {
            assert(!enodes(ns, chosen, (fuel - 1) as nat).contains(j));
            assert(!enodes(ns, follow(ns, e, dirs), (fuel - dirs.len()) as nat).contains(j));
        }
        assert(!enodes(ns, follow(ns, e, dirs), (fuel - dirs.len()) as nat).contains(i));
        lemma_eframe(ns, ns2, sib, slo, shi, (fuel - 1) as nat);
        lemma_fuel(ns2, sib, slo, shi, (fuel - 1) as nat, (fuel + f2 - 1) as nat);
        lemma_fuel(ns2, chosen, clo, chi, ((fuel - 1) + f2) as nat, (fuel + f2 - 1) as nat);
        let etgt = follow(ns, chosen, rest);
        lemma_eshape(ns2, chosen, clo, chi, ((fuel - 1) + f2) as nat);
        lemma_eshape(ns2, enew, tlo, thi, f2);
        lemma_eshape(ns, etgt, tlo, thi, (fuel - dirs.len()) as nat);
        lemma_eshape(ns, chosen, clo, chi, (fuel - 1) as nat);
        lemma_eshape(ns, sib, slo, shi, (fuel - 1) as nat);
        assert(ewf(ns2, e, lo, hi, (fuel + f2) as nat)) by {
            assert(ewf(ns2, chosen, clo, chi, (fuel + f2 - 1) as nat));
            assert(ewf(ns2, sib, slo, shi, (fuel + f2 - 1) as nat));
            assert(ns2[i] == ns[i]);
            assert forall|j: int|
                #[trigger] enodes(ns2, chosen, (fuel + f2 - 1) as nat).contains(j) implies
                !enodes(ns, sib, (fuel - 1) as nat).contains(j) && j != i by {
                assert(enodes(ns2, chosen, ((fuel - 1) + f2) as nat).contains(j));
                if enodes(ns, chosen, (fuel - 1) as nat).contains(j) {
                } else {
                    assert(enodes(ns2, enew, f2).contains(j));
                    if enodes(ns, sib, (fuel - 1) as nat).contains(j) || j == i {
                        assert(enodes(ns, e, fuel).contains(j));
                        assert(enodes(ns, etgt, (fuel - dirs.len()) as nat).contains(j));
                        assert(enodes(ns, chosen, (fuel - 1) as nat).contains(j));
                    }
                }
            }
        }
        let cview0 = eview(ns, chosen, (fuel - 1) as nat);
        let sview0 = eview(ns, sib, (fuel - 1) as nat);
        let dkeys = eview(ns, etgt, (fuel - dirs.len()) as nat).dom();
        let nview = eview(ns2, enew, f2);
        assert(eview(ns2, chosen, (fuel + f2 - 1) as nat) == cview0.remove_keys(
            dkeys,
        ).union_prefer_right(nview)) by {
            assert(((fuel - 1) - rest.len()) as nat == (fuel - dirs.len()) as nat);
            assert(eview(ns2, chosen, ((fuel - 1) + f2) as nat) == cview0.remove_keys(
                dkeys,
            ).union_prefer_right(nview));
        }
        assert(eview(ns2, sib, (fuel + f2 - 1) as nat) == sview0);
        assert(forall|k: u64| #[trigger] dkeys.contains(k) ==> fin_in(k, tlo, thi));
        assert(forall|k: u64| #[trigger] nview.contains_key(k) ==> fin_in(k, tlo, thi));
        assert(forall|k: u64| #[trigger] sview0.contains_key(k) ==> fin_in(k, slo, shi));
        assert(forall|k: u64| #[trigger] cview0.contains_key(k) ==> fin_in(k, clo, chi));
        assert(forall|k: u64| fin_in(k, tlo, thi) ==> #[trigger] fin_in(k, clo, chi)) by {
            lemma_path_wf(ns, chosen, rest, clo, chi, (fuel - 1) as nat, tlo, thi);
        }
        if d0 {
            assert(eview(ns2, e, (fuel + f2) as nat) == sview0.union_prefer_right(
                eview(ns2, chosen, (fuel + f2 - 1) as nat),
            ));
            assert(eview(ns, e, fuel) == sview0.union_prefer_right(cview0));
            assert(eview(ns2, e, (fuel + f2) as nat) =~= eview(ns, e, fuel).remove_keys(
                dkeys,
            ).union_prefer_right(nview));
        } else {
            assert(eview(ns2, e, (fuel + f2) as nat) == eview(ns2, chosen, (fuel + f2
                - 1) as nat).union_prefer_right(sview0));
            assert(eview(ns, e, fuel) == cview0.union_prefer_right(sview0));
            assert(eview(ns2, e, (fuel + f2) as nat) =~= eview(ns, e, fuel).remove_keys(
                dkeys,
            ).union_prefer_right(nview));
        }
    }
}

/// The prefix of a path to the edit slot stays within the subtree.
proof fn lemma_path_wf_prefix<V>(
    ns: Seq<Node<V>>,
    e: Edge,
    dirs: Seq<bool>,
    lo: Bound,
    hi: Bound,
    fuel: nat,
    tlo: Bound,
    thi: Bound,
)
    requires
        ewf(ns, e, lo, hi, fuel),
        dirs.len() >= 1,
        path_range_ok(ns, e, dirs, lo, hi, tlo, thi),
    ensures
        enodes(ns, follow(ns, e, dirs.drop_last()), (fuel - dirs.drop_last().len()) as nat).contains(
            follow(ns, e, dirs.drop_last()).spec_idx() as int,
        ),
        forall|j: int|
            #[trigger] enodes(ns, follow(ns, e, dirs.drop_last()), (fuel - dirs.drop_last().len()) as nat).contains(
                j,
            ) ==> enodes(ns, e, fuel).contains(j),
        !enodes(ns, follow(ns, e, dirs), (fuel - dirs.len()) as nat).contains(
            follow(ns, e, dirs.drop_last()).spec_idx() as int,
        ),
    decreases dirs.len(),
{
    lemma_path_prefix_ok(ns, e, dirs, lo, hi, tlo, thi);
    let (plo, phi) = choose|plo: Bound, phi: Bound|
        path_range_ok(ns, e, dirs.drop_last(), lo, hi, plo, phi);
    lemma_path_wf(ns, e, dirs.drop_last(), lo, hi, fuel, plo, phi);
    lemma_path_last_internal(ns, e, dirs, lo, hi, tlo, thi);
    let pe = follow(ns, e, dirs.drop_last());
    let pn = ns[pe.spec_idx() as int];
    let pfu = (fuel - dirs.drop_last().len()) as nat;
    lemma_eshape(ns, pe, plo, phi, pfu);
    // the final edge's subtree does not reach back to its parent
    assert(dirs =~= dirs.drop_last().push(dirs.last()));
    lemma_follow_push(ns, e, dirs.drop_last(), dirs.last());
    assert(follow(ns, e, dirs) == child_edge(pn, dirs.last()));
    assert(ewf(ns, pe, plo, phi, pfu));
    assert(!enodes(ns, child_edge(pn, dirs.last()), (pfu - 1) as nat).contains(
        pe.spec_idx() as int,
    ));
    lemma_path_wf(ns, e, dirs, lo, hi, fuel, tlo, thi);
    assert(ewf(ns, follow(ns, e, dirs), tlo, thi, (fuel - dirs.len()) as nat));
    assert((fuel - dirs.len()) as nat <= (pfu - 1) as nat);
    lemma_fuel(ns, follow(ns, e, dirs), tlo, thi, (fuel - dirs.len()) as nat, (pfu
        - 1) as nat);
    assert(enodes(ns, follow(ns, e, dirs), (pfu - 1) as nat) == enodes(ns, follow(ns, e,
        dirs), (fuel - dirs.len()) as nat));
}

/// A valid path's prefix is a valid path to some range.
proof fn lemma_path_prefix_ok<V>(
    ns: Seq<Node<V>>,
    e: Edge,
    dirs: Seq<bool>,
    lo: Bound,
    hi: Bound,
    tlo: Bound,
    thi: Bound,
)
    requires
        dirs.len() >= 1,
        path_range_ok(ns, e, dirs, lo, hi, tlo, thi),
    ensures
        exists|plo: Bound, phi: Bound|
            path_range_ok(ns, e, dirs.drop_last(), lo, hi, plo, phi),
    decreases dirs.len(),
{
    if dirs.len() == 1 {
        assert(dirs.drop_last() =~= Seq::<bool>::empty());
        assert(path_range_ok(ns, e, dirs.drop_last(), lo, hi, lo, hi));
    } else {
        let n = ns[e.spec_idx() as int];
        let d0 = dirs[0];
        let chosen = child_edge(n, d0);
        let clo = if d0 { key_bound(n.key) } else { lo };
        let chi = if d0 { hi } else { key_bound(n.key) };
        let rest = dirs.drop_first();
        lemma_path_prefix_ok(ns, chosen, rest, clo, chi, tlo, thi);
        let (plo, phi) = choose|plo: Bound, phi: Bound|
            path_range_ok(ns, chosen, rest.drop_last(), clo, chi, plo, phi);
        assert(dirs.drop_last()[0] == d0);
        assert(dirs.drop_last().drop_first() =~= rest.drop_last());
        assert(path_range_ok(ns, e, dirs.drop_last(), lo, hi, plo, phi));
    }
}

/// The node at a valid path's prefix is internal.
proof fn lemma_path_last_internal<V>(
    ns: Seq<Node<V>>,
    e: Edge,
    dirs: Seq<bool>,
    lo: Bound,
    hi: Bound,
    tlo: Bound,
    thi: Bound,
)
    requires
        dirs.len() >= 1,
        path_range_ok(ns, e, dirs, lo, hi, tlo, thi),
    ensures
        !follow(ns, e, dirs.drop_last()).spec_null(),
        follow(ns, e, dirs.drop_last()).spec_idx() < ns.len(),
        !ns[follow(ns, e, dirs.drop_last()).spec_idx() as int].left.spec_null(),
    decreases dirs.len(),
{
    if dirs.len() == 1 {
        assert(dirs.drop_last() =~= Seq::<bool>::empty());
        assert(follow(ns, e, dirs.drop_last()) == e);
    } else {
        let n = ns[e.spec_idx() as int];
        let d0 = dirs[0];
        let chosen = child_edge(n, d0);
        let clo = if d0 { key_bound(n.key) } else { lo };
        let chi = if d0 { hi } else { key_bound(n.key) };
        let rest = dirs.drop_first();
        lemma_path_last_internal(ns, chosen, rest, clo, chi, tlo, thi);
        assert(dirs.drop_last()[0] == d0);
        assert(dirs.drop_last().drop_first() =~= rest.drop_last());
        assert(follow(ns, e, dirs.drop_last()) == follow(ns, chosen, dirs.drop_last(
        ).drop_first()));
    }
}

/// A subtree well formed within tight bounds is well formed within looser
/// ones.
proof fn lemma_ewiden<V>(
    ns: Seq<Node<V>>,
    e: Edge,
    lo: Bound,
    hi: Bound,
    lo2: Bound,
    hi2: Bound,
    fuel: nat,
)
    requires
        ewf(ns, e, lo, hi, fuel),
        bnd_le(lo2, lo),
        bnd_le(hi, hi2),
    ensures
        ewf(ns, e, lo2, hi2, fuel),
    decreases fuel,
{
    if !e.spec_null() {
        let n = ns[e.spec_idx() as int];
        if !n.left.spec_null() {
            lemma_ewiden(ns, n.left, lo, key_bound(n.key), lo2, key_bound(n.key), (fuel
                - 1) as nat);
            lemma_ewiden(ns, n.right, key_bound(n.key), hi, key_bound(n.key), hi2, (fuel
                - 1) as nat);
        }
    }
}

/// Following no directions stays put.
proof fn lemma_follow_empty<V>(ns: Seq<Node<V>>, e: Edge)
    ensures
        follow(ns, e, Seq::<bool>::empty()) == e,
{
}

/// Following one more direction steps through the child edge.
proof fn lemma_follow_push<V>(ns: Seq<Node<V>>, e: Edge, path: Seq<bool>, d: bool)
    ensures
        follow(ns, e, path.push(d)) == child_edge(
            ns[follow(ns, e, path).spec_idx() as int],
            d,
        ),
    decreases path.len(),
{
    if path.len() == 0 {
        assert(path.push(d)[0] == d);
        assert(path.push(d).drop_first() =~= Seq::<bool>::empty());
        assert(follow(ns, e, path.push(d)) == follow(ns, child_edge(
            ns[e.spec_idx() as int],
            d,
        ), Seq::<bool>::empty()));
    } else {
        let ch = child_edge(ns[e.spec_idx() as int], path[0]);
        assert(path.push(d)[0] == path[0]);
        assert(path.push(d).drop_first() =~= path.drop_first().push(d));
        lemma_follow_push(ns, ch, path.drop_first(), d);
        assert(follow(ns, e, path) == follow(ns, ch, path.drop_first()));
    }
}

/// Extending a valid path by one step through an internal node.
proof fn lemma_path_push<V>(
    ns: Seq<Node<V>>,
    e: Edge,
    path: Seq<bool>,
    lo: Bound,
    hi: Bound,
    plo: Bound,
    phi: Bound,
    d: bool,
)
    requires
        path_range_ok(ns, e, path, lo, hi, plo, phi),
        !follow(ns, e, path).spec_null(),
        follow(ns, e, path).spec_idx() < ns.len(),
        !ns[follow(ns, e, path).spec_idx() as int].left.spec_null(),
    ensures
        path_range_ok(ns, e, path.push(d), lo, hi, if d {
            key_bound(ns[follow(ns, e, path).spec_idx() as int].key)
        } else {
            plo
        }, if d {
            phi
        } else {
            key_bound(ns[follow(ns, e, path).spec_idx() as int].key)
        }),
    decreases path.len(),
{
    let n0 = ns[e.spec_idx() as int];
    if path.len() == 0 {
        assert(follow(ns, e, path) == e);
        assert(plo == lo && phi == hi);
        let tgt = ns[e.spec_idx() as int];
        let nlo = if d { key_bound(tgt.key) } else { lo };
        let nhi = if d { hi } else { key_bound(tgt.key) };
        let ch = child_edge(tgt, d);
        assert(path.push(d)[0] == d);
        assert(path.push(d).drop_first() =~= Seq::<bool>::empty());
        assert(path_range_ok(ns, ch, Seq::<bool>::empty(), nlo, nhi, nlo, nhi));
        assert(path_range_ok(ns, e, path.push(d), lo, hi, nlo, nhi));
    } else {
        let n = ns[e.spec_idx() as int];
        let ch = child_edge(n, path[0]);
        let clo = if path[0] { key_bound(n.key) } else { lo };
        let chi = if path[0] { hi } else { key_bound(n.key) };
        assert(follow(ns, e, path) == follow(ns, ch, path.drop_first()));
        lemma_path_push(ns, ch, path.drop_first(), clo, chi, plo, phi, d);
        assert(path.push(d)[0] == path[0]);
        assert(path.push(d).drop_first() =~= path.drop_first().push(d));
    }
}

/// The per-operation record of a seek: the deepest clean node (`ancestor`),
/// the start of the marked window below it (`successor`, null when the
/// window is empty), the candidate leaf's parent, the leaf itself, the next
/// probe, the directions taken, and the found leaf for output.  The ghost
/// fields carry the seek's path and the leaf edge's key range.
pub struct SeekRecord {
    ancestor: usize,
    successor: Edge,
    successor_dir: bool,
    parent: usize,
    leaf: Edge,
    leaf_dir: bool,
    curr: Edge,
    curr_dir: bool,
    found: Edge,
    path: Ghost<Seq<bool>>,
    plo: Ghost<Bound>,
    phi: Ghost<Bound>,
}

impl SeekRecord {
    pub closed spec fn spec_found(self) -> Edge {
        self.found
    }
}

impl<V> OutputHolder<V> for SeekRecord {
    fn default() -> Self {
        SeekRecord {
            ancestor: 0,
            successor: Edge { null: true, idx: 0, flag: false, tag: false },
            successor_dir: false,
            parent: 0,
            leaf: Edge { null: true, idx: 0, flag: false, tag: false },
            leaf_dir: false,
            curr: Edge { null: true, idx: 0, flag: false, tag: false },
            curr_dir: false,
            found: Edge { null: true, idx: 0, flag: false, tag: false },
            path: Ghost(Seq::empty()),
            plo: Ghost(Bound::Bot),
            phi: Ghost(Bound::Top),
        }
    }
}

/// The tree: the node arena and the index of the fixed root sentinel.
pub struct NMTreeMap<V> {
    nodes: Vec<Node<V>>,
    r: usize,
    fuel: Ghost<nat>,
}

impl<V> NMTreeMap<V> {
    spec fn ns(self) -> Seq<Node<V>> {
        self.nodes@
    }

    spec fn root_edge(self) -> Edge {
        Edge { null: false, idx: self.r, flag: false, tag: false }
    }

    /// The infinite-key spine of the skeleton: the root sentinel, its left
    /// child, and that node's left-edge target all carry the infinite key,
    /// so a seek for any finite key correctly starts by descending left
    /// twice and then once more.
    spec fn skel_ok(self) -> bool {
        let ns = self.ns();
        &&& self.r < ns.len()
        &&& ns[self.r as int].key == Key::Inf
        &&& !ns[self.r as int].left.spec_null()
        &&& ns[self.r as int].left.spec_idx() < ns.len()
        &&& {
            let si = ns[self.r as int].left.spec_idx() as int;
            &&& ns[si].key == Key::Inf
            &&& !ns[si].left.spec_null()
            &&& ns[si].left.spec_idx() < ns.len()
            &&& ns[ns[si].left.spec_idx() as int].key == Key::Inf
        }
    }

    /// Well-formedness: the whole tree hangs off the root sentinel, well
    /// formed and clean within the recorded depth, with the sentinel spine
    /// in place.
    pub closed spec fn wf(self) -> bool {
        &&& ewf(self.ns(), self.root_edge(), Bound::Bot, Bound::Top, self.fuel@)
        &&& self.skel_ok()
    }

    /// The tree as a mathematical map.
    pub closed spec fn view(self) -> Map<u64, V> {
        eview(self.ns(), self.root_edge(), self.fuel@)
    }

    /// The value a record exposes, if any.
    pub closed spec fn output_of(self, rec: &SeekRecord) -> Option<V> {
        if !rec.found.spec_null() && rec.found.spec_idx() < self.ns().len() {
            self.ns()[rec.found.spec_idx() as int].value
        } else {
            None
        }
    }

    /// An empty tree: the five-sentinel skeleton, so that a seek always has
    /// a well-defined ancestor and parent.
    pub fn new() -> (t: Self)
        ensures
            t.wf(),
            t.view() == Map::<u64, V>::empty(),
    {
        let mut nodes: Vec<Node<V>> = Vec::new();
        let e_none = Edge { null: true, idx: 0, flag: false, tag: false };
        nodes.push(Node { key: Key::Inf, value: None, left: e_none, right: e_none });
        nodes.push(Node { key: Key::Inf, value: None, left: e_none, right: e_none });
        nodes.push(Node { key: Key::Inf, value: None, left: Edge::to(0), right: Edge::to(1) });
        nodes.push(Node { key: Key::Inf, value: None, left: e_none, right: e_none });
        nodes.push(Node { key: Key::Inf, value: None, left: Edge::to(2), right: Edge::to(3) });
        let t = NMTreeMap { nodes, r: 4, fuel: Ghost(3nat) };
        proof {
            let ns = t.ns();
            let en = Edge { null: true, idx: 0, flag: false, tag: false };
            assert(enodes(ns, en, 0nat) =~= Set::<int>::empty());
            assert(enodes(ns, en, 1nat) =~= Set::<int>::empty());
            assert(eview(ns, en, 0nat) =~= Map::<u64, V>::empty());
            assert(eview(ns, en, 1nat) =~= Map::<u64, V>::empty());
            assert(ewf(ns, en, Bound::Bot, Bound::Top, 0nat));
            assert(enodes(ns, (Edge { null: false, idx: 0, flag: false, tag: false }), 1nat) =~= Set::<int>::empty().insert(0));
            assert(enodes(ns, (Edge { null: false, idx: 1, flag: false, tag: false }), 1nat) =~= Set::<int>::empty().insert(1));
            assert(enodes(ns, (Edge { null: false, idx: 3, flag: false, tag: false }), 2nat) =~= Set::<int>::empty().insert(3));
            assert(enodes(ns, (Edge { null: false, idx: 2, flag: false, tag: false }), 2nat) =~= Set::<int>::empty().insert(0).insert(
                1,
            ).insert(2));
            assert(ewf(ns, (Edge { null: false, idx: 0, flag: false, tag: false }), Bound::Bot, Bound::Top, 1nat));
            assert(ewf(ns, (Edge { null: false, idx: 1, flag: false, tag: false }), Bound::Top, Bound::Top, 1nat));
            assert(ewf(ns, (Edge { null: false, idx: 2, flag: false, tag: false }), Bound::Bot, Bound::Top, 2nat));
            assert(ewf(ns, (Edge { null: false, idx: 3, flag: false, tag: false }), Bound::Top, Bound::Top, 2nat));
            assert(t.wf());
            assert(eview(ns, (Edge { null: false, idx: 0, flag: false, tag: false }), 1nat) =~= Map::<u64, V>::empty());
            assert(eview(ns, (Edge { null: false, idx: 1, flag: false, tag: false }), 1nat) =~= Map::<u64, V>::empty());
            assert(eview(ns, (Edge { null: false, idx: 0, flag: false, tag: false }), 2nat) =~= Map::<u64, V>::empty());
            assert(eview(ns, (Edge { null: false, idx: 1, flag: false, tag: false }), 2nat) =~= Map::<u64, V>::empty());
            assert(eview(ns, (Edge { null: false, idx: 2, flag: false, tag: false }), 2nat) =~= Map::<u64, V>::empty());
            assert(eview(ns, (Edge { null: false, idx: 3, flag: false, tag: false }), 2nat) =~= Map::<u64, V>::empty());
            assert(t.view() =~= Map::<u64, V>::empty());
        }
        t
    }
}

/// What a finished seek guarantees: the recorded path leads to the
/// candidate leaf within its range, the parent and ancestor sit at the two
/// preceding path positions, the marked window is empty, the search key is
/// in the leaf edge's range, and the candidate decides membership.
pub closed spec fn seek_ok<V>(rec: SeekRecord, t: NMTreeMap<V>, key: u64) -> bool {
    let ns = t.ns();
    &&& rec.path@.len() >= 2
    &&& path_range_ok(ns, t.root_edge(), rec.path@, Bound::Bot, Bound::Top, rec.plo@,
        rec.phi@)
    &&& follow(ns, t.root_edge(), rec.path@) == rec.leaf
    &&& !rec.leaf.spec_null()
    &&& rec.leaf.spec_idx() < ns.len()
    &&& ns[rec.leaf.spec_idx() as int].left.spec_null()
    &&& rec.parent == follow(ns, t.root_edge(), rec.path@.drop_last()).spec_idx()
    &&& rec.ancestor == follow(
        ns,
        t.root_edge(),
        rec.path@.drop_last().drop_last(),
    ).spec_idx()
    &&& rec.leaf_dir == rec.path@.last()
    &&& rec.successor_dir == rec.path@.drop_last().last()
    &&& rec.successor.spec_null()
    &&& fin_in(key, rec.plo@, rec.phi@)
    &&& rec.parent != t.r
    &&& rec.leaf.spec_idx() != t.r
    &&& (rec.ancestor == t.r ==> ns[rec.leaf.spec_idx() as int].key == Key::Inf)
    &&& (ns[rec.leaf.spec_idx() as int].key == Key::Fin(key) <==> t.view().contains_key(key))
    &&& (ns[rec.leaf.spec_idx() as int].key == Key::Fin(key) ==> ns[rec.leaf.spec_idx() as int].value
        == Some(t.view()[key]))
}

impl<V> NMTreeMap<V> {
    /// Walks from the root, keeping `ancestor` one step above `parent` and
    /// `parent` one above `leaf`, descending by key order, until the probe
    /// runs off the candidate leaf.  On a clean tree the marked window
    /// stays empty.
    #[verifier::loop_isolation(false)]
    #[verifier::rlimit(100)]
    fn seek(&self, key: &u64, record: &mut SeekRecord)
        requires
            self.wf(),
        ensures
            seek_ok(*final(record), *self, *key),
    {
        let ghost ns = self.ns();
        let ghost fuel = self.fuel@;
        record.ancestor = self.r;
        let r_left = self.nodes[self.r].left;
        record.parent = r_left.index();
        record.successor = Edge { null: true, idx: 0, flag: false, tag: false };
        record.successor_dir = false;
        record.leaf = self.nodes[record.parent].left;
        record.leaf_dir = false;
        let ghost p0: Seq<bool> = seq![false, false];
        record.path = Ghost(p0);
        record.plo = Ghost(Bound::Bot);
        record.phi = Ghost(Bound::Top);
        proof {
            let s2: Seq<bool> = seq![false, false];
            let s1: Seq<bool> = seq![false];
            let rn = ns[self.r as int];
            let e1 = rn.left;
            let sn = ns[e1.spec_idx() as int];
            let e2 = sn.left;
            assert(s2.drop_first() =~= s1);
            assert(s1.drop_first() =~= Seq::<bool>::empty());
            lemma_follow_empty(ns, e1);
            lemma_follow_empty(ns, e2);
            assert(follow(ns, self.root_edge(), s1) == follow(ns, e1, s1.drop_first()));
            assert(follow(ns, e1, s1.drop_first()) == follow(ns, e1, Seq::<bool>::empty()));
            assert(follow(ns, self.root_edge(), s1) == e1);
            assert(follow(ns, self.root_edge(), s2) == follow(ns, e1, s2.drop_first()));
            assert(follow(ns, e1, s1) == follow(ns, e2, s1.drop_first()));
            assert(follow(ns, e1, s2.drop_first()) == follow(ns, e1, s1));
            assert(follow(ns, self.root_edge(), s2) == e2);
            assert(rn.key == Key::Inf && sn.key == Key::Inf);
            assert(path_range_ok(ns, e2, Seq::<bool>::empty(), Bound::Bot, Bound::Top,
                Bound::Bot, Bound::Top));
            assert(path_range_ok(ns, e1, s1, Bound::Bot, Bound::Top, Bound::Bot,
                Bound::Top));
            assert(path_range_ok(ns, self.root_edge(), s2, Bound::Bot, Bound::Top,
                Bound::Bot, Bound::Top));
            assert(s2.drop_last() =~= s1);
            assert(s1.drop_last() =~= Seq::<bool>::empty());
            lemma_follow_empty(ns, self.root_edge());
            // the root sentinel is outside its own left subtree
            lemma_eshape(ns, self.root_edge(), Bound::Bot, Bound::Top, fuel);
            lemma_eshape(ns, e1, Bound::Bot, Bound::Top, (fuel - 1) as nat);
            assert(!enodes(ns, e1, (fuel - 1) as nat).contains(self.r as int));
            assert(enodes(ns, e1, (fuel - 1) as nat).contains(e1.spec_idx() as int));
            assert(record.parent != self.r);
            lemma_path_wf(ns, e1, s1, Bound::Bot, Bound::Top, (fuel - 1) as nat, Bound::Bot,
                Bound::Top);
            assert(((fuel - 1) - s1.len()) as nat == (fuel - 2) as nat);
            assert(forall|j: int|
                #[trigger] enodes(ns, record.leaf, (fuel - 2) as nat).contains(j)
                    ==> enodes(ns, e1, (fuel - 1) as nat).contains(j));
            assert(!enodes(ns, record.leaf, (fuel - 2) as nat).contains(self.r as int));
            lemma_eshape(ns, record.leaf, Bound::Bot, Bound::Top, (fuel - 2) as nat);
            lemma_path_wf(ns, self.root_edge(), seq![false, false], Bound::Bot, Bound::Top,
                fuel, Bound::Bot, Bound::Top);
            assert(eview(ns, record.leaf, (fuel - 2) as nat).contains_key(*key)
                == self.view().contains_key(*key) && (self.view().contains_key(*key)
                ==> eview(ns, record.leaf, (fuel - 2) as nat)[*key] == self.view()[*key])) by {
                lemma_seek_descend(ns, self.root_edge(), Bound::Bot, Bound::Top, fuel, *key,
                    false);
                let e1 = ns[self.r as int].left;
                lemma_seek_descend(ns, e1, Bound::Bot, Bound::Top, (fuel - 1) as nat, *key,
                    false);
            }
        }
        let mut prev_tag: bool = Marks::new(record.leaf.flag, record.leaf.tag).tag();
        proof {
            assert(!record.leaf.spec_tag());
        }
        record.curr_dir = false;
        let leaf_idx = record.leaf.index();
        record.curr = self.nodes[leaf_idx].left;
        proof {
            let lnode = ns[record.leaf.spec_idx() as int];
            if !lnode.left.spec_null() {
                assert(lnode.key == Key::Inf);
            }
        }
        loop
            invariant
                record.path@.len() >= 2,
                path_range_ok(ns, self.root_edge(), record.path@, Bound::Bot, Bound::Top,
                    record.plo@, record.phi@),
                follow(ns, self.root_edge(), record.path@) == record.leaf,
                !record.leaf.spec_null(),
                record.leaf.spec_idx() < ns.len(),
                record.parent == follow(ns, self.root_edge(), record.path@.drop_last()).spec_idx(),
                record.ancestor == follow(
                    ns,
                    self.root_edge(),
                    record.path@.drop_last().drop_last(),
                ).spec_idx(),
                record.leaf_dir == record.path@.last(),
                record.successor_dir == record.path@.drop_last().last(),
                record.successor.spec_null(),
                prev_tag == false,
                fin_in(*key, record.plo@, record.phi@),
                eview(ns, record.leaf, (fuel - record.path@.len()) as nat).contains_key(*key)
                    == self.view().contains_key(*key),
                self.view().contains_key(*key) ==> eview(ns, record.leaf, (fuel
                    - record.path@.len()) as nat)[*key] == self.view()[*key],
                ns[record.leaf.spec_idx() as int].left.spec_null() ==> record.curr.spec_null(),
                !ns[record.leaf.spec_idx() as int].left.spec_null() ==> {
                    &&& record.curr == child_edge(
                        ns[record.leaf.spec_idx() as int],
                        record.curr_dir,
                    )
                    &&& record.curr_dir == !(match ns[record.leaf.spec_idx() as int].key {
                        Key::Fin(x) => x > *key,
                        Key::Inf => true,
                    })
                },
                !enodes(ns, record.leaf, (fuel - record.path@.len()) as nat).contains(
                    self.r as int,
                ),
                record.leaf.spec_idx() != self.r,
                record.parent != self.r,
                record.ancestor == self.r ==> ns[record.leaf.spec_idx() as int].key
                    == Key::Inf,
            decreases fuel - record.path@.len(),
        {
            if record.curr.is_null() {
                break;
            }
            proof {
                lemma_path_wf(ns, self.root_edge(), record.path@, Bound::Bot, Bound::Top,
                    fuel, record.plo@, record.phi@);
                assert(!ns[record.leaf.spec_idx() as int].left.spec_null());
            }
            let curr_idx = record.curr.index();
            // untagged edge: advance the ancestor and clear the window
            if !prev_tag {
                record.ancestor = record.parent;
                record.successor = Edge { null: true, idx: 0, flag: false, tag: false };
                record.successor_dir = record.leaf_dir;
            }
            let curr_tag = Marks::new(record.curr.flag, record.curr.tag).tag();
            let ghost old_path = record.path@;
            let ghost old_leaf = record.leaf;
            let ghost old_plo = record.plo@;
            let ghost old_phi = record.phi@;
            // advance parent and leaf
            record.parent = record.leaf.index();
            record.leaf = record.curr;
            record.leaf_dir = record.curr_dir;
            prev_tag = curr_tag;
            record.path = Ghost(old_path.push(record.curr_dir));
            record.plo = Ghost(
                if record.curr_dir {
                    key_bound(ns[record.parent as int].key)
                } else {
                    old_plo
                },
            );
            record.phi = Ghost(
                if record.curr_dir {
                    old_phi
                } else {
                    key_bound(ns[record.parent as int].key)
                },
            );
            proof {
                lemma_path_push(ns, self.root_edge(), old_path, Bound::Bot, Bound::Top,
                    old_plo, old_phi, record.curr_dir);
                lemma_follow_push(ns, self.root_edge(), old_path, record.curr_dir);
                assert(record.path@.drop_last() =~= old_path);
                assert(old_path.drop_last() =~= record.path@.drop_last().drop_last());
                lemma_seek_descend(ns, old_leaf, old_plo, old_phi, (fuel
                    - old_path.len()) as nat, *key, record.curr_dir);
                lemma_path_wf(ns, self.root_edge(), record.path@, Bound::Bot, Bound::Top,
                    fuel, record.plo@, record.phi@);
                let lf0 = (fuel - old_path.len()) as nat;
                let lf1 = (fuel - record.path@.len()) as nat;
                assert forall|j: int|
                    #[trigger] enodes(ns, record.leaf, lf1).contains(j) implies enodes(
                    ns,
                    old_leaf,
                    lf0,
                ).contains(j) by {}
                assert(!enodes(ns, record.leaf, lf1).contains(self.r as int));
                lemma_eshape(ns, record.leaf, record.plo@, record.phi@, lf1);
                assert(record.leaf.spec_idx() != self.r);
            }
            let curr_node_key = self.nodes[curr_idx].key;
            match curr_node_key.cmp(key) {
                core::cmp::Ordering::Greater => {
                    record.curr_dir = false;
                    record.curr = self.nodes[curr_idx].left;
                },
                _ => {
                    record.curr_dir = true;
                    record.curr = self.nodes[curr_idx].right;
                },
            }
        }
        proof {
            lemma_path_wf(ns, self.root_edge(), record.path@, Bound::Bot, Bound::Top, fuel,
                record.plo@, record.phi@);
            let lnode = ns[record.leaf.spec_idx() as int];
            assert(lnode.left.spec_null());
            let lf = (fuel - record.path@.len()) as nat;
            if lnode.key == Key::Fin(*key) {
                assert(eview(ns, record.leaf, lf).contains_key(*key));
            } else {
                if eview(ns, record.leaf, lf).contains_key(*key) {
                    assert(false);
                }
            }
        }
    }
}

/// Descending one step by key order preserves membership of the search key
/// and its value: the key cannot live on the side not taken.
proof fn lemma_seek_descend<V>(
    ns: Seq<Node<V>>,
    e: Edge,
    lo: Bound,
    hi: Bound,
    fuel: nat,
    key: u64,
    d: bool,
)
    requires
        ewf(ns, e, lo, hi, fuel),
        !e.spec_null(),
        !ns[e.spec_idx() as int].left.spec_null(),
        d == !(match ns[e.spec_idx() as int].key {
            Key::Fin(x) => x > key,
            Key::Inf => true,
        }),
    ensures
        eview(ns, child_edge(ns[e.spec_idx() as int], d), (fuel - 1) as nat).contains_key(
            key,
        ) == eview(ns, e, fuel).contains_key(key),
        eview(ns, e, fuel).contains_key(key) ==> eview(ns, child_edge(
            ns[e.spec_idx() as int],
            d,
        ), (fuel - 1) as nat)[key] == eview(ns, e, fuel)[key],
{
    let n = ns[e.spec_idx() as int];
    lemma_eshape(ns, n.left, lo, key_bound(n.key), (fuel - 1) as nat);
    lemma_eshape(ns, n.right, key_bound(n.key), hi, (fuel - 1) as nat);
    if d {
        assert(!eview(ns, n.left, (fuel - 1) as nat).contains_key(key));
    } else {
        assert(!eview(ns, n.right, (fuel - 1) as nat).contains_key(key));
    }
}

impl<V> NMTreeMap<V> {
    /// Similar to `seek`, but traverses with only the leaf and probe
    /// pointers: the read-only path for `get`.
    #[verifier::loop_isolation(false)]
    #[verifier::rlimit(100)]
    fn seek_leaf(&self, key: &u64, record: &mut SeekRecord)
        requires
            self.wf(),
        ensures
            !final(record).leaf.spec_null(),
            final(record).leaf.spec_idx() < self.ns().len(),
            self.ns()[final(record).leaf.spec_idx() as int].left.spec_null(),
            (self.ns()[final(record).leaf.spec_idx() as int].key == Key::Fin(*key) <==> self.view().contains_key(*key)),
            self.ns()[final(record).leaf.spec_idx() as int].key == Key::Fin(*key)
                ==> self.ns()[final(record).leaf.spec_idx() as int].value == Some(
                self.view()[*key],
            ),
    {
        let ghost ns = self.ns();
        let ghost fuel = self.fuel@;
        record.ancestor = self.r;
        let r_left = self.nodes[self.r].left;
        record.parent = r_left.index();
        record.leaf = self.nodes[record.parent].left;
        let ghost mut lf: nat = (fuel - 2) as nat;
        let ghost mut llo: Bound = Bound::Bot;
        let ghost mut lhi: Bound = Bound::Top;
        proof {
            let s2: Seq<bool> = seq![false, false];
            let s1: Seq<bool> = seq![false];
            assert(s2.drop_first() =~= s1);
            assert(s1.drop_first() =~= Seq::<bool>::empty());
            let e1 = ns[self.r as int].left;
            lemma_follow_empty(ns, e1);
            lemma_follow_empty(ns, ns[e1.spec_idx() as int].left);
            assert(path_range_ok(ns, ns[e1.spec_idx() as int].left, Seq::<bool>::empty(),
                Bound::Bot, Bound::Top, Bound::Bot, Bound::Top));
            assert(path_range_ok(ns, e1, s1, Bound::Bot, Bound::Top, Bound::Bot,
                Bound::Top));
            assert(path_range_ok(ns, self.root_edge(), s2, Bound::Bot, Bound::Top,
                Bound::Bot, Bound::Top));
            assert(follow(ns, e1, s1.drop_first()) == follow(ns, e1, Seq::<bool>::empty()));
            assert(follow(ns, self.root_edge(), s1) == e1);
            assert(follow(ns, e1, s2.drop_first()) == follow(ns, e1, s1));
            assert(follow(ns, e1, s1) == follow(ns, ns[e1.spec_idx() as int].left,
                s1.drop_first()));
            assert(follow(ns, self.root_edge(), s2) == record.leaf);
            lemma_path_wf(ns, self.root_edge(), s2, Bound::Bot, Bound::Top, fuel,
                Bound::Bot, Bound::Top);
            lemma_seek_descend(ns, self.root_edge(), Bound::Bot, Bound::Top, fuel, *key,
                false);
            lemma_seek_descend(ns, e1, Bound::Bot, Bound::Top, (fuel - 1) as nat, *key,
                false);
        }
        let leaf_idx = record.leaf.index();
        record.curr = self.nodes[leaf_idx].left;
        proof {
            if !ns[record.leaf.spec_idx() as int].left.spec_null() {
                assert(ns[record.leaf.spec_idx() as int].key == Key::Inf);
            }
        }
        let mut curr_dir: bool = false;
        loop
            invariant
                !record.leaf.spec_null(),
                record.leaf.spec_idx() < ns.len(),
                ewf(ns, record.leaf, llo, lhi, lf),
                fin_in(*key, llo, lhi),
                eview(ns, record.leaf, lf).contains_key(*key) == self.view().contains_key(
                    *key,
                ),
                self.view().contains_key(*key) ==> eview(ns, record.leaf, lf)[*key]
                    == self.view()[*key],
                ns[record.leaf.spec_idx() as int].left.spec_null() ==> record.curr.spec_null(),
                !ns[record.leaf.spec_idx() as int].left.spec_null() ==> {
                    &&& record.curr == child_edge(ns[record.leaf.spec_idx() as int], curr_dir)
                    &&& curr_dir == !(match ns[record.leaf.spec_idx() as int].key {
                        Key::Fin(x) => x > *key,
                        Key::Inf => true,
                    })
                },
            decreases lf,
        {
            if record.curr.is_null() {
                break;
            }
            let curr_idx = record.curr.index();
            proof {
                assert(!ns[record.leaf.spec_idx() as int].left.spec_null());
                lemma_seek_descend(ns, record.leaf, llo, lhi, lf, *key, curr_dir);
                let lnode = ns[record.leaf.spec_idx() as int];
                llo = if curr_dir {
                    key_bound(lnode.key)
                } else {
                    llo
                };
                lhi = if curr_dir {
                    lhi
                } else {
                    key_bound(lnode.key)
                };
                lf = (lf - 1) as nat;
                assert(ewf(ns, record.curr, llo, lhi, lf));
                assert(curr_idx < ns.len());
            }
            record.leaf = record.curr;
            let curr_node_key = self.nodes[curr_idx].key;
            match curr_node_key.cmp(key) {
                core::cmp::Ordering::Greater => {
                    curr_dir = false;
                    record.curr = self.nodes[curr_idx].left;
                },
                _ => {
                    curr_dir = true;
                    record.curr = self.nodes[curr_idx].right;
                },
            }
        }
        proof {
            let lnode = ns[record.leaf.spec_idx() as int];
            assert(lnode.left.spec_null());
            if lnode.key == Key::Fin(*key) {
                assert(eview(ns, record.leaf, lf).contains_key(*key));
            } else {
                if eview(ns, record.leaf, lf).contains_key(*key) {
                    assert(false);
                }
            }
        }
    }

    /// Wait-free read: seeks the candidate leaf and compares its key.
    pub fn get(&self, key: &u64, record: &mut SeekRecord, cs: &mut Cs) -> (r: bool)
        requires
            self.wf(),
        ensures
            r == self.view().contains_key(*key),
            r ==> self.output_of(final(record)) == Some(self.view()[*key]),
    {
        self.seek_leaf(key, record);
        record.found = record.leaf;
        let found_idx = record.found.index();
        let leaf_key = self.nodes[found_idx].key;
        match leaf_key.cmp(key) {
            core::cmp::Ordering::Equal => true,
            _ => false,
        }
    }
}

impl<V> NMTreeMap<V> {
    /// Seeks the key's position and publishes a new internal node over the
    /// old leaf and a fresh leaf, with one store to the parent's edge;
    /// within one thread the publish cannot lose a race, so no retry or
    /// helping is needed.
    #[verifier::rlimit(100)]
    pub fn insert(&mut self, key: u64, value: V, record: &mut SeekRecord, cs: &mut Cs) -> (r:
        bool)
        requires
            old(self).wf(),
        ensures
            final(self).wf(),
            r == !old(self).view().contains_key(key),
            r ==> final(self).view() == old(self).view().insert(key, value),
            !r ==> final(self).view() == old(self).view(),
    {
        self.seek(&key, record);
        let ghost ns0 = self.ns();
        let ghost fuel0 = self.fuel@;
        let ghost path = record.path@;
        let ghost plo = record.plo@;
        let ghost phi = record.phi@;
        proof {
            lemma_path_wf(ns0, self.root_edge(), path, Bound::Bot, Bound::Top, fuel0, plo,
                phi);
        }
        let leaf_idx = record.leaf.index();
        let leaf_key = self.nodes[leaf_idx].key;
        let is_equal = match leaf_key.cmp(&key) {
            core::cmp::Ordering::Equal => true,
            _ => false,
        };
        if is_equal {
            return false;
        }
        let ghost lf = (fuel0 - path.len()) as nat;
        let e_none = Edge { null: true, idx: 0, flag: false, tag: false };
        let a = self.nodes.len();
        self.nodes.push(Node { key: Key::Fin(key), value: Some(value), left: e_none, right: e_none });
        let b = self.nodes.len();
        let goes_right = match leaf_key.cmp(&key) {
            core::cmp::Ordering::Greater => true,
            _ => false,
        };
        if goes_right {
            // the new leaf goes left of the old one
            self.nodes.push(Node { key: leaf_key, value: None, left: Edge::to(a), right: Edge::to(leaf_idx) });
        } else {
            // the old leaf goes left of the new one
            self.nodes.push(Node { key: Key::Fin(key), value: None, left: Edge::to(leaf_idx), right: Edge::to(a) });
        }
        // publish: one store to the parent's edge, after the compare that
        // models the compare-and-exchange against the seek's snapshot
        proof {
            assert(path =~= path.drop_last().push(path.last()));
            lemma_follow_push(ns0, self.root_edge(), path.drop_last(), path.last());
            lemma_path_last_internal(ns0, self.root_edge(), path, Bound::Bot, Bound::Top,
                plo, phi);
            assert(child_edge(ns0[record.parent as int], record.leaf_dir) == record.leaf);
            assert(record.parent < ns0.len());
            assert(record.parent != leaf_idx);
        }
        let parent_idx = record.parent;
        let e = if record.leaf_dir {
            self.nodes[parent_idx].right
        } else {
            self.nodes[parent_idx].left
        };
        if e.same_ptr(&record.leaf) && !e.flag && !e.tag {
            if record.leaf_dir {
                self.nodes[parent_idx].right = Edge::to(b);
            } else {
                self.nodes[parent_idx].left = Edge::to(b);
            }
            self.fuel = Ghost((fuel0 + 2) as nat);
            proof {
                let ns2 = self.ns();
                let eb = Edge { null: false, idx: b, flag: false, tag: false };
                let ea = Edge { null: false, idx: a, flag: false, tag: false };
                let el = Edge { null: false, idx: leaf_idx, flag: false, tag: false };
                lemma_eshape(ns0, self.root_edge(), Bound::Bot, Bound::Top, fuel0);
                assert(ns2[leaf_idx as int] == ns0[leaf_idx as int]);
                assert(ewf(ns0, record.leaf, plo, phi, lf));
                let lnode0 = ns0[leaf_idx as int];
                assert(enodes(ns0, lnode0.left, (lf - 1) as nat) =~= Set::<int>::empty());
                assert(enodes(ns0, lnode0.right, (lf - 1) as nat) =~= Set::<int>::empty());
                assert(enodes(ns0, record.leaf, lf) =~= Set::<int>::empty().insert(
                    leaf_idx as int,
                ));
                let en0 = Edge { null: true, idx: 0, flag: false, tag: false };
                assert(eview(ns2, en0, 1nat) =~= Map::<u64, V>::empty());
                assert(eview(ns2, en0, 0nat) =~= Map::<u64, V>::empty());
                assert(enodes(ns2, en0, 0nat) =~= Set::<int>::empty());
                assert(enodes(ns2, ns2[a as int].left, 0nat) =~= Set::<int>::empty());
                assert(enodes(ns2, ns2[leaf_idx as int].left, 0nat) =~= Set::<int>::empty());
                assert(enodes(ns2, ns2[leaf_idx as int].right, 0nat)
                    =~= Set::<int>::empty());
                assert(enodes(ns2, ea, 1nat) =~= Set::<int>::empty().insert(a as int));
                assert(enodes(ns2, el, 1nat) =~= Set::<int>::empty().insert(
                    leaf_idx as int,
                ));
                assert(ewf(ns2, eb, plo, phi, 2nat)) by {
                    if goes_right {
                        match leaf_key {
                            Key::Fin(x) => {
                                assert(fin_in(x, plo, phi));
                                assert(ewf(ns2, el, Bound::At(x), phi, 1nat));
                            },
                            Key::Inf => {
                                assert(phi == Bound::Top);
                                assert(ewf(ns2, el, Bound::Top, phi, 1nat));
                            },
                        }
                        assert(ewf(ns2, ea, plo, key_bound(leaf_key), 1nat));
                    } else {
                        assert(ewf(ns2, el, plo, Bound::At(key), 1nat));
                        assert(ewf(ns2, ea, Bound::At(key), phi, 1nat));
                    }
                }
                assert forall|j: int|
                    #[trigger] enodes(ns2, eb, 2nat).contains(j) && enodes(ns0,
                        old(self).root_edge(), fuel0).contains(j) implies enodes(ns0,
                    record.leaf, lf).contains(j) by {
                    assert(enodes(ns2, eb, 2nat) =~= Set::<int>::empty().insert(
                        a as int,
                    ).insert(leaf_idx as int).insert(b as int));
                }
                lemma_replace(ns0, ns2, old(self).root_edge(), path, Bound::Bot, Bound::Top,
                    fuel0, eb, 2nat, plo, phi);
                assert(ewf(ns2, self.root_edge(), Bound::Bot, Bound::Top, self.fuel@));
                // the view gains exactly the new pair
                assert(eview(ns2, eb, 2nat) =~= eview(ns0, record.leaf, lf).insert(
                    key,
                    value,
                )) by {
                    assert(eview(ns2, ea, 1nat) =~= Map::<u64, V>::empty().insert(
                        key,
                        value,
                    ));
                    assert(eview(ns2, el, 1nat) =~= eview(ns0, record.leaf,
                        lf));
                }
                assert(self.view() =~= old(self).view().insert(key, value));
                // the skeleton spine survives the publish
                assert(self.skel_ok()) by {
                    assert(record.parent != old(self).r);
                    assert(ns2[old(self).r as int] == ns0[old(self).r as int]);
                    let si = ns0[old(self).r as int].left.spec_idx() as int;
                    assert(ns2[si].key == ns0[si].key);
                    if record.parent as int == si && !record.leaf_dir {
                        assert(ns0[si].left == record.leaf);
                        assert(ns0[record.leaf.spec_idx() as int].key == Key::Inf);
                        assert(goes_right);
                        assert(ns2[si].left == eb);
                        assert(ns2[b as int].key == Key::Inf);
                    } else {
                        assert(ns2[si].left == ns0[si].left);
                        let li = ns0[si].left.spec_idx() as int;
                        assert(ns2[li].key == ns0[li].key);
                    }
                }
            }
            true
        } else {
            proof {
                assert(false);
            }
            false
        }
    }
}

/// The bounds a valid path leads to are unique.
proof fn lemma_path_range_unique<V>(
    ns: Seq<Node<V>>,
    e: Edge,
    dirs: Seq<bool>,
    lo: Bound,
    hi: Bound,
    a1: Bound,
    b1: Bound,
    a2: Bound,
    b2: Bound,
)
    requires
        path_range_ok(ns, e, dirs, lo, hi, a1, b1),
        path_range_ok(ns, e, dirs, lo, hi, a2, b2),
    ensures
        a1 == a2 && b1 == b2,
    decreases dirs.len(),
{
    if dirs.len() > 0 {
        let n = ns[e.spec_idx() as int];
        let ch = child_edge(n, dirs[0]);
        let clo = if dirs[0] { key_bound(n.key) } else { lo };
        let chi = if dirs[0] { hi } else { key_bound(n.key) };
        lemma_path_range_unique(ns, ch, dirs.drop_first(), clo, chi, a1, b1, a2, b2);
    }
}

impl<V> NMTreeMap<V> {
    /// Physically removes the flagged leaf and its parent: first the
    /// sibling edge is tagged, so that neither of the parent's outgoing
    /// edges can change, then one store replaces the ancestor's edge to the
    /// marked window with the sibling, carrying the sibling's flag over.
    #[verifier::rlimit(100)]
    fn cleanup(
        &mut self,
        record: &mut SeekRecord,
        cs: &mut Cs,
        key: u64,
        Ghost(t0): Ghost<NMTreeMap<V>>,
    ) -> (r: bool)
        requires
            t0.wf(),
            seek_ok(*old(record), t0, key),
            t0.ns()[old(record).leaf.spec_idx() as int].key == Key::Fin(key),
            // the injection has flagged the (parent, leaf) edge, and nothing else
            old(self).r == t0.r,
            old(self).fuel@ == t0.fuel@,
            old(self).ns().len() == t0.ns().len(),
            forall|j: int|
                0 <= j < t0.ns().len() && j != old(record).parent ==> old(self).ns()[j]
                    == t0.ns()[j],
            old(self).ns()[old(record).parent as int].key == t0.ns()[old(
                record,
            ).parent as int].key,
            old(self).ns()[old(record).parent as int].value == t0.ns()[old(
                record,
            ).parent as int].value,
            child_edge(old(self).ns()[old(record).parent as int], old(record).leaf_dir) == (
            Edge {
                null: false,
                idx: old(record).leaf.spec_idx(),
                flag: true,
                tag: false,
            }),
            child_edge(old(self).ns()[old(record).parent as int], !old(record).leaf_dir)
                == child_edge(t0.ns()[old(record).parent as int], !old(record).leaf_dir),
        ensures
            r,
            final(self).wf(),
            final(self).view() == t0.view().remove(key),
            *final(record) == *old(record),
            final(self).ns().len() >= t0.ns().len(),
            forall|j: int|
                0 <= j < t0.ns().len() && j != old(record).parent && j != old(
                    record,
                ).ancestor ==> final(self).ns()[j] == t0.ns()[j],
            final(self).ns()[old(record).leaf.spec_idx() as int].value == t0.ns()[old(
                record,
            ).leaf.spec_idx() as int].value,
            old(record).leaf.spec_idx() < final(self).ns().len(),
    {
        let ghost ns0 = t0.ns();
        let ghost fuel0 = t0.fuel@;
        let ghost path = record.path@;
        let ghost plo = record.plo@;
        let ghost phi = record.phi@;
        let leaf_idx = record.leaf.index();
        let parent_idx = record.parent;
        let ancestor_idx = record.ancestor;
        proof {
            lemma_path_wf(ns0, t0.root_edge(), path, Bound::Bot, Bound::Top, fuel0, plo,
                phi);
            lemma_path_last_internal(ns0, t0.root_edge(), path, Bound::Bot, Bound::Top, plo,
                phi);
            assert(path =~= path.drop_last().push(path.last()));
            lemma_follow_push(ns0, t0.root_edge(), path.drop_last(), path.last());
            assert(child_edge(ns0[parent_idx as int], record.leaf_dir) == record.leaf);
        }
        // identify the subtree that will replace the window
        let leaf_marked = if record.leaf_dir {
            self.nodes[parent_idx].right
        } else {
            self.nodes[parent_idx].left
        };
        let leaf_flag = Marks::new(leaf_marked.flag, leaf_marked.tag).flag();
        let target_sibling_dir = if leaf_flag {
            !record.leaf_dir
        } else {
            record.leaf_dir
        };
        // tag the (parent, sibling) edge: none of the parent's edges can
        // change now
        let target_sibling = if target_sibling_dir {
            self.nodes[parent_idx].right
        } else {
            self.nodes[parent_idx].left
        };
        let tagged = target_sibling.with_marks(target_sibling.flag, true);
        if target_sibling_dir {
            self.nodes[parent_idx].right = tagged;
        } else {
            self.nodes[parent_idx].left = tagged;
        }
        // replace (ancestor, successor) with (ancestor, sibling), carrying
        // the sibling's flag over
        let expected: Edge = if record.successor.is_null() {
            Edge { null: false, idx: parent_idx, flag: false, tag: false }
        } else {
            record.successor
        };
        let flag = Marks::new(target_sibling.flag, target_sibling.tag).flag();
        let new_edge = Edge {
            null: target_sibling.null,
            idx: target_sibling.idx,
            flag,
            tag: false,
        };
        let ghost pdirs = path.drop_last();
        proof {
            lemma_path_prefix_ok(ns0, t0.root_edge(), path, Bound::Bot, Bound::Top, plo,
                phi);
        }
        let ghost (plo2, phi2) = choose|plo2: Bound, phi2: Bound|
            path_range_ok(ns0, t0.root_edge(), pdirs, Bound::Bot, Bound::Top, plo2, phi2);
        proof {
            lemma_path_last_internal(ns0, t0.root_edge(), pdirs, Bound::Bot, Bound::Top,
                plo2, phi2);
            lemma_path_wf(ns0, t0.root_edge(), pdirs, Bound::Bot, Bound::Top, fuel0, plo2,
                phi2);
            assert(pdirs =~= pdirs.drop_last().push(pdirs.last()));
            lemma_follow_push(ns0, t0.root_edge(), pdirs.drop_last(), pdirs.last());
            assert(child_edge(ns0[ancestor_idx as int], record.successor_dir) == follow(
                ns0,
                t0.root_edge(),
                pdirs,
            ));
            assert(follow(ns0, t0.root_edge(), pdirs).spec_idx() == parent_idx);
        }
        let anc_edge = if record.successor_dir {
            self.nodes[ancestor_idx].right
        } else {
            self.nodes[ancestor_idx].left
        };
        if anc_edge.same_ptr(&expected) && !anc_edge.flag && !anc_edge.tag {
            if record.successor_dir {
                self.nodes[ancestor_idx].right = new_edge;
            } else {
                self.nodes[ancestor_idx].left = new_edge;
            }
            proof {
                let ns2 = self.ns();
                let pedge = follow(ns0, t0.root_edge(), pdirs);
                let pnode = ns0[parent_idx as int];
                let pf = (fuel0 - pdirs.len()) as nat;
                let sib_old = child_edge(pnode, !record.leaf_dir);
                lemma_eshape(ns0, t0.root_edge(), Bound::Bot, Bound::Top, fuel0);
                // the parent's edge range and the children's ranges
                assert(ewf(ns0, pedge, plo2, phi2, pf));
                lemma_path_push(ns0, t0.root_edge(), pdirs, Bound::Bot, Bound::Top, plo2,
                    phi2, path.last());
                assert(path_range_ok(ns0, t0.root_edge(), path, Bound::Bot, Bound::Top, (
                if path.last() {
                    key_bound(pnode.key)
                } else {
                    plo2
                }), (if path.last() {
                    phi2
                } else {
                    key_bound(pnode.key)
                }))) by {
                    assert(pdirs.push(path.last()) =~= path);
                }
                lemma_path_range_unique(ns0, t0.root_edge(), path, Bound::Bot, Bound::Top,
                    plo, phi, (if path.last() {
                    key_bound(pnode.key)
                } else {
                    plo2
                }), (if path.last() {
                    phi2
                } else {
                    key_bound(pnode.key)
                }));
                // the flagged leaf is the finite-keyed child, so its
                // sibling is the other one
                assert(target_sibling_dir == !record.leaf_dir);
                assert(target_sibling == child_edge(ns0[parent_idx as int],
                    !record.leaf_dir));
                assert(ewf(ns0, child_edge(pnode, !record.leaf_dir), (if !record.leaf_dir {
                    key_bound(pnode.key)
                } else {
                    plo2
                }), (if !record.leaf_dir {
                    phi2
                } else {
                    key_bound(pnode.key)
                }), (pf - 1) as nat));
                assert(!target_sibling.spec_flag() && !target_sibling.spec_tag());
                assert(new_edge == (Edge {
                    null: target_sibling.null,
                    idx: target_sibling.idx,
                    flag: false,
                    tag: false,
                }));
                assert(new_edge == target_sibling);
                // the sibling subtree is untouched and well formed in the
                // parent's range
                let slo = if !record.leaf_dir { key_bound(pnode.key) } else { plo2 };
                let shi = if !record.leaf_dir { phi2 } else { key_bound(pnode.key) };
                assert(ewf(ns0, sib_old, slo, shi, (pf - 1) as nat));
                lemma_eshape(ns0, sib_old, slo, shi, (pf - 1) as nat);
                lemma_fuel(ns0, record.leaf, plo, phi, (fuel0 - path.len()) as nat, (pf
                    - 1) as nat);
                assert(ewf(ns0, record.leaf, plo, phi, (pf - 1) as nat));
                lemma_eshape(ns0, record.leaf, plo, phi, (pf - 1) as nat);
                lemma_eshape(ns0, pedge, plo2, phi2, pf);
                assert forall|j: int| #[trigger] enodes(ns0, sib_old, (pf - 1) as nat).contains(
                    j,
                ) implies ns2[j] == ns0[j] by {
                    assert(enodes(ns0, pedge, pf).contains(j));
                    assert(j != parent_idx && j != ancestor_idx) by {
                        assert(!enodes(ns0, sib_old, (pf - 1) as nat).contains(
                            parent_idx as int,
                        ));
                        assert(!enodes(ns0, pedge, pf).contains(ancestor_idx as int)) by {
                            lemma_path_wf_prefix(ns0, t0.root_edge(), pdirs, Bound::Bot,
                                Bound::Top, fuel0, plo2, phi2);
                        }
                    }
                }
                lemma_eframe(ns0, ns2, sib_old, slo, shi, (pf - 1) as nat);
                lemma_ewiden(ns2, sib_old, slo, shi, plo2, phi2, (pf - 1) as nat);
                // the replacement: everything edited lies in the window
                assert forall|j: int|
                    #[trigger] enodes(ns0, t0.root_edge(), fuel0).contains(j) && j
                        != ancestor_idx && !enodes(ns0, pedge, pf).contains(j) implies ns2[j]
                    == ns0[j] by {
                    assert(enodes(ns0, pedge, pf).contains(parent_idx as int));
                    assert(j != parent_idx);
                    assert(0 <= j < ns0.len());
                    assert(ns2[j] == old(self).ns()[j]);
                    assert(old(self).ns()[j] == ns0[j]);
                }
                assert forall|j: int|
                    #[trigger] enodes(ns2, new_edge, (pf - 1) as nat).contains(j) && enodes(
                    ns0, t0.root_edge(), fuel0).contains(j) implies enodes(ns0, pedge,
                    pf).contains(j) by {
                    assert(enodes(ns2, new_edge, (pf - 1) as nat) == enodes(ns0, sib_old, (pf
                        - 1) as nat));
                }
                lemma_fuel(ns2, new_edge, plo2, phi2, (pf - 1) as nat, pf);
                assert(follow(ns0, t0.root_edge(), pdirs.drop_last()).spec_idx()
                    == ancestor_idx);
                assert(pdirs.last() == record.successor_dir);
                assert(child_edge(ns2[ancestor_idx as int], pdirs.last()) == new_edge);
                assert(((fuel0 - pdirs.len()) as nat) == pf);
                assert(ewf(ns2, new_edge, plo2, phi2, pf));
                lemma_replace(ns0, ns2, t0.root_edge(), pdirs, Bound::Bot, Bound::Top,
                    fuel0, new_edge, pf, plo2, phi2);
                self.fuel = Ghost((fuel0 + pf) as nat);
                assert(ewf(ns2, self.root_edge(), Bound::Bot, Bound::Top, self.fuel@));
                // the view loses exactly the removed pair
                let lview = eview(ns0, record.leaf, (pf - 1) as nat);
                let sview = eview(ns0, sib_old, (pf - 1) as nat);
                let lv = ns0[leaf_idx as int].value;
                assert(lview =~= Map::<u64, V>::empty().insert(key, lv.unwrap()));
                assert(eview(ns0, pedge, pf) == (if record.leaf_dir {
                    sview.union_prefer_right(lview)
                } else {
                    lview.union_prefer_right(sview)
                }));
                assert(eview(ns2, new_edge, pf) == sview);
                assert forall|k2: u64| #[trigger] sview.contains_key(k2) implies t0.view(
                ).contains_key(k2) && t0.view()[k2] == sview[k2] && k2 != key by {
                    assert(!lview.contains_key(k2));
                    assert(eview(ns0, pedge, pf).contains_key(k2));
                    assert(eview(ns0, pedge, pf)[k2] == sview[k2]);
                }
                assert(lview.contains_key(key));
                assert(!sview.contains_key(key));
                assert(eview(ns0, pedge, pf).dom() =~= lview.dom().union(sview.dom()));
                assert(self.view() =~= t0.view().remove(key));
                // the skeleton spine survives the splice
                assert(self.skel_ok()) by {
                    assert(ancestor_idx != t0.r);
                    assert(ns2[t0.r as int] == ns0[t0.r as int]);
                    let si = ns0[t0.r as int].left.spec_idx() as int;
                    assert(ns2[si].key == ns0[si].key);
                    if ancestor_idx as int == si && !record.successor_dir {
                        // the new target of the sentinel's left edge keeps
                        // the infinite key
                        assert(ns0[si].left == pedge);
                        assert(parent_idx as int != si) by {
                            assert(enodes(ns0, pedge, pf).contains(parent_idx as int));
                            assert(!enodes(ns0, pedge, pf).contains(ancestor_idx as int)) by {
                                lemma_path_wf_prefix(ns0, t0.root_edge(), pdirs, Bound::Bot,
                                    Bound::Top, fuel0, plo2, phi2);
                            }
                        }
                        assert(ns2[si].left == new_edge);
                        assert(!new_edge.spec_null());
                        let sbi = new_edge.spec_idx() as int;
                        assert(ns2[sbi].key == ns0[sbi].key);
                        // the spliced-in sibling keeps the infinite key:
                        // the parent was the sentinel spine's target, so
                        // its key is infinite, the flagged finite leaf sat
                        // on its left, and everything right of an infinite
                        // routing key is infinite-keyed
                        assert(pnode.key == Key::Inf) by {
                            assert(child_edge(ns0[si], false) == ns0[si].left);
                            assert(ns0[si].left == pedge);
                            assert(parent_idx as int == ns0[si].left.spec_idx() as int);
                        }
                        assert(!record.leaf_dir) by {
                            if record.leaf_dir {
                                assert(ewf(ns0, record.leaf, key_bound(pnode.key), phi2, (
                                pf - 1) as nat)) by {
                                    lemma_path_range_unique(ns0, t0.root_edge(), path,
                                        Bound::Bot, Bound::Top, plo, phi, key_bound(
                                        pnode.key,
                                    ), phi2);
                                    lemma_fuel(ns0, record.leaf, plo, phi, (fuel0
                                        - path.len()) as nat, (pf - 1) as nat);
                                }
                                assert(false);
                            }
                        }
                        assert(ns0[sbi].key == Key::Inf) by {
                            assert(sib_old == pnode.right);
                            assert(ewf(ns0, pnode.right, key_bound(pnode.key), phi2, (pf
                                - 1) as nat));
                            assert(key_bound(pnode.key) == Bound::Top);
                            let sn = ns0[sbi];
                            if sn.left.spec_null() {
                                if sn.key is Fin {
                                    assert(false);
                                }
                            } else {
                                assert(bnd_le(Bound::Top, key_bound(sn.key)));
                            }
                        }
                    } else {
                        assert(ns2[si].left == ns0[si].left);
                        let li = ns0[si].left.spec_idx() as int;
                        assert(ns2[li].key == ns0[li].key);
                    }
                }
            }
            true
        } else {
            proof {
                assert(false);
            }
            false
        }
    }
}

impl<V> NMTreeMap<V> {
    /// Two phases: injection flags the (parent, leaf) edge, committing the
    /// removal, then the physical cleanup splices the window out.  Within
    /// one thread neither store can lose a race, so the helping retry loop
    /// never runs.
    #[verifier::rlimit(100)]
    pub fn remove(&mut self, key: &u64, record: &mut SeekRecord, cs: &mut Cs) -> (r: bool)
        requires
            old(self).wf(),
        ensures
            final(self).wf(),
            r == old(self).view().contains_key(*key),
            final(self).view() == old(self).view().remove(*key),
            r ==> final(self).output_of(final(record)) == Some(old(self).view()[*key]),
    {
        // injection phase
        self.seek(key, record);
        let ghost t0 = *self;
        let ghost ns0 = self.ns();
        let ghost path = record.path@;
        let leaf_idx = record.leaf.index();
        let leaf_key = self.nodes[leaf_idx].key;
        let is_equal = match leaf_key.cmp(key) {
            core::cmp::Ordering::Equal => true,
            _ => false,
        };
        if !is_equal {
            proof {
                assert(old(self).view().remove(*key) =~= old(self).view());
            }
            return false;
        }
        proof {
            lemma_path_wf(ns0, t0.root_edge(), path, Bound::Bot, Bound::Top, self.fuel@,
                record.plo@, record.phi@);
            lemma_path_last_internal(ns0, t0.root_edge(), path, Bound::Bot, Bound::Top,
                record.plo@, record.phi@);
            assert(path =~= path.drop_last().push(path.last()));
            lemma_follow_push(ns0, t0.root_edge(), path.drop_last(), path.last());
            assert(child_edge(ns0[record.parent as int], record.leaf_dir) == record.leaf);
        }
        // try injecting the deletion flag on the (parent, leaf) edge
        let parent_idx = record.parent;
        let pe = if record.leaf_dir {
            self.nodes[parent_idx].right
        } else {
            self.nodes[parent_idx].left
        };
        if pe.same_ptr(&record.leaf) && !pe.flag && !pe.tag {
            let flagged = Edge { null: false, idx: leaf_idx, flag: true, tag: false };
            if record.leaf_dir {
                self.nodes[parent_idx].right = flagged;
            } else {
                self.nodes[parent_idx].left = flagged;
            }
            record.found = record.leaf;
            // finalize the removal
            let ok = self.cleanup(record, cs, *key, Ghost(t0));
            proof {
                assert(ok);
            }
            true
        } else {
            proof {
                assert(false);
            }
            false
        }
    }
}

impl<V> ConcurrentMap<V> for NMTreeMap<V> {
    type Output = SeekRecord;

    closed spec fn inv(&self) -> bool {
        self.wf()
    }

    closed spec fn view(&self) -> Map<u64, V> {
        NMTreeMap::view(*self)
    }

    closed spec fn output_of(&self, output: &SeekRecord) -> Option<V> {
        NMTreeMap::output_of(*self, output)
    }

    fn new() -> Self {
        NMTreeMap::new()
    }

    fn get(&mut self, key: &u64, output: &mut SeekRecord, cs: &mut Cs) -> bool {
        NMTreeMap::get(self, key, output, cs)
    }

    fn insert(&mut self, key: u64, value: V, output: &mut SeekRecord, cs: &mut Cs) -> bool {
        NMTreeMap::insert(self, key, value, output, cs)
    }

    fn remove(&mut self, key: &u64, output: &mut SeekRecord, cs: &mut Cs) -> bool {
        NMTreeMap::remove(self, key, output, cs)
    }

    fn output<'a>(&'a self, output: &'a SeekRecord) -> &'a V {
        match &self.nodes[output.found.index()].value {
            Some(v) => v,
            None => {
                proof {
                    assert(false);
                }
                &self.nodes[0].value.as_ref().unwrap()
            },
        }
    }
}

/// The finite keys of the subtree's leaves in symmetric order.
pub closed spec fn ekeys<V>(ns: Seq<Node<V>>, e: Edge, fuel: nat) -> Seq<u64>
    decreases fuel,
{
    if e.spec_null() || fuel == 0 || e.spec_idx() >= ns.len() {
        Seq::empty()
    } else {
        let n = ns[e.spec_idx() as int];
        if n.left.spec_null() {
            match n.key {
                Key::Fin(x) => seq![x],
                Key::Inf => Seq::empty(),
            }
        } else {
            ekeys(ns, n.left, (fuel - 1) as nat) + ekeys(ns, n.right, (fuel - 1) as nat)
        }
    }
}

/// Search-tree order for the leaf-oriented tree: the symmetric-order
/// sequence of the finite leaf keys is strictly increasing and carries
/// exactly the keys of the subtree's map.
proof fn lemma_leaf_inorder<V>(ns: Seq<Node<V>>, e: Edge, lo: Bound, hi: Bound, fuel: nat)
    requires
        ewf(ns, e, lo, hi, fuel),
    ensures
        forall|i: int, j: int|
            0 <= i < j < ekeys(ns, e, fuel).len() ==> ekeys(ns, e, fuel)[i] < ekeys(
                ns,
                e,
                fuel,
            )[j],
        forall|i: int|
            0 <= i < ekeys(ns, e, fuel).len() ==> fin_in(#[trigger] ekeys(ns, e, fuel)[i],
                lo, hi) && eview(ns, e, fuel).contains_key(ekeys(ns, e, fuel)[i]),
        forall|k: u64|
            #[trigger] eview(ns, e, fuel).contains_key(k) ==> ekeys(ns, e, fuel).contains(k),
    decreases fuel,
{
    if !e.spec_null() {
        let n = ns[e.spec_idx() as int];
        if !n.left.spec_null() {
            lemma_leaf_inorder(ns, n.left, lo, key_bound(n.key), (fuel - 1) as nat);
            lemma_leaf_inorder(ns, n.right, key_bound(n.key), hi, (fuel - 1) as nat);
            let lk = ekeys(ns, n.left, (fuel - 1) as nat);
            let rk = ekeys(ns, n.right, (fuel - 1) as nat);
            let all = ekeys(ns, e, fuel);
            assert(all =~= lk + rk);
            assert forall|i: int| 0 <= i < all.len() implies fin_in(#[trigger] all[i], lo,
                hi) && eview(ns, e, fuel).contains_key(all[i]) by {
                if i < lk.len() {
                    assert(all[i] == lk[i]);
                    assert(fin_in(lk[i], lo, key_bound(n.key)));
                } else {
                    assert(all[i] == rk[i - lk.len()]);
                    assert(fin_in(rk[i - lk.len()], key_bound(n.key), hi));
                }
            }
            assert forall|i: int, j: int| 0 <= i < j < all.len() implies all[i] < all[j] by {
                if i < lk.len() {
                    assert(all[i] == lk[i] && fin_in(lk[i], lo, key_bound(n.key)));
                } else {
                    assert(all[i] == rk[i - lk.len()] && fin_in(all[i], key_bound(n.key),
                        hi));
                }
                if j < lk.len() {
                    assert(all[j] == lk[j] && fin_in(lk[j], lo, key_bound(n.key)));
                } else {
                    assert(all[j] == rk[j - lk.len()] && fin_in(all[j], key_bound(n.key),
                        hi));
                }
            }
            assert forall|k: u64| #[trigger] eview(ns, e, fuel).contains_key(k) implies
                ekeys(ns, e, fuel).contains(k) by {
                if eview(ns, n.left, (fuel - 1) as nat).contains_key(k) {
                    let i = choose|i: int| 0 <= i < lk.len() && lk[i] == k;
                    assert(all[i] == k);
                } else {
                    assert(eview(ns, n.right, (fuel - 1) as nat).contains_key(k));
                    let i = choose|i: int| 0 <= i < rk.len() && rk[i] == k;
                    assert(all[lk.len() + i] == k);
                }
            }
        } else {
            match n.key {
                Key::Fin(x) => {
                    assert(ekeys(ns, e, fuel)[0] == x);
                    assert forall|k: u64| #[trigger] eview(ns, e, fuel).contains_key(k)
                        implies ekeys(ns, e, fuel).contains(k) by {
                        assert(k == x);
                        assert(ekeys(ns, e, fuel)[0] == k);
                    }
                },
                Key::Inf => {
                    assert(eview(ns, e, fuel) =~= Map::<u64, V>::empty());
                },
            }
        }
    }
}

impl<V> NMTreeMap<V> {
    /// The finite leaf keys in symmetric order.
    pub closed spec fn key_seq(self) -> Seq<u64> {
        ekeys(self.ns(), self.root_edge(), self.fuel@)
    }
}

/// Search-tree order, observed at the root: the symmetric-order sequence of
/// the finite leaf keys is strictly increasing and carries exactly the keys
/// of the view.
pub proof fn lemma_search_tree_order<V>(t: &NMTreeMap<V>)
    requires
        t.wf(),
    ensures
        forall|i: int, j: int|
            0 <= i < j < t.key_seq().len() ==> t.key_seq()[i] < t.key_seq()[j],
        forall|k: u64| #[trigger] t.view().contains_key(k) ==> t.key_seq().contains(k),
        forall|i: int|
            0 <= i < t.key_seq().len() ==> t.view().contains_key(#[trigger] t.key_seq()[i]),
{
    lemma_leaf_inorder(t.ns(), t.root_edge(), Bound::Bot, Bound::Top, t.fuel@);
}

} // verus!
