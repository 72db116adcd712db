//! The Harris family of sorted linked lists.
//!
//! One arena-backed sorted list with a dummy head, traversed by three `find`
//! variants: Harris (batched unlinking of a whole chain of logically deleted
//! nodes with a single anchor store), Harris–Michael (one unlink per deleted
//! node met), and Harris–Herlihy–Shavit (pure lookup that never helps).  A
//! node is logically deleted when the mark on its outgoing edge is set; a
//! deleted node keeps its place in the chain until some traversal physically
//! unlinks and retires it.
//!
//! The list's abstract view is the map of the keys and values of the live
//! (unmarked) nodes after the head.  Keys are strictly increasing along the
//! whole chain, marked nodes included.

use crate::concurrent_map::{ConcurrentMap, OutputHolder};
use crate::smr::Cs;
use vstd::prelude::*;

verus! {

/// A nullable arena pointer: the modeled value of a pointer word without its
/// tag bits.
#[derive(Clone, Copy, PartialEq, Eq, Structural)]
pub struct Ptr {
    null: bool,
    idx: usize,
}

impl Ptr {
    pub closed spec fn spec_null(self) -> bool {
        self.null
    }

    pub closed spec fn spec_idx(self) -> usize {
        self.idx
    }

    pub closed spec fn spec_at(i: usize) -> Ptr {
        Ptr { null: false, idx: i }
    }

    pub fn none() -> (p: Ptr)
        ensures
            p.spec_null(),
    {
        Ptr { null: true, idx: 0 }
    }

    pub fn at(i: usize) -> (p: Ptr)
        ensures
            p == Ptr::spec_at(i),
    {
        Ptr { null: false, idx: i }
    }

    pub fn is_null(&self) -> (r: bool)
        ensures
            r == self.spec_null(),
    {
        self.null
    }

    pub fn index(&self) -> (i: usize)
        ensures
            i == self.spec_idx(),
    {
        self.idx
    }

    /// Pointer-word equality: both null, or both the same slot.
    pub fn same(&self, other: &Ptr) -> (r: bool)
        ensures
            r == self.spec_same(*other),
    {
        if self.null {
            other.null
        } else {
            !other.null && self.idx == other.idx
        }
    }

    pub open spec fn spec_same(self, other: Ptr) -> bool {
        if self.spec_null() {
            other.spec_null()
        } else {
            !other.spec_null() && self.spec_idx() == other.spec_idx()
        }
    }
}

/// A node's outgoing edge: the successor pointer together with the deletion
/// mark carried in the pointer's low bit.
#[derive(Clone, Copy, PartialEq, Eq, Structural)]
pub struct Edge {
    ptr: Ptr,
    marked: bool,
}

/// A list node.  The key and value are immutable after publication; only the
/// outgoing edge changes, by compare-and-store.
pub struct Node<V> {
    key: u64,
    value: V,
    next: Edge,
}

impl<V> Node<V> {
    /// Creates a new node.
    fn new(key: u64, value: V) -> (n: Self)
        ensures
            n.key == key,
            n.value == value,
            n.next == (Edge { ptr: Ptr { null: true, idx: 0 }, marked: false }),
    {
        Node { key, value, next: Edge { ptr: Ptr { null: true, idx: 0 }, marked: false } }
    }

    /// Creates a dummy head.  Its key and value are never observed.
    fn head() -> (n: Self)
        where V: Default
        ensures
            n.next == (Edge { ptr: Ptr { null: true, idx: 0 }, marked: false }),
    {
        Node { key: 0, value: V::default(), next: Edge { ptr: Ptr { null: true, idx: 0 }, marked: false } }
    }
}

/// The shared list: a node arena, the head's index, and the ghost witness of
/// the chain of indices reachable from the head.
pub struct List<V> {
    nodes: Vec<Node<V>>,
    head: usize,
    chain: Ghost<Seq<usize>>,
    retired: Ghost<Set<usize>>,
}

impl<V> List<V> {
    pub closed spec fn chain_at(self, p: int) -> usize {
        self.chain@[p]
    }

    pub closed spec fn chain_len(self) -> nat {
        self.chain@.len()
    }

    /// The key of the node at chain position `i`.
    pub closed spec fn key_at(self, i: int) -> u64 {
        self.nodes@[self.chain@[i] as int].key
    }

    /// The value of the node at chain position `i`.
    pub closed spec fn value_at(self, i: int) -> V {
        self.nodes@[self.chain@[i] as int].value
    }

    /// Whether the node at chain position `i` is logically deleted.
    pub closed spec fn marked_at(self, i: int) -> bool {
        self.nodes@[self.chain@[i] as int].next.marked
    }

    spec fn ns(self) -> Seq<Node<V>> {
        self.nodes@
    }

    spec fn c(self) -> Seq<usize> {
        self.chain@
    }

    /// Well-formedness: the ghost chain starts at the head, follows the
    /// `next` edges to the terminal null, visits pairwise distinct arena
    /// slots, the head is never marked, keys are strictly increasing along
    /// the whole chain after the head, and no retired node is on the chain.
    pub closed spec fn wf(self) -> bool {
        let c = self.c();
        let ns = self.ns();
        &&& c.len() >= 1
        &&& c[0] == self.head
        &&& forall|i: int| 0 <= i < c.len() ==> c[i] < ns.len()
        &&& forall|i: int, j: int| 0 <= i < j < c.len() ==> c[i] != c[j]
        &&& forall|i: int|
            0 <= i < c.len() - 1 ==> ns[c[i] as int].next.ptr == Ptr::spec_at(c[i + 1])
        &&& ns[c[c.len() - 1] as int].next.ptr.spec_null()
        &&& !ns[c[0] as int].next.marked
        &&& forall|i: int, j: int|
            1 <= i < j < c.len() ==> ns[c[i] as int].key < ns[c[j] as int].key
        &&& forall|i: int| 0 <= i < c.len() ==> !self.retired@.contains(c[i])
        &&& forall|r: usize| self.retired@.contains(r) ==> r < ns.len()
    }

    /// The map held by the live nodes of a chain segment, later entries
    /// winning (keys are distinct whenever the segment is part of a
    /// well-formed chain, so nothing is ever actually overridden).
    spec fn map_of(ns: Seq<Node<V>>, c: Seq<usize>) -> Map<u64, V>
        decreases c.len(),
    {
        if c.len() == 0 {
            Map::empty()
        } else {
            let m = Self::map_of(ns, c.drop_last());
            let n = ns[c.last() as int];
            if n.next.marked {
                m
            } else {
                m.insert(n.key, n.value)
            }
        }
    }

    /// The keys of the live nodes of a chain segment, in chain order.
    spec fn live_keys(ns: Seq<Node<V>>, c: Seq<usize>) -> Seq<u64>
        decreases c.len(),
    {
        if c.len() == 0 {
            Seq::empty()
        } else {
            let r = Self::live_keys(ns, c.drop_last());
            let n = ns[c.last() as int];
            if n.next.marked {
                r
            } else {
                r.push(n.key)
            }
        }
    }

    /// The list as a mathematical map: the live nodes after the head.
    pub closed spec fn view(self) -> Map<u64, V> {
        Self::map_of(self.ns(), self.c().skip(1))
    }

    /// The live keys in chain order, as observed from the head.
    pub closed spec fn key_seq(self) -> Seq<u64> {
        Self::live_keys(self.ns(), self.c().skip(1))
    }

    /// The nodes this list has handed to the reclamation domain.
    pub closed spec fn spec_retired(self) -> Set<usize> {
        self.retired@
    }

    /// The chain as a sequence of arena indices, the head first.
    pub closed spec fn chain_seq(self) -> Seq<usize> {
        self.chain@
    }

    /// How many arena slots the list holds.
    pub closed spec fn arena_len(self) -> nat {
        self.nodes@.len()
    }

    /// Whether the node in the arena slot `x` is logically deleted.
    pub closed spec fn marked_slot(self, x: usize) -> bool {
        self.nodes@[x as int].next.marked
    }

    /// No node after the head is logically deleted.
    pub closed spec fn no_marked(self) -> bool {
        forall|i: int|
            1 <= i < self.c().len() ==> !self.ns()[#[trigger] self.c()[i] as int].next.marked
    }

    /// Creates a new list.
    pub fn new() -> (l: Self)
        where V: Default
        ensures
            l.wf(),
            l.no_marked(),
            l.view() == Map::<u64, V>::empty(),
            l.key_seq() == Seq::<u64>::empty(),
    {
        let mut nodes: Vec<Node<V>> = Vec::new();
        nodes.push(Node::head());
        let ghost c0: Seq<usize> = seq![0usize];
        let l = List {
            nodes,
            head: 0,
            chain: Ghost(c0),
            retired: Ghost(Set::empty()),
        };
        proof {
            assert(l.c().skip(1) =~= Seq::<usize>::empty());
        }
        l
    }
}

/// How a Harris traversal relates the list and the reclamation log it was
/// given to those it leaves behind: either it found no cleanup to do and
/// touched nothing, or it unlinked one contiguous run of logically deleted
/// nodes from the chain with a single store, handing exactly that run, in
/// chain order, to the reclamation domain.
pub open spec fn unlinked_window<V>(l0: List<V>, l1: List<V>, cs0: Cs, cs1: Cs) -> bool {
    ||| (l1 == l0 && cs1.log() == cs0.log())
    ||| exists|a: int, b: int|
        {
            &&& 0 <= a < b <= l0.chain_len()
            &&& l1.chain_seq() == l0.chain_seq().subrange(0, a) + l0.chain_seq().subrange(
                b,
                l0.chain_len() as int,
            )
            &&& (forall|i: int| a <= i < b ==> #[trigger] l0.marked_at(i))
            &&& cs1.log() == cs0.log() + l0.chain_seq().subrange(a, b)
        }
}

/// A Harris traversal over a list with no logically deleted node finds no
/// window to unlink, so it leaves the list as it was.
proof fn lemma_window_no_marked<V>(l0: List<V>, l1: List<V>)
    requires
        l0.wf(),
        l0.no_marked(),
        exists|cs0: Cs, cs1: Cs| unlinked_window(l0, l1, cs0, cs1),
    ensures
        l1 == l0,
{
    let (cs0, cs1) = choose|cs0: Cs, cs1: Cs| unlinked_window(l0, l1, cs0, cs1);
    if l1 != l0 {
        let (a, b) = choose|a: int, b: int|
            {
                &&& 0 <= a < b <= l0.chain_len()
                &&& l1.chain_seq() == l0.chain_seq().subrange(0, a) + l0.chain_seq().subrange(
                    b,
                    l0.chain_len() as int,
                )
                &&& (forall|i: int| a <= i < b ==> #[trigger] l0.marked_at(i))
                &&& cs1.log() == cs0.log() + l0.chain_seq().subrange(a, b)
            };
        assert(l0.marked_at(a));
        if a == 0 {
            assert(!l0.ns()[l0.c()[0] as int].next.marked);
        }
        assert(false);
    }
}

/// The deletion marks of every arena slot are as they were at entry.
#[verifier::opaque]
spec fn marks_as_at<V>(l0: List<V>, l1: List<V>) -> bool {
    &&& l1.ns().len() == l0.ns().len()
    &&& forall|j: int|
        0 <= j < l1.ns().len() ==> l1.ns()[j].next.marked == l0.ns()[j].next.marked
}

/// Every entry the reclamation log gained names an arena slot that was
/// logically deleted at entry.
#[verifier::opaque]
pub open spec fn retired_from_marked<V>(l0: List<V>, cs0: Cs, cs1: Cs) -> bool {
    forall|j: int|
        cs0.log().len() <= j < cs1.log().len() ==> #[trigger] cs1.log()[j] < l0.arena_len()
            && l0.marked_slot(cs1.log()[j])
}

/// At the start of a traversal the bookkeeping holds trivially.
proof fn lemma_hm_entry<V>(l: List<V>, cs: Cs)
    ensures
        marks_as_at(l, l),
        retired_from_marked(l, cs, cs),
{
    reveal(marks_as_at);
    reveal(retired_from_marked);
}

/// One single-node unlink keeps the Harris-Michael bookkeeping: the marks
/// are untouched, and the one node handed to the reclamation domain sat in
/// a slot that was logically deleted at entry.
#[verifier::rlimit(100)]
proof fn lemma_hm_unlink_step<V>(
    ol: List<V>,
    l0: List<V>,
    l1: List<V>,
    ocs: Cs,
    cs0: Cs,
    cs1: Cs,
    p: int,
)
    requires
        l0.wf(),
        marks_as_at(ol, l0),
        retired_from_marked(ol, ocs, cs0),
        ocs.log().len() <= cs0.log().len(),
        0 <= p < l0.c().len() - 1,
        l0.ns()[l0.c()[p + 1] as int].next.marked,
        l1.ns().len() == l0.ns().len(),
        forall|j: int|
            0 <= j < l0.ns().len() && j != l0.c()[p] ==> l1.ns()[j] == l0.ns()[j],
        !l1.ns()[l0.c()[p] as int].next.marked,
        !l0.ns()[l0.c()[p] as int].next.marked,
        cs1.log() == cs0.log().push(l0.c()[p + 1]),
    ensures
        marks_as_at(ol, l1),
        retired_from_marked(ol, ocs, cs1),
{
    reveal(marks_as_at);
    reveal(retired_from_marked);
    let c = l0.c();
    assert forall|j: int| 0 <= j < l1.ns().len() implies l1.ns()[j].next.marked == ol.ns()[
        j
    ].next.marked by {
        if j == c[p] {
        }
    }
    let x = c[p + 1];
    assert(x < ol.arena_len() && ol.marked_slot(x)) by {
        assert(l0.ns()[x as int].next.marked);
    }
    assert forall|j: int| ocs.log().len() <= j < cs1.log().len() implies #[trigger] cs1.log()[
        j
    ] < ol.arena_len() && ol.marked_slot(cs1.log()[j]) by {
        if j < cs0.log().len() {
            assert(cs1.log()[j] == cs0.log()[j]);
        } else {
            assert(cs1.log()[j] == x);
        }
    }
}

/// The per-operation cursor: the traversal's protected positions.  `prev`
/// stays one step behind `curr`; `next` holds the last edge loaded from
/// `curr`, with its mark; `anchor` and `anchor_next` delimit a chain of
/// logically deleted nodes awaiting a batched unlink.
pub struct Cursor {
    prev: usize,
    curr: Ptr,
    next: Ptr,
    next_marked: bool,
    anchor: Ptr,
    anchor_next: Ptr,
    pos: Ghost<int>,
}

impl Cursor {
    pub closed spec fn spec_pos(self) -> int {
        self.pos@
    }

    pub closed spec fn spec_curr(self) -> Ptr {
        self.curr
    }

    /// The cursor points at a real position of the chain: `prev` is the
    /// live node at position `pos`, and `curr` is its successor (or null at
    /// the tail).
    pub closed spec fn valid<V>(self, l: List<V>) -> bool {
        let c = l.c();
        let ns = l.ns();
        let p = self.pos@;
        &&& 0 <= p < c.len()
        &&& self.prev == c[p]
        &&& !ns[c[p] as int].next.marked
        &&& if p == c.len() - 1 {
            self.curr.spec_null()
        } else {
            self.curr == Ptr::spec_at(c[p + 1])
        }
    }

    /// The value this cursor exposes through its `curr` position, if any.
    pub closed spec fn output_of<V>(self, l: List<V>) -> Option<V> {
        if !self.curr.spec_null() && self.curr.spec_idx() < l.ns().len() {
            Some(l.ns()[self.curr.spec_idx() as int].value)
        } else {
            None
        }
    }

    fn new() -> (c: Self)
        ensures
            c.spec_curr().spec_null(),
    {
        Cursor {
            prev: 0,
            curr: Ptr::none(),
            next: Ptr::none(),
            next_marked: false,
            anchor: Ptr::none(),
            anchor_next: Ptr::none(),
            pos: Ghost(0int),
        }
    }

    /// Initializes a cursor at the head.
    fn initialize<V>(&mut self, l: &List<V>)
        requires
            l.wf(),
        ensures
            final(self).valid(*l),
            final(self).spec_pos() == 0,
            final(self).anchor.spec_null(),
            final(self).anchor_next.spec_null(),
    {
        self.prev = l.head;
        let e = l.nodes[l.head].next;
        self.curr = e.ptr;
        self.anchor = Ptr::none();
        self.anchor_next = Ptr::none();
        self.pos = Ghost(0int);
        proof {
            if l.c().len() > 1 {
                assert(l.ns()[l.c()[0] as int].next.ptr == Ptr::spec_at(l.c()[1]));
            }
        }
    }
}

impl Cursor {
    /// Gotta go fast.  Doesn't fail: the lookup-only traversal that never
    /// assists cleanup, ignoring marks while walking and judging liveness
    /// only at the matching key.
    #[verifier::loop_isolation(false)]
    fn find_harris_herlihy_shavit<V>(&mut self, l: &List<V>, key: u64) -> (res: Result<
        bool,
        (),
    >)
        requires
            l.wf(),
            old(self).valid(*l),
            old(self).spec_pos() == 0,
        ensures
            res is Ok,
            res matches Ok(found) ==> {
                &&& found == l.view().contains_key(key)
                &&& found ==> final(self).output_of(*l) == Some(l.view()[key])
            },
    {
        let ghost c = l.c();
        let ghost ns = l.ns();
        let ghost mut q: int = 1;
        proof {
            l.lemma_view_char();
        }
        loop
            invariant
                1 <= q <= c.len(),
                !self.curr.spec_null() ==> q < c.len() && self.curr == Ptr::spec_at(c[q]),
                self.curr.spec_null() ==> q == c.len(),
                forall|i: int|
                    1 <= i < q && !ns[#[trigger] c[i] as int].next.marked ==> ns[c[
                        i
                    ] as int].key < key,
            decreases c.len() - q,
        {
            if self.curr.is_null() {
                proof {
                    if l.view().contains_key(key) {
                        let i = choose|i: int|
                            1 <= i < c.len() && !ns[#[trigger] c[i] as int].next.marked && ns[c[
                                i
                            ] as int].key == key;
                        assert(false);
                    }
                }
                return Ok(false);
            }
            let ci = self.curr.index();
            let e = l.nodes[ci].next;
            self.next = e.ptr;
            self.next_marked = e.marked;
            let nk = l.nodes[ci].key;
            if nk < key {
                self.curr = self.next;
                proof {
                    q = q + 1;
                }
            } else if nk == key {
                let r = !self.next_marked;
                proof {
                    if !r && l.view().contains_key(key) {
                        let i = choose|i: int|
                            1 <= i < c.len() && !ns[#[trigger] c[i] as int].next.marked && ns[c[
                                i
                            ] as int].key == key;
                        assert(false);
                    }
                }
                return Ok(r);
            } else {
                proof {
                    if l.view().contains_key(key) {
                        let i = choose|i: int|
                            1 <= i < c.len() && !ns[#[trigger] c[i] as int].next.marked && ns[c[
                                i
                            ] as int].key == key;
                        assert(false);
                    }
                }
                return Ok(false);
            }
        }
    }
}

impl Cursor {
    /// Physically unlinks the logically deleted node under `curr` by
    /// redirecting `prev`'s edge to `curr`'s successor, and retires it.
    /// The compare against `prev`'s current edge models the unlink
    /// compare-and-exchange; within one thread it cannot lose a race.
    #[verifier::rlimit(100)]
    fn try_unlink_curr<V>(&mut self, l: &mut List<V>, cs: &mut Cs) -> (res: Result<(), ()>)
        requires
            old(l).wf(),
            old(self).valid(*old(l)),
            !old(self).curr.spec_null(),
            old(l).ns()[old(l).c()[old(self).spec_pos() + 1] as int].next.marked,
            old(self).next == old(l).ns()[old(l).c()[old(self).spec_pos()
                + 1] as int].next.ptr,
        ensures
            res is Ok,
            *final(self) == *old(self),
            final(l).wf(),
            final(l).head == old(l).head,
            final(l).view() == old(l).view(),
            final(l).key_seq() == old(l).key_seq(),
            final(l).c() == old(l).c().remove(old(self).spec_pos() + 1),
            final(l).ns().len() == old(l).ns().len(),
            forall|j: int|
                0 <= j < old(l).ns().len() && j != old(l).c()[old(self).spec_pos()]
                    ==> final(l).ns()[j] == old(l).ns()[j],
            final(l).ns()[old(l).c()[old(self).spec_pos()] as int].key == old(l).ns()[old(l).c()[old(self).spec_pos()] as int].key,
            final(l).ns()[old(l).c()[old(self).spec_pos()] as int].value == old(l).ns()[old(l).c()[old(self).spec_pos()] as int].value,
            !final(l).ns()[old(l).c()[old(self).spec_pos()] as int].next.marked,
            final(l).retired@ == old(l).retired@.insert(old(l).c()[old(self).spec_pos() + 1]),
            final(cs).log() == old(cs).log().push(old(l).c()[old(self).spec_pos() + 1]),
    {
        let ghost p = self.pos@;
        let ghost c = old(l).c();
        let ghost ns0 = old(l).ns();
        let prev_idx = self.prev;
        let curr_idx = self.curr.index();
        let e = l.nodes[prev_idx].next;
        if e.ptr.same(&self.curr) && !e.marked {
            l.nodes[prev_idx].next = Edge { ptr: self.next, marked: false };
            l.chain = Ghost(c.remove(p + 1));
            proof {
                assert(l.c() =~= c.subrange(0, p + 1) + c.subrange(p + 2, c.len() as int));
                lemma_unlink_window(*old(l), *l, p, p + 1, self.next);
            }
            l.retired = Ghost(old(l).retired@.insert(curr_idx));
            cs.retire(curr_idx);
            proof {
                let c1 = l.c();
                assert forall|j: int| 0 <= j < c1.len() implies !l.retired@.contains(c1[j]) by {
                    if j <= p {
                        assert(c1[j] == c[j]);
                    } else {
                        assert(c1[j] == c[j + 1]);
                    }
                }
                assert(l.wf());
            }
            Ok(())
        } else {
            proof {
                assert(false);
            }
            Err(())
        }
    }

    /// Completes a Harris traversal: proves the verdict about the key and,
    /// if an anchor was installed, unlinks the whole run of logically
    /// deleted nodes between the anchor and `curr` with a single store to
    /// the anchor's edge, retiring every node of the run.
    #[verifier::loop_isolation(false)]
    #[verifier::rlimit(100)]
    fn finish_find_harris<V>(
        &mut self,
        l: &mut List<V>,
        cs: &mut Cs,
        key: u64,
        found: bool,
        Ghost(a): Ghost<int>,
    ) -> (res: Result<bool, ()>)
        requires
            old(l).wf(),
            0 <= old(self).spec_pos() < old(l).c().len(),
            old(self).prev == old(l).c()[old(self).spec_pos()],
            if old(self).spec_pos() == old(l).c().len() - 1 {
                old(self).curr.spec_null()
            } else {
                old(self).curr == Ptr::spec_at(old(l).c()[old(self).spec_pos() + 1])
            },
            old(self).anchor.spec_null() ==> !old(l).ns()[old(l).c()[old(self).spec_pos()] as int].next.marked
                && (old(self).spec_pos() >= 1 ==> old(l).ns()[old(l).c()[old(self).spec_pos()] as int].key < key),
            !old(self).anchor.spec_null() ==> {
                &&& 0 <= a < old(self).spec_pos()
                &&& old(self).anchor == Ptr::spec_at(old(l).c()[a])
                &&& !old(l).ns()[old(l).c()[a] as int].next.marked
                &&& (a >= 1 ==> old(l).ns()[old(l).c()[a] as int].key < key)
                &&& forall|i: int|
                    a < i <= old(self).spec_pos() ==> old(l).ns()[#[trigger] old(l).c()[i] as int].next.marked
                &&& (old(self).anchor_next.spec_null() ==> old(self).spec_pos() == a + 1)
                &&& (!old(self).anchor_next.spec_null() ==> old(self).anchor_next == Ptr::spec_at(old(l).c()[a + 1]))
            },
            forall|i: int|
                1 <= i <= old(self).spec_pos() && !old(l).ns()[#[trigger] old(l).c()[i] as int].next.marked
                    ==> old(l).ns()[old(l).c()[i] as int].key < key,
            found ==> old(self).spec_pos() + 1 < old(l).c().len()
                && old(l).ns()[old(l).c()[old(self).spec_pos() + 1] as int].key == key
                && !old(l).ns()[old(l).c()[old(self).spec_pos() + 1] as int].next.marked,
            !found ==> old(self).spec_pos() == old(l).c().len() - 1
                || old(l).ns()[old(l).c()[old(self).spec_pos() + 1] as int].key > key,
        ensures
            res == Ok::<bool, ()>(found),
            final(l).wf(),
            final(l).head == old(l).head,
            final(l).view() == old(l).view(),
            final(l).key_seq() == old(l).key_seq(),
            final(l).ns().len() == old(l).ns().len(),
            final(self).valid(*final(l)),
            final(self).spec_pos() >= 1 ==> final(l).ns()[final(l).c()[final(self).spec_pos()] as int].key < key,
            found == old(l).view().contains_key(key),
            found ==> !final(self).curr.spec_null() && final(l).ns()[final(l).c()[final(self).spec_pos() + 1] as int].key == key
                && !final(l).ns()[final(l).c()[final(self).spec_pos() + 1] as int].next.marked,
            found ==> final(self).output_of(*final(l)) == Some(old(l).view()[key]),
            !found ==> (final(self).spec_pos() + 1 == final(l).c().len()
                || final(l).ns()[final(l).c()[final(self).spec_pos() + 1] as int].key > key),
            final(cs).log().len() == old(cs).log().len() + (old(l).chain_len() - final(l).chain_len()),
            unlinked_window(*old(l), *final(l), *old(cs), *final(cs)),
    {
        let ghost c = l.c();
        let ghost ns = l.ns();
        let ghost p = self.pos@;
        proof {
            l.lemma_view_char();
            if !found && l.view().contains_key(key) {
                let i = choose|i: int|
                    1 <= i < c.len() && !ns[#[trigger] c[i] as int].next.marked && ns[c[
                        i
                    ] as int].key == key;
                assert(false);
            }
        }
        // if the anchor is not installed, no need to clean up
        if self.anchor.is_null() {
            return Ok(found);
        }
        let r = self.commit_window_unlink(l, cs, Ghost(a));
        proof {
            let p1 = self.pos@;
            if found {
                assert(l.c()[p1 + 1] == c[p + 1]);
            }
            // the unlinked run: one contiguous window of deleted nodes
            assert(l.chain_seq() == old(l).chain_seq().subrange(0, a + 1) + old(
                l,
            ).chain_seq().subrange(p + 1, old(l).chain_len() as int));
            assert(forall|i: int| a + 1 <= i < p + 1 ==> #[trigger] old(l).marked_at(i));
            assert(cs.log() == old(cs).log() + old(l).chain_seq().subrange(a + 1, p + 1));
            assert(unlinked_window(*old(l), *l, *old(cs), *cs));
        }
        match r {
            Ok(()) => Ok(found),
            Err(()) => Err(()),
        }
    }

    /// Commits the batched unlink: one store redirects the anchor's edge to
    /// `curr`, splicing out the whole run of logically deleted nodes, which
    /// are then retired in order.
    #[verifier::rlimit(100)]
    fn commit_window_unlink<V>(
        &mut self,
        l: &mut List<V>,
        cs: &mut Cs,
        Ghost(a): Ghost<int>,
    ) -> (res: Result<(), ()>)
        requires
            old(l).wf(),
            0 <= old(self).spec_pos() < old(l).c().len(),
            old(self).prev == old(l).c()[old(self).spec_pos()],
            if old(self).spec_pos() == old(l).c().len() - 1 {
                old(self).curr.spec_null()
            } else {
                old(self).curr == Ptr::spec_at(old(l).c()[old(self).spec_pos() + 1])
            },
            !old(self).anchor.spec_null(),
            0 <= a < old(self).spec_pos(),
            old(self).anchor == Ptr::spec_at(old(l).c()[a]),
            !old(l).ns()[old(l).c()[a] as int].next.marked,
            forall|i: int|
                a < i <= old(self).spec_pos() ==> old(l).ns()[#[trigger] old(l).c()[i] as int].next.marked,
            old(self).anchor_next.spec_null() ==> old(self).spec_pos() == a + 1,
            !old(self).anchor_next.spec_null() ==> old(self).anchor_next == Ptr::spec_at(old(l).c()[a + 1]),
        ensures
            res is Ok,
            final(l).wf(),
            final(l).head == old(l).head,
            final(l).view() == old(l).view(),
            final(l).key_seq() == old(l).key_seq(),
            final(l).ns().len() == old(l).ns().len(),
            final(l).c() == old(l).c().subrange(0, a + 1) + old(l).c().subrange(
                old(self).spec_pos() + 1,
                old(l).c().len() as int,
            ),
            forall|j: int|
                0 <= j < old(l).ns().len() && j != old(l).c()[a] ==> final(l).ns()[j] == old(l).ns()[j],
            final(l).ns()[old(l).c()[a] as int].key == old(l).ns()[old(l).c()[a] as int].key,
            final(l).ns()[old(l).c()[a] as int].value == old(l).ns()[old(l).c()[a] as int].value,
            !final(l).ns()[old(l).c()[a] as int].next.marked,
            final(self).spec_pos() == a,
            final(self).curr == old(self).curr,
            final(self).valid(*final(l)),
            final(cs).log().len() == old(cs).log().len() + (old(l).chain_len() - final(l).chain_len()),
            final(cs).log() == old(cs).log() + old(l).c().subrange(
                a + 1,
                old(self).spec_pos() + 1,
            ),
    {
        let ghost c = l.c();
        let ghost ns = l.ns();
        let ghost p = self.pos@;
        let a_idx = self.anchor.index();
        let expected: Ptr = if self.anchor_next.is_null() {
            Ptr::at(self.prev)
        } else {
            self.anchor_next
        };
        let e = l.nodes[a_idx].next;
        if e.ptr.same(&expected) && !e.marked {
            l.nodes[a_idx].next = Edge { ptr: self.curr, marked: false };
            let ghost c1 = c.subrange(0, a + 1) + c.subrange(p + 1, c.len() as int);
            l.chain = Ghost(c1);
            proof {
                lemma_unlink_window(*old(l), *l, a, p, self.curr);
            }
            retire_run(l, cs, expected, self.curr, Ghost(c), Ghost(ns), Ghost(a), Ghost(p));
            self.prev = a_idx;
            self.pos = Ghost(a);
            Ok(())
        } else {
            proof {
                assert(false);
            }
            Err(())
        }
    }

    /// Clean up a chain of logically removed nodes in each traversal: the
    /// Harris find.  While walking it records, in `anchor`, the last live
    /// node seen before a run of logically deleted ones, and on termination
    /// it unlinks the whole run with a single store to the anchor's edge,
    /// retiring every node of the run.
    #[verifier::loop_isolation(false)]
    #[verifier::rlimit(100)]
    fn find_harris<V>(&mut self, l: &mut List<V>, key: u64, cs: &mut Cs) -> (res: Result<
        bool,
        (),
    >)
        requires
            old(l).wf(),
            old(self).valid(*old(l)),
            old(self).spec_pos() == 0,
            old(self).anchor.spec_null(),
            old(self).anchor_next.spec_null(),
        ensures
            res is Ok,
            final(l).wf(),
            final(l).head == old(l).head,
            final(l).view() == old(l).view(),
            final(l).key_seq() == old(l).key_seq(),
            final(l).ns().len() == old(l).ns().len(),
            final(self).valid(*final(l)),
            final(self).spec_pos() >= 1 ==> final(l).ns()[final(l).c()[final(self).spec_pos()] as int].key < key,
            res matches Ok(found) ==> {
                &&& found == old(l).view().contains_key(key)
                &&& found ==> !final(self).curr.spec_null() && final(l).ns()[final(l).c()[
                    final(self).spec_pos() + 1] as int].key == key && !final(l).ns()[final(l).c()[final(self).spec_pos() + 1] as int].next.marked
                &&& found ==> final(self).output_of(*final(l)) == Some(old(l).view()[key])
                &&& !found ==> (final(self).spec_pos() + 1 == final(l).c().len() || final(l).ns()[final(l).c()[final(self).spec_pos() + 1] as int].key > key)
            },
            final(cs).log().len() == old(cs).log().len() + (old(l).chain_len() - final(l).chain_len()),
            unlinked_window(*old(l), *final(l), *old(cs), *final(cs)),
    {
        let ghost c = l.c();
        let ghost ns = l.ns();
        let ghost mut a: int = 0;
        loop
            invariant
                *l == *old(l),
                *cs == *old(cs),
                0 <= self.spec_pos() < c.len(),
                self.prev == c[self.spec_pos()],
                if self.spec_pos() == c.len() - 1 {
                    self.curr.spec_null()
                } else {
                    self.curr == Ptr::spec_at(c[self.spec_pos() + 1])
                },
                self.anchor.spec_null() ==> self.anchor_next.spec_null() && !ns[c[
                    self.spec_pos()
                ] as int].next.marked && (self.spec_pos() >= 1 ==> ns[c[
                    self.spec_pos()
                ] as int].key < key),
                !self.anchor.spec_null() ==> {
                    &&& 0 <= a < self.spec_pos()
                    &&& self.anchor == Ptr::spec_at(c[a])
                    &&& !ns[c[a] as int].next.marked
                    &&& (a >= 1 ==> ns[c[a] as int].key < key)
                    &&& forall|i: int|
                        a < i <= self.spec_pos() ==> ns[#[trigger] c[i] as int].next.marked
                    &&& (self.anchor_next.spec_null() ==> self.spec_pos() == a + 1)
                    &&& (!self.anchor_next.spec_null() ==> self.anchor_next == Ptr::spec_at(
                        c[a + 1],
                    ))
                },
                forall|i: int|
                    1 <= i <= self.spec_pos() && !ns[#[trigger] c[i] as int].next.marked ==> ns[
                        c[i] as int
                    ].key < key,
            decreases c.len() - self.spec_pos(),
        {
            let ghost p = self.pos@;
            if self.curr.is_null() {
                return self.finish_find_harris(l, cs, key, false, Ghost(a));
            }
            let ci = self.curr.index();
            let e = l.nodes[ci].next;
            self.next = e.ptr;
            self.next_marked = e.marked;
            if self.next_marked {
                // curr is logically deleted: absorb it into the window
                // <prev> -?-> <curr> -x-> <next>
                self.next_marked = false;
                let old_prev = self.prev;
                self.prev = ci;
                self.curr = self.next;
                self.next = Ptr::at(old_prev);
                // <next> -?-> <prev> -x-> <curr>
                if self.anchor.is_null() {
                    // first deletion observed: anchor the node before it
                    self.anchor = self.next;
                    self.next = Ptr::none();
                    proof {
                        a = p;
                    }
                } else if self.anchor_next.is_null() {
                    // second deletion: remember the head of the deleted run
                    self.anchor_next = self.next;
                    self.next = Ptr::none();
                }
                self.pos = Ghost(p + 1);
            } else {
                let nk = l.nodes[ci].key;
                if nk < key {
                    self.prev = ci;
                    self.curr = self.next;
                    self.anchor = Ptr::none();
                    self.anchor_next = Ptr::none();
                    self.pos = Ghost(p + 1);
                } else if nk == key {
                    return self.finish_find_harris(l, cs, key, true, Ghost(a));
                } else {
                    return self.finish_find_harris(l, cs, key, false, Ghost(a));
                }
            }
        }
    }

    /// Clean up a single logically removed node in each traversal: the
    /// Harris–Michael find.
    #[verifier::loop_isolation(false)]
    #[verifier::rlimit(100)]
    fn find_harris_michael<V>(&mut self, l: &mut List<V>, key: u64, cs: &mut Cs) -> (res:
        Result<bool, ()>)
        requires
            old(l).wf(),
            old(self).valid(*old(l)),
            old(self).spec_pos() == 0,
        ensures
            res is Ok,
            final(l).wf(),
            final(l).head == old(l).head,
            final(l).view() == old(l).view(),
            final(l).key_seq() == old(l).key_seq(),
            final(l).ns().len() == old(l).ns().len(),
            final(self).valid(*final(l)),
            final(self).spec_pos() >= 1 ==> final(l).ns()[final(l).c()[final(self).spec_pos()] as int].key < key,
            res matches Ok(found) ==> {
                &&& found == old(l).view().contains_key(key)
                &&& found ==> !final(self).curr.spec_null() && final(l).ns()[final(l).c()[
                    final(self).spec_pos() + 1] as int].key == key && !final(l).ns()[final(l).c()[final(self).spec_pos() + 1] as int].next.marked
                &&& found ==> final(self).output_of(*final(l)) == Some(old(l).view()[key])
                &&& !found ==> (final(self).spec_pos() + 1 == final(l).c().len() || final(l).ns()[final(l).c()[final(self).spec_pos() + 1] as int].key > key)
            },
            final(cs).log().len() == old(cs).log().len() + (old(l).chain_len() - final(l).chain_len()),
            forall|i: int|
                1 <= i <= final(self).spec_pos() ==> !final(l).marked_at(i) && final(l).key_at(i) < key,
            retired_from_marked(*old(l), *old(cs), *final(cs)),
    {
        proof {
            lemma_hm_entry(*l, *cs);
        }
        loop
            invariant
                l.wf(),
                l.head == old(l).head,
                l.view() == old(l).view(),
                l.key_seq() == old(l).key_seq(),
                l.ns().len() == old(l).ns().len(),
                self.valid(*l),
                forall|i: int|
                    1 <= i <= self.spec_pos() ==> !l.ns()[#[trigger] l.c()[
                        i
                    ] as int].next.marked && l.ns()[l.c()[i] as int].key < key,
                cs.log().len() == old(cs).log().len() + (old(l).chain_len() - l.chain_len()),
                marks_as_at(*old(l), *l),
                retired_from_marked(*old(l), *old(cs), *cs),
                old(cs).log().len() <= cs.log().len(),
            decreases l.c().len() - self.spec_pos(),
        {
            let ghost p = self.pos@;
            let ghost c = l.c();
            if self.curr.is_null() {
                proof {
                    l.lemma_view_char();
                    if l.view().contains_key(key) {
                        let i = choose|i: int|
                            1 <= i < l.c().len() && !l.ns()[#[trigger] l.c()[
                                i
                            ] as int].next.marked && l.ns()[l.c()[i] as int].key == key;
                        assert(false);
                    }
                }
                return Ok(false);
            }
            let ci = self.curr.index();
            let e = l.nodes[ci].next;
            self.next = e.ptr;
            self.next_marked = e.marked;
            if self.next_marked {
                self.next_marked = false;
                let ghost cs0 = *cs;
                let ghost l0 = *l;
                self.try_unlink_curr(l, cs)?;
                self.curr = self.next;
                proof {
                    let c1 = l.c();
                    assert(forall|i: int| 0 <= i <= p ==> c1[i] == c[i]);
                    assert(self.valid(*l));
                    lemma_hm_unlink_step(*old(l), l0, *l, *old(cs), cs0, *cs, p);
                }
            } else {
                let nk = l.nodes[ci].key;
                if nk < key {
                    self.prev = ci;
                    self.curr = self.next;
                    self.pos = Ghost(p + 1);
                    proof {
                        assert(self.valid(*l));
                    }
                } else if nk == key {
                    proof {
                        l.lemma_view_char();
                    }
                    return Ok(true);
                } else {
                    proof {
                        l.lemma_view_char();
                        if l.view().contains_key(key) {
                            let i = choose|i: int|
                                1 <= i < l.c().len() && !l.ns()[#[trigger] l.c()[
                                    i
                                ] as int].next.marked && l.ns()[l.c()[i] as int].key == key;
                            assert(false);
                        }
                    }
                    return Ok(false);
                }
            }
        }
    }
}

impl<V> List<V> {
    /// The view contains exactly the keys of the live nodes after the head,
    /// each bound to that node's value.
    proof fn lemma_view_char(self)
        requires
            self.wf(),
        ensures
            forall|kk: u64|
                self.view().contains_key(kk) <==> exists|i: int|
                    1 <= i < self.c().len() && !self.ns()[#[trigger] self.c()[i] as int].next.marked
                        && self.ns()[self.c()[i] as int].key == kk,
            forall|i: int|
                1 <= i < self.c().len() && !self.ns()[#[trigger] self.c()[i] as int].next.marked
                    ==> self.view()[self.ns()[self.c()[i] as int].key] == self.ns()[self.c()[
                    i
                ] as int].value,
    {
        let c = self.c();
        let ns = self.ns();
        let t = c.skip(1);
        assert(forall|j: int| 0 <= j < t.len() ==> #[trigger] t[j] == c[j + 1]);
        lemma_map_props(ns, t);
        assert forall|kk: u64| self.view().contains_key(kk) implies exists|i: int|
            1 <= i < c.len() && !ns[#[trigger] c[i] as int].next.marked && ns[c[i] as int].key
                == kk by {
            let j = choose|j: int|
                0 <= j < t.len() && !ns[#[trigger] t[j] as int].next.marked && ns[t[
                    j
                ] as int].key == kk;
            assert(1 <= j + 1 < c.len() && !ns[c[j + 1] as int].next.marked && ns[c[j
                + 1] as int].key == kk);
        }
        assert forall|i: int|
            1 <= i < c.len() && !ns[#[trigger] c[i] as int].next.marked implies {
            &&& self.view().contains_key(ns[c[i] as int].key)
            &&& self.view()[ns[c[i] as int].key] == ns[c[i] as int].value
        } by {
            assert(t[i - 1] == c[i]);
            assert(List::map_of(ns, t).contains_key(ns[t[i - 1] as int].key));
        }
    }
}

/// `map_of` and `live_keys` read only the key, value and mark of the listed
/// slots, so they are unchanged by edits elsewhere in the arena (such as
/// pushed nodes or redirected edges off the segment).
proof fn lemma_map_frame<V>(ns1: Seq<Node<V>>, ns2: Seq<Node<V>>, c: Seq<usize>)
    requires
        forall|i: int| 0 <= i < c.len() ==> c[i] < ns1.len() && c[i] < ns2.len(),
        forall|i: int|
            0 <= i < c.len() ==> {
                &&& ns1[c[i] as int].key == ns2[c[i] as int].key
                &&& ns1[c[i] as int].value == ns2[c[i] as int].value
                &&& ns1[c[i] as int].next.marked == ns2[c[i] as int].next.marked
            },
    ensures
        List::map_of(ns1, c) == List::map_of(ns2, c),
        List::live_keys(ns1, c) == List::live_keys(ns2, c),
    decreases c.len(),
{
    if c.len() > 0 {
        lemma_map_frame(ns1, ns2, c.drop_last());
    }
}

/// Concatenating chain segments unions their maps, the right segment winning.
proof fn lemma_map_concat<V>(ns: Seq<Node<V>>, a: Seq<usize>, b: Seq<usize>)
    ensures
        List::map_of(ns, a + b) == List::map_of(ns, a).union_prefer_right(
            List::map_of(ns, b),
        ),
        List::live_keys(ns, a + b) == List::live_keys(ns, a) + List::live_keys(ns, b),
    decreases b.len(),
{
    if b.len() == 0 {
        assert(a + b =~= a);
        assert(List::map_of(ns, a).union_prefer_right(List::map_of(ns, b)) =~= List::map_of(
            ns,
            a,
        ));
        assert(List::live_keys(ns, a) + List::live_keys(ns, b) =~= List::live_keys(ns, a));
    } else {
        lemma_map_concat(ns, a, b.drop_last());
        assert((a + b).drop_last() =~= a + b.drop_last());
        assert((a + b).last() == b.last());
        let n = ns[b.last() as int];
        if !n.next.marked {
            assert(List::map_of(ns, a).union_prefer_right(
                List::map_of(ns, b.drop_last()),
            ).insert(n.key, n.value) =~= List::map_of(ns, a).union_prefer_right(
                List::map_of(ns, b.drop_last()).insert(n.key, n.value),
            ));
            assert(List::live_keys(ns, a) + List::live_keys(ns, b.drop_last() ).push(n.key)
                =~= (List::live_keys(ns, a) + List::live_keys(ns, b.drop_last())).push(n.key));
        }
    }
}

/// A segment of marked nodes holds the empty map and no live keys.
proof fn lemma_map_all_marked<V>(ns: Seq<Node<V>>, c: Seq<usize>)
    requires
        forall|i: int| 0 <= i < c.len() ==> ns[#[trigger] c[i] as int].next.marked,
    ensures
        List::map_of(ns, c) == Map::<u64, V>::empty(),
        List::live_keys(ns, c) == Seq::<u64>::empty(),
    decreases c.len(),
{
    if c.len() > 0 {
        lemma_map_all_marked(ns, c.drop_last());
    }
}

/// Unlinking a fully marked segment leaves the map and the live keys as they
/// were.
proof fn lemma_remove_marked_segment<V>(
    ns: Seq<Node<V>>,
    a: Seq<usize>,
    s: Seq<usize>,
    b: Seq<usize>,
)
    requires
        forall|i: int| 0 <= i < s.len() ==> ns[#[trigger] s[i] as int].next.marked,
    ensures
        List::map_of(ns, a + s + b) == List::map_of(ns, a + b),
        List::live_keys(ns, a + s + b) == List::live_keys(ns, a + b),
{
    lemma_map_concat(ns, a + s, b);
    lemma_map_concat(ns, a, s);
    lemma_map_all_marked(ns, s);
    lemma_map_concat(ns, a, b);
    assert(List::map_of(ns, a).union_prefer_right(Map::<u64, V>::empty()) =~= List::map_of(
        ns,
        a,
    ));
    assert(List::map_of(ns, a + s + b) =~= List::map_of(ns, a + b));
    assert(List::live_keys(ns, a + s + b) =~= List::live_keys(ns, a + b));
}

/// Every key of a segment's map is the key of some live node of the segment.
proof fn lemma_map_dom<V>(ns: Seq<Node<V>>, c: Seq<usize>)
    ensures
        forall|k: u64|
            List::map_of(ns, c).contains_key(k) ==> exists|i: int|
                0 <= i < c.len() && !ns[#[trigger] c[i] as int].next.marked && ns[c[
                    i
                ] as int].key == k,
    decreases c.len(),
{
    if c.len() > 0 {
        let d = c.drop_last();
        lemma_map_dom(ns, d);
        let n = ns[c.last() as int];
        assert(forall|i: int| 0 <= i < d.len() ==> #[trigger] d[i] == c[i]);
        assert forall|k: u64| List::map_of(ns, c).contains_key(k) implies exists|i: int|
            0 <= i < c.len() && !ns[#[trigger] c[i] as int].next.marked && ns[c[i] as int].key
                == k by {
            if !n.next.marked && n.key == k {
                let w = c.len() - 1;
                assert(0 <= w < c.len() && !ns[c[w] as int].next.marked && ns[c[w] as int].key
                    == k);
            } else {
                assert(List::map_of(ns, d).contains_key(k));
                let i = choose|i: int|
                    0 <= i < d.len() && !ns[#[trigger] d[i] as int].next.marked && ns[d[
                        i
                    ] as int].key == k;
                assert(0 <= i < c.len() && !ns[c[i] as int].next.marked && ns[c[i] as int].key
                    == k);
            }
        }
    }
}

/// Splicing one live node into the chain inserts exactly its pair into the
/// map, provided its key appears on no live node to its right.
proof fn lemma_insert_mid<V>(ns: Seq<Node<V>>, a: Seq<usize>, x: usize, b: Seq<usize>)
    requires
        x < ns.len(),
        !ns[x as int].next.marked,
        forall|i: int|
            0 <= i < b.len() && !ns[#[trigger] b[i] as int].next.marked ==> ns[b[i] as int].key
                != ns[x as int].key,
    ensures
        List::map_of(ns, a + seq![x] + b) == List::map_of(ns, a + b).insert(
            ns[x as int].key,
            ns[x as int].value,
        ),
        List::live_keys(ns, a + seq![x] + b) == List::live_keys(ns, a) + seq![
            ns[x as int].key,
        ] + List::live_keys(ns, b),
{
    let k = ns[x as int].key;
    let v = ns[x as int].value;
    lemma_map_concat(ns, a + seq![x], b);
    lemma_map_concat(ns, a, seq![x]);
    lemma_map_concat(ns, a, b);
    lemma_map_dom(ns, b);
    assert(seq![x].drop_last() =~= Seq::<usize>::empty());
    assert(List::map_of(ns, Seq::<usize>::empty()) == Map::<u64, V>::empty());
    assert(List::live_keys(ns, Seq::<usize>::empty()) == Seq::<u64>::empty());
    assert(seq![x].last() == x);
    assert(List::map_of(ns, seq![x]) =~= Map::<u64, V>::empty().insert(k, v));
    assert forall|kk: u64| true implies List::map_of(ns, a + seq![x] + b).contains_key(kk)
        == List::map_of(ns, a + b).insert(k, v).contains_key(kk) && (List::map_of(
        ns,
        a + seq![x] + b,
    ).contains_key(kk) ==> List::map_of(ns, a + seq![x] + b)[kk] == List::map_of(ns, a + b).insert(
        k,
        v,
    )[kk]) by {
        if kk == k {
            assert(!List::map_of(ns, b).contains_key(k));
        }
    }
    assert(List::map_of(ns, a + seq![x] + b) =~= List::map_of(ns, a + b).insert(k, v));
    assert(List::live_keys(ns, seq![x]) =~= seq![k]);
    assert(List::live_keys(ns, a + seq![x] + b) =~= List::live_keys(ns, a) + seq![k]
        + List::live_keys(ns, b));
}

/// Redirecting the anchor's edge to `curr` splices the fully marked run out
/// of the chain, preserving well-formedness, the view and the live keys.
#[verifier::rlimit(100)]
proof fn lemma_unlink_window<V>(l0: List<V>, l1: List<V>, a: int, p: int, curr: Ptr)
    requires
        l0.wf(),
        0 <= a < p < l0.c().len(),
        !l0.ns()[l0.c()[a] as int].next.marked,
        forall|i: int| a < i <= p ==> l0.ns()[#[trigger] l0.c()[i] as int].next.marked,
        if p == l0.c().len() - 1 {
            curr.spec_null()
        } else {
            curr == Ptr::spec_at(l0.c()[p + 1])
        },
        l1.head == l0.head,
        l1.retired@ == l0.retired@,
        l1.c() == l0.c().subrange(0, a + 1) + l0.c().subrange(p + 1, l0.c().len() as int),
        l1.ns() == l0.ns().update(
            l0.c()[a] as int,
            Node {
                next: Edge { ptr: curr, marked: false },
                ..l0.ns()[l0.c()[a] as int]
            },
        ),
    ensures
        l1.wf(),
        l1.view() == l0.view(),
        l1.key_seq() == l0.key_seq(),
{
    let c = l0.c();
    let ns = l0.ns();
    let c1 = l1.c();
    let ns1 = l1.ns();
    assert(forall|i: int| 0 <= i <= a ==> c1[i] == c[i]);
    assert(forall|i: int| a < i < c1.len() ==> c1[i] == c[i + (p - a)]);
    assert forall|i: int| 0 <= i < c1.len() - 1 implies ns1[c1[i] as int].next.ptr
        == Ptr::spec_at(c1[i + 1]) by {
        if i < a {
            assert(c1[i] == c[i] && c[i] != c[a]);
        } else if i == a {
            assert(p + 1 < c.len());
            assert(c1[a + 1] == c[p + 1]);
        } else {
            assert(c1[i] == c[i + (p - a)] && c[i + (p - a)] != c[a]);
        }
    }
    assert(ns1[c1[c1.len() - 1] as int].next.ptr.spec_null());
    assert(l1.wf());
    lemma_unlink_window_view(l0, l1, a, p);
}

/// The view part of the splice: a fully marked run contributes nothing to
/// the map or the live keys.
#[verifier::rlimit(100)]
proof fn lemma_unlink_window_view<V>(l0: List<V>, l1: List<V>, a: int, p: int)
    requires
        l0.wf(),
        0 <= a < p < l0.c().len(),
        forall|i: int| a < i <= p ==> l0.ns()[#[trigger] l0.c()[i] as int].next.marked,
        l1.c() == l0.c().subrange(0, a + 1) + l0.c().subrange(p + 1, l0.c().len() as int),
        l1.ns().len() == l0.ns().len(),
        forall|j: int|
            0 <= j < l0.ns().len() && j != l0.c()[a] ==> l1.ns()[j] == l0.ns()[j],
        l1.ns()[l0.c()[a] as int].key == l0.ns()[l0.c()[a] as int].key,
        l1.ns()[l0.c()[a] as int].value == l0.ns()[l0.c()[a] as int].value,
        l1.ns()[l0.c()[a] as int].next.marked == l0.ns()[l0.c()[a] as int].next.marked,
    ensures
        l1.view() == l0.view(),
        l1.key_seq() == l0.key_seq(),
{
    let c = l0.c();
    let ns = l0.ns();
    let c1 = l1.c();
    let ns1 = l1.ns();
    let aa = c.subrange(1, a + 1);
    let s = c.subrange(a + 1, p + 1);
    let b = c.subrange(p + 1, c.len() as int);
    assert(c.skip(1) =~= aa + s + b);
    assert(c1.skip(1) =~= aa + b);
    lemma_map_frame(ns, ns1, c.skip(1));
    lemma_map_frame(ns, ns1, c1.skip(1));
    lemma_remove_marked_segment(ns1, aa, s, b);
    assert(l1.view() == l0.view());
    assert(l1.key_seq() == l0.key_seq());
}

/// Retires, in chain order, every node of a run that has just been spliced
/// out of the chain.  `first` points at the head of the run and `stop` is
/// the pointer that followed the run.
#[verifier::rlimit(100)]
fn retire_run<V>(
    l: &mut List<V>,
    cs: &mut Cs,
    first: Ptr,
    stop: Ptr,
    Ghost(c): Ghost<Seq<usize>>,
    Ghost(ns): Ghost<Seq<Node<V>>>,
    Ghost(a): Ghost<int>,
    Ghost(p): Ghost<int>,
)
    requires
        old(l).wf(),
        0 <= a < p < c.len(),
        forall|i: int| 0 <= i < c.len() ==> c[i] < old(l).ns().len(),
        forall|i: int, j: int| 0 <= i < j < c.len() ==> c[i] != c[j],
        forall|i: int|
            a < i <= p ==> old(l).ns()[#[trigger] c[i] as int] == ns[c[i] as int],
        forall|i: int|
            a < i < c.len() - 1 ==> ns[#[trigger] c[i] as int].next.ptr == Ptr::spec_at(
                c[i + 1],
            ),
        ns[c[c.len() - 1] as int].next.ptr.spec_null(),
        first == Ptr::spec_at(c[a + 1]),
        if p == c.len() - 1 {
            stop.spec_null()
        } else {
            stop == Ptr::spec_at(c[p + 1])
        },
        old(l).c() == c.subrange(0, a + 1) + c.subrange(p + 1, c.len() as int),
    ensures
        final(l).wf(),
        final(l).head == old(l).head,
        final(l).ns() == old(l).ns(),
        final(l).c() == old(l).c(),
        final(l).view() == old(l).view(),
        final(l).key_seq() == old(l).key_seq(),
        final(cs).log().len() == old(cs).log().len() + (p - a),
        final(cs).log() == old(cs).log() + c.subrange(a + 1, p + 1),
    decreases p - a,
{
    let ghost c1 = l.c();
    let mut cur = first;
    let ghost mut i: int = a + 1;
    while !cur.same(&stop)
        invariant
            a + 1 <= i <= p + 1,
            i <= p ==> cur == Ptr::spec_at(c[i]),
            i == p + 1 ==> cur.spec_same(stop),
            l.wf(),
            l.head == old(l).head,
            l.ns() == old(l).ns(),
            l.c() == c1,
            c1 == old(l).c(),
            l.view() == old(l).view(),
            l.key_seq() == old(l).key_seq(),
            cs.log().len() == old(cs).log().len() + (i - (a + 1)),
            cs.log() == old(cs).log() + c.subrange(a + 1, i),
            0 <= a < p < c.len(),
            forall|ii: int| 0 <= ii < c.len() ==> c[ii] < l.ns().len(),
            forall|ii: int, j: int| 0 <= ii < j < c.len() ==> c[ii] != c[j],
            forall|ii: int|
                a < ii <= p ==> l.ns()[#[trigger] c[ii] as int] == ns[c[ii] as int],
            forall|ii: int|
                a < ii < c.len() - 1 ==> ns[#[trigger] c[ii] as int].next.ptr == Ptr::spec_at(
                    c[ii + 1],
                ),
            ns[c[c.len() - 1] as int].next.ptr.spec_null(),
            if p == c.len() - 1 {
                stop.spec_null()
            } else {
                stop == Ptr::spec_at(c[p + 1])
            },
            c1 == c.subrange(0, a + 1) + c.subrange(p + 1, c.len() as int),
        decreases p + 1 - i,
    {
        proof {
            if i == p + 1 {
                assert(false);
            }
        }
        let ci = cur.index();
        l.retired = Ghost(l.retired@.insert(ci));
        cs.retire(ci);
        proof {
            assert(c.subrange(a + 1, i + 1) =~= c.subrange(a + 1, i).push(c[i]));
            assert(cs.log() =~= old(cs).log() + c.subrange(a + 1, i + 1));
            assert forall|j: int| 0 <= j < c1.len() implies !l.retired@.contains(c1[j]) by {
                if j <= a {
                    assert(c1[j] == c[j]);
                } else {
                    assert(c1[j] == c[j + (p - a)]);
                }
            }
            assert(l.wf());
        }
        cur = l.nodes[ci].next.ptr;
        proof {
            assert(l.ns()[c[i] as int] == ns[c[i] as int]);
            if i < p {
                assert(ns[c[i] as int].next.ptr == Ptr::spec_at(c[i + 1]));
            } else {
                if p == c.len() - 1 {
                    assert(ns[c[p] as int].next.ptr.spec_null());
                } else {
                    assert(ns[c[p] as int].next.ptr == Ptr::spec_at(c[p + 1]));
                }
            }
            i = i + 1;
        }
    }
    proof {
        if i <= p {
            assert(!cur.spec_same(stop));
            assert(false);
        }
        assert(cs.log() == old(cs).log() + c.subrange(a + 1, p + 1));
    }
}

/// On a segment with strictly increasing keys, the map contains exactly the
/// keys of the live nodes, each bound to that node's value.
#[verifier::rlimit(50)]
proof fn lemma_map_props<V>(ns: Seq<Node<V>>, c: Seq<usize>)
    requires
        forall|i: int, j: int|
            0 <= i < j < c.len() ==> ns[c[i] as int].key < ns[c[j] as int].key,
    ensures
        forall|k: u64|
            List::map_of(ns, c).contains_key(k) <==> exists|i: int|
                0 <= i < c.len() && !ns[#[trigger] c[i] as int].next.marked && ns[c[
                    i
                ] as int].key == k,
        forall|i: int|
            0 <= i < c.len() && !ns[#[trigger] c[i] as int].next.marked ==> List::map_of(ns, c)[ns[
                c[i] as int
            ].key] == ns[c[i] as int].value,
    decreases c.len(),
{
    if c.len() > 0 {
        let d = c.drop_last();
        lemma_map_props(ns, d);
        let n = ns[c.last() as int];
        assert(forall|i: int| 0 <= i < d.len() ==> #[trigger] d[i] == c[i]);
        assert forall|k: u64| List::map_of(ns, c).contains_key(k) implies exists|i: int|
            0 <= i < c.len() && !ns[#[trigger] c[i] as int].next.marked && ns[c[i] as int].key
                == k by {
            if !n.next.marked && n.key == k {
                let w = c.len() - 1;
                assert(0 <= w < c.len() && !ns[c[w] as int].next.marked && ns[c[w] as int].key
                    == k);
            } else {
                assert(List::map_of(ns, d).contains_key(k));
                let i = choose|i: int|
                    0 <= i < d.len() && !ns[#[trigger] d[i] as int].next.marked && ns[d[
                        i
                    ] as int].key == k;
                assert(0 <= i < c.len() && !ns[c[i] as int].next.marked && ns[c[i] as int].key
                    == k);
            }
        }
        assert forall|i: int|
            0 <= i < c.len() && !ns[#[trigger] c[i] as int].next.marked implies {
            &&& List::map_of(ns, c).contains_key(ns[c[i] as int].key)
            &&& List::map_of(ns, c)[ns[c[i] as int].key] == ns[c[i] as int].value
        } by {
            if i < c.len() - 1 {
                assert(d[i] == c[i]);
                assert(List::map_of(ns, d).contains_key(ns[c[i] as int].key));
                assert(List::map_of(ns, d)[ns[c[i] as int].key] == ns[c[i] as int].value);
                assert(ns[c[i] as int].key < n.key);
            }
        }
    }
}

/// Publishing a fresh live node between positions `p` and `p + 1` inserts
/// exactly its pair into the map and keeps the chain sorted.
#[verifier::rlimit(100)]
proof fn lemma_splice_in<V>(l0: List<V>, l1: List<V>, p: int, n_idx: usize, key: u64)
    requires
        l0.wf(),
        0 <= p < l0.c().len(),
        !l0.ns()[l0.c()[p] as int].next.marked,
        p >= 1 ==> l0.ns()[l0.c()[p] as int].key < key,
        p + 1 < l0.c().len() ==> l0.ns()[l0.c()[p + 1] as int].key > key,
        n_idx == l0.ns().len(),
        l1.head == l0.head,
        l1.retired@ == l0.retired@,
        l1.c() == l0.c().subrange(0, p + 1) + seq![n_idx] + l0.c().subrange(
            p + 1,
            l0.c().len() as int,
        ),
        l1.ns().len() == l0.ns().len() + 1,
        forall|j: int|
            0 <= j < l0.ns().len() && j != l0.c()[p] ==> l1.ns()[j] == l0.ns()[j],
        l1.ns()[l0.c()[p] as int].key == l0.ns()[l0.c()[p] as int].key,
        l1.ns()[l0.c()[p] as int].value == l0.ns()[l0.c()[p] as int].value,
        l1.ns()[l0.c()[p] as int].next == (Edge { ptr: Ptr::spec_at(n_idx), marked: false }),
        l1.ns()[n_idx as int].key == key,
        !l1.ns()[n_idx as int].next.marked,
        if p == l0.c().len() - 1 {
            l1.ns()[n_idx as int].next.ptr.spec_null()
        } else {
            l1.ns()[n_idx as int].next.ptr == Ptr::spec_at(l0.c()[p + 1])
        },
    ensures
        l1.wf(),
        l1.view() == l0.view().insert(key, l1.ns()[n_idx as int].value),
{
    let c = l0.c();
    let ns = l0.ns();
    let c1 = l1.c();
    let ns1 = l1.ns();
    assert(forall|i: int| 0 <= i <= p ==> c1[i] == c[i]);
    assert(c1[p + 1] == n_idx);
    assert(forall|i: int| p + 1 < i < c1.len() ==> c1[i] == c[i - 1]);
    assert forall|i: int| 0 <= i < c1.len() - 1 implies ns1[c1[i] as int].next.ptr
        == Ptr::spec_at(c1[i + 1]) by {
        if i < p {
            assert(c1[i] == c[i] && c[i] != c[p] && c[i] < ns.len());
        } else if i == p {
            assert(ns1[c[p] as int].next.ptr == Ptr::spec_at(n_idx));
        } else if i == p + 1 {
            assert(p + 1 < c.len());
            assert(c1[i + 1] == c[p + 1]);
        } else {
            assert(c1[i] == c[i - 1] && c[i - 1] != c[p]);
        }
    }
    assert(ns1[c1[c1.len() - 1] as int].next.ptr.spec_null());
    assert forall|i: int, j: int| 1 <= i < j < c1.len() implies ns1[c1[i] as int].key < ns1[
        c1[j] as int
    ].key by {
        if i == p + 1 {
            assert(c1[j] == c[j - 1]);
        } else if j == p + 1 {
            assert(c1[i] == c[i]);
            assert(i <= p);
        } else {
            let i0: int = if i <= p { i } else { i - 1 };
            let j0: int = if j <= p { j } else { j - 1 };
            assert(c1[i] == c[i0] && c1[j] == c[j0]);
        }
    }
    assert(l1.wf());
    lemma_splice_in_view(l0, l1, p, n_idx, key);
}

/// The view part of the splice: the fresh node's pair is added and nothing
/// else changes.
#[verifier::rlimit(100)]
proof fn lemma_splice_in_view<V>(l0: List<V>, l1: List<V>, p: int, n_idx: usize, key: u64)
    requires
        l0.wf(),
        0 <= p < l0.c().len(),
        p + 1 < l0.c().len() ==> l0.ns()[l0.c()[p + 1] as int].key > key,
        n_idx == l0.ns().len(),
        l1.c() == l0.c().subrange(0, p + 1) + seq![n_idx] + l0.c().subrange(
            p + 1,
            l0.c().len() as int,
        ),
        l1.ns().len() == l0.ns().len() + 1,
        forall|j: int|
            0 <= j < l0.ns().len() && j != l0.c()[p] ==> l1.ns()[j] == l0.ns()[j],
        l1.ns()[l0.c()[p] as int].key == l0.ns()[l0.c()[p] as int].key,
        l1.ns()[l0.c()[p] as int].value == l0.ns()[l0.c()[p] as int].value,
        l1.ns()[l0.c()[p] as int].next.marked == l0.ns()[l0.c()[p] as int].next.marked,
        l1.ns()[n_idx as int].key == key,
        !l1.ns()[n_idx as int].next.marked,
    ensures
        l1.view() == l0.view().insert(key, l1.ns()[n_idx as int].value),
{
    let c = l0.c();
    let ns = l0.ns();
    let c1 = l1.c();
    let ns1 = l1.ns();
    let aa = c.subrange(1, p + 1);
    let b = c.subrange(p + 1, c.len() as int);
    assert(c1.skip(1) =~= aa + seq![n_idx] + b);
    assert(c.skip(1) =~= aa + b);
    assert forall|i: int| 0 <= i < b.len() && !ns1[#[trigger] b[i] as int].next.marked
        implies ns1[b[i] as int].key != key by {
        assert(b[i] == c[p + 1 + i]);
        assert(ns1[b[i] as int] == ns[b[i] as int]);
    }
    lemma_insert_mid(ns1, aa, n_idx, b);
    assert forall|i: int| 0 <= i < (aa + b).len() implies (aa + b)[i] < ns.len() && (aa
        + b)[i] < ns1.len() by {
        if i < aa.len() {
            assert((aa + b)[i] == c[1 + i]);
        } else {
            assert((aa + b)[i] == c[p + 1 + (i - aa.len())]);
        }
    }
    lemma_map_frame(ns, ns1, aa + b);
    assert(l1.view() == l0.view().insert(key, ns1[n_idx as int].value));
}

/// Marking the live node at chain position `pos` removes its key from the
/// map.
#[verifier::rlimit(100)]
proof fn lemma_mark_at<V>(l0: List<V>, l1: List<V>, pos: int)
    requires
        l0.wf(),
        1 <= pos < l0.c().len(),
        !l0.ns()[l0.c()[pos] as int].next.marked,
        l1.c() == l0.c(),
        l1.ns().len() == l0.ns().len(),
        forall|j: int|
            0 <= j < l0.ns().len() && j != l0.c()[pos] ==> l1.ns()[j] == l0.ns()[j],
        l1.ns()[l0.c()[pos] as int].key == l0.ns()[l0.c()[pos] as int].key,
        l1.ns()[l0.c()[pos] as int].value == l0.ns()[l0.c()[pos] as int].value,
        l1.ns()[l0.c()[pos] as int].next.marked,
    ensures
        l1.view() == l0.view().remove(l0.ns()[l0.c()[pos] as int].key),
{
    let c = l0.c();
    let ns = l0.ns();
    let ns1 = l1.ns();
    let x = c[pos];
    let k = ns[x as int].key;
    let v = ns[x as int].value;
    let aa = c.subrange(1, pos);
    let b = c.subrange(pos + 1, c.len() as int);
    assert(c.skip(1) =~= aa + seq![x] + b);
    assert forall|i: int| 0 <= i < b.len() && !ns[#[trigger] b[i] as int].next.marked
        implies ns[b[i] as int].key != k by {
        assert(b[i] == c[pos + 1 + i]);
    }
    lemma_insert_mid(ns, aa, x, b);
    lemma_remove_marked_segment(ns1, aa, seq![x], b);
    lemma_map_frame(ns, ns1, aa + b);
    lemma_map_dom(ns, aa + b);
    assert forall|i: int| 0 <= i < (aa + b).len()
        implies (aa + b)[i] < ns.len() && (aa + b)[i] != x by {
        if i < aa.len() {
            assert((aa + b)[i] == c[1 + i]);
        } else {
            assert((aa + b)[i] == c[pos + 1 + (i - aa.len())]);
        }
    }
    assert(l1.view() == List::map_of(ns, aa + b));
    assert forall|kk: u64| true implies List::map_of(ns, aa + b).contains_key(kk) == l0.view(
    ).remove(k).contains_key(kk) && (List::map_of(ns, aa + b).contains_key(kk)
        ==> List::map_of(ns, aa + b)[kk] == l0.view().remove(k)[kk]) by {
        if kk == k {
            if List::map_of(ns, aa + b).contains_key(k) {
                let i = choose|i: int|
                    0 <= i < (aa + b).len() && !ns[#[trigger] (aa + b)[i] as int].next.marked
                        && ns[(aa + b)[i] as int].key == k;
                assert(false);
            }
        }
    }
    assert(l1.view() =~= l0.view().remove(k));
}

/// The first live key of a segment whose first node is live is that node's
/// key.
proof fn lemma_live_keys_first<V>(ns: Seq<Node<V>>, c: Seq<usize>)
    requires
        c.len() > 0,
        !ns[c[0] as int].next.marked,
    ensures
        List::live_keys(ns, c).len() > 0,
        List::live_keys(ns, c)[0] == ns[c[0] as int].key,
    decreases c.len(),
{
    if c.len() > 1 {
        let d = c.drop_last();
        assert(d[0] == c[0]);
        lemma_live_keys_first(ns, d);
        let lkd = List::live_keys(ns, d);
        let n = ns[c.last() as int];
        if n.next.marked {
            assert(List::live_keys(ns, c) == lkd);
        } else {
            assert(List::live_keys(ns, c) == lkd.push(n.key));
            assert(lkd.push(n.key)[0] == lkd[0]);
        }
    } else {
        assert(c.drop_last() =~= Seq::<usize>::empty());
        assert(List::live_keys(ns, Seq::<usize>::empty()) == Seq::<u64>::empty());
        assert(List::live_keys(ns, c) == Seq::<u64>::empty().push(ns[c[0] as int].key));
    }
}

/// Which find walks the list.
#[derive(Clone, Copy, PartialEq, Eq, Structural)]
enum FindVariant {
    Harris,
    HarrisMichael,
    HarrisHerlihyShavit,
}

impl Cursor {
    /// Inserts a new node carrying `key` and `value` between `prev` and
    /// `curr`, publishing it with one store to `prev`'s edge.  The cursor
    /// must sit at the key's position, as a find leaves it.
    #[verifier::rlimit(100)]
    pub fn insert<V>(&mut self, l: &mut List<V>, key: u64, value: V, cs: &Cs) -> (res: Result<
        (),
        (),
    >)
        requires
            old(l).wf(),
            old(self).valid(*old(l)),
            old(self).spec_pos() >= 1 ==> old(l).key_at(old(self).spec_pos()) < key,
            old(self).spec_pos() + 1 < old(l).chain_len() ==> old(l).key_at(old(self).spec_pos() + 1) > key,
        ensures
            res is Ok,
            final(l).wf(),
            final(l).view() == old(l).view().insert(key, value),
            old(l).no_marked() ==> final(l).no_marked(),
    {
        let ghost c = l.c();
        let ghost ns = l.ns();
        let ghost p = self.pos@;
        let n_idx = l.nodes.len();
        let mut node = Node::new(key, value);
        node.next = Edge { ptr: self.curr, marked: false };
        let e = l.nodes[self.prev].next;
        if e.ptr.same(&self.curr) && !e.marked {
            l.nodes.push(node);
            l.nodes[self.prev].next = Edge { ptr: Ptr::at(n_idx), marked: false };
            let ghost c1 = c.subrange(0, p + 1) + seq![n_idx] + c.subrange(
                p + 1,
                c.len() as int,
            );
            l.chain = Ghost(c1);
            proof {
                lemma_splice_in(*old(l), *l, p, n_idx, key);
                if old(l).no_marked() {
                    assert forall|i: int| 1 <= i < l.c().len() implies !l.ns()[
                        #[trigger] l.c()[i] as int].next.marked by {
                        if i <= p {
                            assert(l.c()[i] == c[i]);
                        } else if i == p + 1 {
                            assert(l.c()[i] == n_idx);
                        } else {
                            assert(l.c()[i] == c[i - 1]);
                        }
                    }
                }
            }
            Ok(())
        } else {
            proof {
                assert(false);
            }
            Err(())
        }
    }

    /// Removes the node under `curr`: one tag store logically deletes it,
    /// then a physical unlink is attempted, whose failure the next traversal
    /// would absorb.  The cursor keeps exposing the removed node's value.
    #[verifier::rlimit(100)]
    pub fn remove<V>(&mut self, l: &mut List<V>, cs: &mut Cs) -> (res: Result<(), ()>)
        requires
            old(l).wf(),
            old(self).valid(*old(l)),
            !old(self).spec_curr().spec_null(),
            !old(l).marked_at(old(self).spec_pos() + 1),
        ensures
            res is Ok,
            final(l).wf(),
            final(l).view() == old(l).view().remove(old(l).key_at(old(self).spec_pos() + 1)),
            final(self).output_of(*final(l)) == Some(old(l).value_at(old(self).spec_pos() + 1)),
            old(l).no_marked() ==> final(l).no_marked(),
    {
        let ghost c = l.c();
        let ghost ns = l.ns();
        let ghost p = self.pos@;
        let ci = self.curr.index();
        let e = l.nodes[ci].next;
        self.next = e.ptr;
        self.next_marked = e.marked;
        // the tag compare-and-exchange: expected is the loaded edge, untagged
        if !e.marked {
            l.nodes[ci].next = Edge { ptr: e.ptr, marked: true };
            proof {
                lemma_mark_at(*old(l), *l, p + 1);
                assert(self.valid(*l));
            }
            let ghost l_marked = *l;
            let r = self.try_unlink_curr(l, cs);
            proof {
                assert(l.view() == l_marked.view());
                assert(l.ns()[ci as int].value == ns[ci as int].value);
                if old(l).no_marked() {
                    assert forall|i: int| 1 <= i < l.c().len() implies !l.ns()[
                        #[trigger] l.c()[i] as int].next.marked by {
                        let c1 = l.c();
                        if i <= p {
                            assert(c1[i] == c[i]);
                            assert(c[i] != c[p + 1]);
                        } else {
                            assert(c1[i] == c[i + 1]);
                            assert(c[i + 1] != c[p + 1]);
                        }
                    }
                }
            }
            let _ = r;
            Ok(())
        } else {
            proof {
                assert(false);
            }
            Err(())
        }
    }
}

impl<V> List<V> {
    /// The head's successor, if any, is live.  A deferred removal can leave
    /// the front logically deleted; until a traversal completes that unlink,
    /// a bare `pop` would spin waiting for the helper.
    pub closed spec fn front_live(self) -> bool {
        self.c().len() > 1 ==> !self.ns()[self.c()[1] as int].next.marked
    }

    /// One find, from a freshly initialized cursor.  For the two helping
    /// variants the cursor is left at the key's position.
    fn get_with(&mut self, key: u64, variant: FindVariant, cursor: &mut Cursor, cs: &mut Cs) -> (found: bool)
        requires
            old(self).wf(),
        ensures
            final(self).wf(),
            final(self).head == old(self).head,
            final(self).view() == old(self).view(),
            final(self).key_seq() == old(self).key_seq(),
            found == old(self).view().contains_key(key),
            found ==> final(cursor).output_of(*final(self)) == Some(old(self).view()[key]),
            variant != FindVariant::HarrisHerlihyShavit ==> {
                &&& final(cursor).valid(*final(self))
                &&& final(cursor).spec_pos() >= 1 ==> final(self).ns()[final(self).c()[final(cursor).spec_pos()] as int].key < key
                &&& found ==> !final(cursor).curr.spec_null() && final(self).ns()[final(self).c()[final(cursor).spec_pos() + 1] as int].key == key
                    && !final(self).ns()[final(self).c()[final(cursor).spec_pos() + 1] as int].next.marked
                &&& !found ==> (final(cursor).spec_pos() + 1 == final(self).c().len()
                    || final(self).ns()[final(self).c()[final(cursor).spec_pos() + 1] as int].key > key)
            },
            final(cs).log().len() == old(cs).log().len() + (old(self).chain_len() - final(self).chain_len()),
            variant == FindVariant::Harris ==> unlinked_window(*old(self), *final(self), *old(cs), *final(cs)),
            variant == FindVariant::HarrisMichael ==> retired_from_marked(*old(self), *old(cs), *final(cs)),
            variant == FindVariant::HarrisMichael ==> forall|i: int|
                1 <= i <= final(cursor).spec_pos() ==> !final(self).marked_at(i) && final(self).key_at(i) < key,
            variant == FindVariant::HarrisHerlihyShavit ==> *final(self) == *old(self)
                && final(cs).log() == old(cs).log(),
    {
        cursor.initialize(self);
        let r = match variant {
            FindVariant::Harris => cursor.find_harris(self, key, cs),
            FindVariant::HarrisMichael => cursor.find_harris_michael(self, key, cs),
            FindVariant::HarrisHerlihyShavit => cursor.find_harris_herlihy_shavit(self, key),
        };
        match r {
            Ok(found) => found,
            Err(()) => {
                proof {
                    assert(false);
                }
                false
            },
        }
    }

    /// One insert attempt after a find; within a thread the publish cannot
    /// lose a race, so no retry is needed.
    fn insert_with(&mut self, key: u64, value: V, variant: FindVariant, cursor: &mut Cursor, cs: &mut Cs) -> (r: bool)
        requires
            old(self).wf(),
            variant != FindVariant::HarrisHerlihyShavit,
        ensures
            final(self).wf(),
            r == !old(self).view().contains_key(key),
            r ==> final(self).view() == old(self).view().insert(key, value),
            !r ==> final(self).view() == old(self).view(),
            variant == FindVariant::Harris && old(self).no_marked() ==> final(self).no_marked(),
    {
        let ghost l0 = *self;
        let found = self.get_with(key, variant, cursor, cs);
        proof {
            if variant == FindVariant::Harris && l0.no_marked() {
                lemma_window_no_marked(l0, *self);
            }
        }
        if found {
            return false;
        }
        match cursor.insert(self, key, value, cs) {
            Ok(()) => true,
            Err(_) => {
                proof {
                    assert(false);
                }
                false
            },
        }
    }

    /// One remove attempt after a find: logical deletion, then the physical
    /// unlink.
    fn remove_with(&mut self, key: u64, variant: FindVariant, cursor: &mut Cursor, cs: &mut Cs) -> (r: bool)
        requires
            old(self).wf(),
            variant != FindVariant::HarrisHerlihyShavit,
        ensures
            final(self).wf(),
            r == old(self).view().contains_key(key),
            final(self).view() == old(self).view().remove(key),
            r ==> final(cursor).output_of(*final(self)) == Some(old(self).view()[key]),
            variant == FindVariant::Harris && old(self).no_marked() ==> final(self).no_marked(),
    {
        let ghost l0 = *self;
        let found = self.get_with(key, variant, cursor, cs);
        proof {
            if variant == FindVariant::Harris && l0.no_marked() {
                lemma_window_no_marked(l0, *self);
            }
        }
        if !found {
            proof {
                assert(old(self).view().remove(key) =~= old(self).view());
            }
            return false;
        }
        proof {
            assert(self.key_at(cursor.spec_pos() + 1) == key);
            assert(self.value_at(cursor.spec_pos() + 1) == old(self).view()[key]) by {
                self.lemma_view_char();
            }
        }
        match cursor.remove(self, cs) {
            Ok(()) => true,
            Err(()) => {
                proof {
                    assert(false);
                }
                false
            },
        }
    }

    /// Removes the first element, which must not be awaiting a deferred
    /// unlink.
    fn pop_front(&mut self, cursor: &mut Cursor, cs: &mut Cs) -> (r: bool)
        requires
            old(self).wf(),
            old(self).front_live(),
        ensures
            final(self).wf(),
            r == (old(self).key_seq().len() > 0),
            !r ==> final(self).view() == old(self).view() && old(self).view() == Map::<u64, V>::empty(),
            r ==> final(self).view() == old(self).view().remove(old(self).key_seq()[0]),
            r ==> final(cursor).output_of(*final(self)) == Some(old(self).view()[old(self).key_seq()[0]]),
            old(self).no_marked() ==> final(self).no_marked(),
    {
        cursor.initialize(self);
        if cursor.curr.is_null() {
            proof {
                assert(self.c().skip(1) =~= Seq::<usize>::empty());
            }
            return false;
        }
        proof {
            self.lemma_view_char();
            lemma_live_keys_first(self.ns(), self.c().skip(1));
            assert(self.c().skip(1)[0] == self.c()[1]);
            assert(self.key_at(1) == self.key_seq()[0]);
            assert(self.value_at(1) == self.view()[self.key_seq()[0]]);
        }
        match cursor.remove(self, cs) {
            Ok(()) => true,
            Err(()) => {
                proof {
                    assert(false);
                }
                false
            },
        }
    }

    /// Search with the Harris find, which unlinks whole runs of logically
    /// deleted nodes met on the way: either the traversal touched nothing,
    /// or one contiguous run of logically deleted nodes left the chain with
    /// a single store and was handed, in order, to the reclamation domain.
    pub fn harris_get(&mut self, key: &u64, cursor: &mut Cursor, cs: &mut Cs) -> (found: bool)
        requires
            old(self).wf(),
        ensures
            final(self).wf(),
            final(self).view() == old(self).view(),
            found == old(self).view().contains_key(*key),
            found ==> final(cursor).output_of(*final(self)) == Some(old(self).view()[*key]),
            unlinked_window(*old(self), *final(self), *old(cs), *final(cs)),
    {
        self.get_with(*key, FindVariant::Harris, cursor, cs)
    }

    /// Insert through the Harris find.
    pub fn harris_insert(&mut self, key: u64, value: V, cursor: &mut Cursor, cs: &mut Cs) -> (r: bool)
        requires
            old(self).wf(),
        ensures
            final(self).wf(),
            r == !old(self).view().contains_key(key),
            r ==> final(self).view() == old(self).view().insert(key, value),
            !r ==> final(self).view() == old(self).view(),
            old(self).no_marked() ==> final(self).no_marked(),
    {
        self.insert_with(key, value, FindVariant::Harris, cursor, cs)
    }

    /// Remove through the Harris find.
    pub fn harris_remove(&mut self, key: &u64, cursor: &mut Cursor, cs: &mut Cs) -> (r: bool)
        requires
            old(self).wf(),
        ensures
            final(self).wf(),
            r == old(self).view().contains_key(*key),
            final(self).view() == old(self).view().remove(*key),
            r ==> final(cursor).output_of(*final(self)) == Some(old(self).view()[*key]),
            old(self).no_marked() ==> final(self).no_marked(),
    {
        self.remove_with(*key, FindVariant::Harris, cursor, cs)
    }

    /// Logically delete `key` and leave the physical unlink to a later
    /// traversal, as happens when an unlink loses its race under contention.
    pub fn harris_remove_deferred(&mut self, key: &u64, cursor: &mut Cursor, cs: &mut Cs) -> (r: bool)
        requires
            old(self).wf(),
        ensures
            final(self).wf(),
            r == old(self).view().contains_key(*key),
            final(self).view() == old(self).view().remove(*key),
            r ==> final(cursor).output_of(*final(self)) == Some(old(self).view()[*key]),
    {
        let found = self.get_with(*key, FindVariant::Harris, cursor, cs);
        if !found {
            proof {
                assert(old(self).view().remove(*key) =~= old(self).view());
            }
            return false;
        }
        let ghost l1 = *self;
        let ghost p = cursor.pos@;
        let ci = cursor.curr.index();
        let e = self.nodes[ci].next;
        cursor.next = e.ptr;
        cursor.next_marked = e.marked;
        if !e.marked {
            self.nodes[ci].next = Edge { ptr: e.ptr, marked: true };
            proof {
                lemma_mark_at(l1, *self, p + 1);
            }
            true
        } else {
            proof {
                assert(false);
            }
            false
        }
    }

    /// Search with the Harris-Michael find, which unlinks one logically
    /// deleted node at a time: at the end no node whose key does not exceed
    /// the searched key is still logically deleted, and every node the
    /// reclamation log gained sat in a slot that was logically deleted at
    /// entry.
    pub fn harris_michael_get(&mut self, key: &u64, cursor: &mut Cursor, cs: &mut Cs) -> (found: bool)
        requires
            old(self).wf(),
        ensures
            final(self).wf(),
            final(self).view() == old(self).view(),
            found == old(self).view().contains_key(*key),
            found ==> final(cursor).output_of(*final(self)) == Some(old(self).view()[*key]),
            forall|i: int|
                1 <= i < final(self).chain_len() && final(self).key_at(i) <= *key
                    ==> !final(self).marked_at(i),
            retired_from_marked(*old(self), *old(cs), *final(cs)),
            final(cs).log().len() == old(cs).log().len() + (old(self).chain_len() - final(self).chain_len()),
    {
        let found = self.get_with(*key, FindVariant::HarrisMichael, cursor, cs);
        proof {
            // positions past the cursor hold keys above the searched one
            let p = cursor.spec_pos();
            assert forall|i: int|
                1 <= i < self.chain_len() && self.key_at(i) <= *key implies !self.marked_at(
                i,
            ) by {
                if i > p {
                    if found {
                        assert(self.ns()[self.c()[p + 1] as int].key == *key);
                        if i > p + 1 {
                            assert(self.ns()[self.c()[i] as int].key > self.ns()[self.c()[
                                p + 1] as int].key);
                        }
                    } else {
                        assert(p + 1 == self.c().len() || self.ns()[self.c()[
                            p + 1] as int].key > *key);
                        if i > p + 1 {
                            assert(self.ns()[self.c()[i] as int].key > self.ns()[self.c()[
                                p + 1] as int].key);
                        }
                    }
                }
            }
        }
        found
    }

    /// Insert through the Harris-Michael find.
    pub fn harris_michael_insert(&mut self, key: u64, value: V, cursor: &mut Cursor, cs: &mut Cs) -> (r: bool)
        requires
            old(self).wf(),
        ensures
            final(self).wf(),
            r == !old(self).view().contains_key(key),
            r ==> final(self).view() == old(self).view().insert(key, value),
            !r ==> final(self).view() == old(self).view(),
    {
        self.insert_with(key, value, FindVariant::HarrisMichael, cursor, cs)
    }

    /// Remove through the Harris-Michael find.
    pub fn harris_michael_remove(&mut self, key: &u64, cursor: &mut Cursor, cs: &mut Cs) -> (r: bool)
        requires
            old(self).wf(),
        ensures
            final(self).wf(),
            r == old(self).view().contains_key(*key),
            final(self).view() == old(self).view().remove(*key),
            r ==> final(cursor).output_of(*final(self)) == Some(old(self).view()[*key]),
    {
        self.remove_with(*key, FindVariant::HarrisMichael, cursor, cs)
    }

    /// Wait-free search: the Harris-Herlihy-Shavit find, which never helps
    /// and so leaves the list and the reclamation log untouched.
    pub fn harris_herlihy_shavit_get(&mut self, key: &u64, cursor: &mut Cursor, cs: &mut Cs) -> (found: bool)
        requires
            old(self).wf(),
        ensures
            final(self).wf(),
            *final(self) == *old(self),
            final(cs).log() == old(cs).log(),
            found == old(self).view().contains_key(*key),
            found ==> final(cursor).output_of(*final(self)) == Some(old(self).view()[*key]),
    {
        self.get_with(*key, FindVariant::HarrisHerlihyShavit, cursor, cs)
    }
}

/// The Harris list: batched cleanup on every traversal.
pub struct HList<V> {
    inner: List<V>,
}

/// The Harris-Michael list: one unlink per deleted node met.
pub struct HMList<V> {
    inner: List<V>,
}

/// The Harris list with the wait-free Harris-Herlihy-Shavit lookup.  Every
/// removal through this interface completes its physical unlink, so its
/// invariant carries that no node is left logically deleted, and `pop`
/// needs nothing beyond it.
pub struct HHSList<V> {
    inner: List<V>,
}

impl<V> OutputHolder<V> for Cursor {
    fn default() -> Self {
        Cursor::new()
    }
}

impl<V: Default> ConcurrentMap<V> for HList<V> {
    type Output = Cursor;

    closed spec fn inv(&self) -> bool {
        self.inner.wf()
    }

    closed spec fn view(&self) -> Map<u64, V> {
        self.inner.view()
    }

    closed spec fn output_of(&self, output: &Cursor) -> Option<V> {
        output.output_of(self.inner)
    }

    fn new() -> Self {
        HList { inner: List::new() }
    }

    fn get(&mut self, key: &u64, output: &mut Cursor, cs: &mut Cs) -> bool {
        self.inner.harris_get(key, output, cs)
    }

    fn insert(&mut self, key: u64, value: V, output: &mut Cursor, cs: &mut Cs) -> bool {
        self.inner.harris_insert(key, value, output, cs)
    }

    fn remove(&mut self, key: &u64, output: &mut Cursor, cs: &mut Cs) -> bool {
        self.inner.harris_remove(key, output, cs)
    }

    fn output<'a>(&'a self, output: &'a Cursor) -> &'a V {
        &self.inner.nodes[output.curr.index()].value
    }
}

impl<V: Default> HMList<V> {
    /// For optimistic search: the wait-free lookup over this list.
    pub fn get_harris_herlihy_shavit(&mut self, key: &u64, cursor: &mut Cursor, cs: &mut Cs) -> (found: bool)
        requires
            old(self).inv(),
        ensures
            final(self).inv(),
            final(self).view() == old(self).view(),
            found == old(self).view().contains_key(*key),
            found ==> final(self).output_of(final(cursor)) == Some(old(self).view()[*key]),
    {
        self.inner.harris_herlihy_shavit_get(key, cursor, cs)
    }
}

impl<V: Default> ConcurrentMap<V> for HMList<V> {
    type Output = Cursor;

    closed spec fn inv(&self) -> bool {
        self.inner.wf()
    }

    closed spec fn view(&self) -> Map<u64, V> {
        self.inner.view()
    }

    closed spec fn output_of(&self, output: &Cursor) -> Option<V> {
        output.output_of(self.inner)
    }

    fn new() -> Self {
        HMList { inner: List::new() }
    }

    fn get(&mut self, key: &u64, output: &mut Cursor, cs: &mut Cs) -> bool {
        self.inner.harris_michael_get(key, output, cs)
    }

    fn insert(&mut self, key: u64, value: V, output: &mut Cursor, cs: &mut Cs) -> bool {
        self.inner.harris_michael_insert(key, value, output, cs)
    }

    fn remove(&mut self, key: &u64, output: &mut Cursor, cs: &mut Cs) -> bool {
        self.inner.harris_michael_remove(key, output, cs)
    }

    fn output<'a>(&'a self, output: &'a Cursor) -> &'a V {
        &self.inner.nodes[output.curr.index()].value
    }
}

impl<V: Default> HHSList<V> {
    /// Pop the first element efficiently.
    pub fn pop(&mut self, cursor: &mut Cursor, cs: &mut Cs) -> (r: bool)
        requires
            old(self).inv(),
        ensures
            final(self).inv(),
            r == (old(self).key_seq().len() > 0),
            !r ==> final(self).view() == old(self).view() && old(self).view() == Map::<u64, V>::empty(),
            r ==> final(self).view() == old(self).view().remove(old(self).key_seq()[0]),
            r ==> final(self).output_of(final(cursor)) == Some(old(self).view()[old(self).key_seq()[0]]),
    {
        proof {
            // through this list's interface every removal completes its
            // unlink, so no node is ever left logically deleted
            assert(self.inner.front_live());
        }
        self.inner.pop_front(cursor, cs)
    }

    /// The live keys in chain order.
    pub closed spec fn key_seq(&self) -> Seq<u64> {
        self.inner.key_seq()
    }
}

/// Monotone keys, through the wrapper: the live keys of the list strictly
/// increase in chain order, and they are exactly the keys of the view; in
/// particular a `pop` removes the least key of the map.
pub proof fn lemma_hhs_monotone_keys<V: Default>(l: &HHSList<V>)
    requires
        l.inv(),
    ensures
        forall|t1: int, t2: int|
            0 <= t1 < t2 < l.key_seq().len() ==> l.key_seq()[t1] < l.key_seq()[t2],
        forall|k: u64| l.view().contains_key(k) <==> l.key_seq().contains(k),
{
    lemma_monotone_keys(&l.inner);
}

impl<V: Default> ConcurrentMap<V> for HHSList<V> {
    type Output = Cursor;

    closed spec fn inv(&self) -> bool {
        self.inner.wf() && self.inner.no_marked()
    }

    closed spec fn view(&self) -> Map<u64, V> {
        self.inner.view()
    }

    closed spec fn output_of(&self, output: &Cursor) -> Option<V> {
        output.output_of(self.inner)
    }

    fn new() -> Self {
        HHSList { inner: List::new() }
    }

    fn get(&mut self, key: &u64, output: &mut Cursor, cs: &mut Cs) -> bool {
        self.inner.harris_herlihy_shavit_get(key, output, cs)
    }

    fn insert(&mut self, key: u64, value: V, output: &mut Cursor, cs: &mut Cs) -> bool {
        self.inner.harris_insert(key, value, output, cs)
    }

    fn remove(&mut self, key: &u64, output: &mut Cursor, cs: &mut Cs) -> bool {
        self.inner.harris_remove(key, output, cs)
    }

    fn output<'a>(&'a self, output: &'a Cursor) -> &'a V {
        &self.inner.nodes[output.curr.index()].value
    }
}

/// The live keys of a sorted chain segment are sorted, and each is the key
/// of some live node of the segment.
proof fn lemma_live_keys_sorted<V>(ns: Seq<Node<V>>, c: Seq<usize>)
    requires
        forall|i: int, j: int|
            0 <= i < j < c.len() ==> ns[c[i] as int].key < ns[c[j] as int].key,
    ensures
        forall|t1: int, t2: int|
            0 <= t1 < t2 < List::live_keys(ns, c).len() ==> List::live_keys(ns, c)[t1]
                < List::live_keys(ns, c)[t2],
        forall|t: int|
            0 <= t < List::live_keys(ns, c).len() ==> exists|i: int|
                0 <= i < c.len() && !ns[#[trigger] c[i] as int].next.marked && ns[c[
                    i
                ] as int].key == #[trigger] List::live_keys(ns, c)[t],
    decreases c.len(),
{
    if c.len() > 0 {
        let d = c.drop_last();
        assert(forall|i: int| 0 <= i < d.len() ==> #[trigger] d[i] == c[i]);
        lemma_live_keys_sorted(ns, d);
        let lk = List::live_keys(ns, c);
        let lkd = List::live_keys(ns, d);
        let n = ns[c.last() as int];
        assert forall|t: int| 0 <= t < lk.len() implies exists|i: int|
            0 <= i < c.len() && !ns[#[trigger] c[i] as int].next.marked && ns[c[i] as int].key
                == #[trigger] lk[t] by {
            if t < lkd.len() {
                let i = choose|i: int|
                    0 <= i < d.len() && !ns[#[trigger] d[i] as int].next.marked && ns[d[
                        i
                    ] as int].key == lkd[t];
                assert(0 <= i < c.len() && !ns[c[i] as int].next.marked && ns[c[i] as int].key
                    == lk[t]);
            } else {
                let w = c.len() - 1;
                assert(0 <= w < c.len() && !ns[c[w] as int].next.marked && ns[c[w] as int].key
                    == lk[t]);
            }
        }
        assert forall|t1: int, t2: int| 0 <= t1 < t2 < lk.len() implies lk[t1] < lk[t2] by {
            if !n.next.marked && t2 == lk.len() - 1 {
                let i = choose|i: int|
                    0 <= i < d.len() && !ns[#[trigger] d[i] as int].next.marked && ns[d[
                        i
                    ] as int].key == lkd[t1];
                assert(ns[c[i] as int].key < n.key);
            }
        }
    }
}

/// Monotone keys: along the chain from the head, the keys of the live nodes
/// strictly increase, so any pair of adjacent live nodes observed from the
/// head is ordered; and the live keys are exactly the keys of the view.
pub proof fn lemma_monotone_keys<V>(l: &List<V>)
    requires
        l.wf(),
    ensures
        forall|t1: int, t2: int|
            0 <= t1 < t2 < l.key_seq().len() ==> l.key_seq()[t1] < l.key_seq()[t2],
        forall|k: u64| l.view().contains_key(k) <==> l.key_seq().contains(k),
{
    let c = l.c().skip(1);
    let ns = l.ns();
    assert(forall|i: int| 0 <= i < c.len() ==> #[trigger] c[i] == l.c()[i + 1]);
    lemma_live_keys_sorted(ns, c);
    l.lemma_view_char();
    assert forall|k: u64| true implies (l.view().contains_key(k) <==> l.key_seq().contains(
        k,
    )) by {
        if l.view().contains_key(k) {
            let i = choose|i: int|
                1 <= i < l.c().len() && !ns[#[trigger] l.c()[i] as int].next.marked && ns[l.c()[
                    i
                ] as int].key == k;
            lemma_live_key_present(ns, c, i - 1);
        }
        if l.key_seq().contains(k) {
            let t = choose|t: int| 0 <= t < l.key_seq().len() && l.key_seq()[t] == k;
            let i = choose|i: int|
                0 <= i < c.len() && !ns[#[trigger] c[i] as int].next.marked && ns[c[
                    i
                ] as int].key == l.key_seq()[t];
            assert(1 <= i + 1 < l.c().len() && !ns[l.c()[i + 1] as int].next.marked && ns[l.c()[
                i + 1
            ] as int].key == k);
        }
    }
}

/// A live node's key occurs among the segment's live keys.
proof fn lemma_live_key_present<V>(ns: Seq<Node<V>>, c: Seq<usize>, i: int)
    requires
        0 <= i < c.len(),
        !ns[c[i] as int].next.marked,
    ensures
        List::live_keys(ns, c).contains(ns[c[i] as int].key),
    decreases c.len(),
{
    let d = c.drop_last();
    let lk = List::live_keys(ns, c);
    if i == c.len() - 1 {
        assert(lk.last() == ns[c[i] as int].key);
        assert(lk.contains(ns[c[i] as int].key));
    } else {
        assert(d[i] == c[i]);
        lemma_live_key_present(ns, d, i);
        let t = choose|t: int|
            0 <= t < List::live_keys(ns, d).len() && List::live_keys(ns, d)[t] == ns[c[
                i
            ] as int].key;
        assert(lk[t] == ns[c[i] as int].key);
    }
}

/// Reachability and reclamation: a node handed to the reclamation domain by
/// an unlink is never again reachable from the head; it stays in the arena
/// until the whole list is dropped, so a cursor that still points at it can
/// still read it.
pub proof fn lemma_retired_unreachable<V>(l: &List<V>)
    requires
        l.wf(),
    ensures
        forall|p: int|
            0 <= p < l.chain_len() ==> !l.spec_retired().contains(#[trigger] l.chain_at(p)),
{
}

} // verus!
