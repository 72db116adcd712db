//! The shared map protocol.
//!
//! Every structure in this library implements `ConcurrentMap`: an ordered map
//! from `u64` keys to values, operated on through a caller-owned, reusable
//! output holder, with a reclamation context passed to every operation.  The
//! trait's contracts state the map semantics once, over each structure's
//! abstract view:
//!
//! - `insert` returns true exactly when the key was absent, and then the view
//!   gains the pair; on a present key it returns false and the view is
//!   unchanged.
//! - `remove` returns true exactly when the key was present, and then the
//!   view loses the pair and the holder exposes the removed value; on an
//!   absent key it returns false and the view is unchanged.
//! - `get` never changes the view; it returns true exactly when the key is
//!   present, and then the holder exposes the mapped value.

use crate::smr::Cs;
use vstd::prelude::*;

verus! {

/// A caller-owned, reusable per-operation output holder.
pub trait OutputHolder<V>: Sized {
    /// A fresh holder, exposing nothing.
    fn default() -> Self;
}

/// An ordered map from `u64` keys to values of type `V`.
pub trait ConcurrentMap<V>: Sized {
    /// The per-operation holder this structure threads through its
    /// operations.
    type Output: OutputHolder<V>;

    /// The structure's internal well-formedness: every operation preserves
    /// it, and `new` establishes it.
    spec fn inv(&self) -> bool;

    /// The structure seen as a mathematical map.
    spec fn view(&self) -> Map<u64, V>;

    /// The value a holder exposes after a successful `get` or `remove`,
    /// if any.
    spec fn output_of(&self, output: &Self::Output) -> Option<V>;

    /// An empty map.
    fn new() -> (s: Self)
        ensures
            s.inv(),
            s.view() == Map::<u64, V>::empty(),
    ;

    /// A fresh output holder.
    fn empty_output() -> (output: Self::Output) {
        <Self::Output as OutputHolder<V>>::default()
    }

    /// Whether `key` is present; on true the holder exposes its value.
    fn get(&mut self, key: &u64, output: &mut Self::Output, cs: &mut Cs) -> (r: bool)
        requires
            old(self).inv(),
        ensures
            final(self).inv(),
            final(self).view() == old(self).view(),
            r == old(self).view().contains_key(*key),
            r ==> final(self).output_of(final(output)) == Some(old(self).view()[*key]),
    ;

    /// Insert `key -> value`; true exactly when the key was newly inserted.
    fn insert(&mut self, key: u64, value: V, output: &mut Self::Output, cs: &mut Cs) -> (r: bool)
        requires
            old(self).inv(),
        ensures
            final(self).inv(),
            r == !old(self).view().contains_key(key),
            r ==> final(self).view() == old(self).view().insert(key, value),
            !r ==> final(self).view() == old(self).view(),
    ;

    /// Remove `key`; true exactly when the key was present, and then the
    /// holder exposes the removed value.
    fn remove(&mut self, key: &u64, output: &mut Self::Output, cs: &mut Cs) -> (r: bool)
        requires
            old(self).inv(),
        ensures
            final(self).inv(),
            r == old(self).view().contains_key(*key),
            final(self).view() == old(self).view().remove(*key),
            r ==> final(self).output_of(final(output)) == Some(old(self).view()[*key]),
    ;

    /// Borrow the value a holder exposes.
    fn output<'a>(&'a self, output: &'a Self::Output) -> (v: &'a V)
        requires
            self.inv(),
            self.output_of(output) is Some,
        ensures
            self.output_of(output) == Some(*v),
    ;
}

/// Round-trip law: once `insert(k, v)` has succeeded, the view maps `k` to
/// `v`, `get(k)` must answer true with `v` by the `get` contract, and this
/// persists across operations on other keys, until `remove(k)`, after which
/// the view no longer contains `k`.
pub proof fn lemma_round_trip<V>(m: Map<u64, V>, k: u64, v: V, k2: u64, v2: V)
    requires
        k2 != k,
    ensures
        m.insert(k, v).contains_key(k) && m.insert(k, v)[k] == v,
        m.insert(k, v).insert(k2, v2)[k] == v,
        m.insert(k, v).remove(k2)[k] == v && m.insert(k, v).remove(k2).contains_key(k),
        !m.insert(k, v).remove(k).contains_key(k),
{
}

/// Idempotence law, read off the `insert` and `remove` contracts: inserting a
/// key already in the view returns false and leaves the view unchanged, and
/// removing an absent key returns false and leaves the view unchanged.  Here:
/// the view updates those contracts promise on the returned-false cases are
/// no updates at all.
pub proof fn lemma_idempotence<V>(m: Map<u64, V>, k: u64, v: V)
    ensures
        m.contains_key(k) ==> m.remove(k).insert(k, m[k]) == m,
        !m.contains_key(k) ==> m.remove(k) == m,
{
    if m.contains_key(k) {
        assert(m.remove(k).insert(k, m[k]) =~= m);
    } else {
        assert(m.remove(k) =~= m);
    }
}

} // verus!
