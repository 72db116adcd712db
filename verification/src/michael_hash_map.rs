//! The Michael hash map: a fixed array of buckets, each a Harris list with
//! the wait-free Harris-Herlihy-Shavit lookup.  A key is sharded to the
//! bucket at its residue; the map's view is the union of the buckets',
//! each key read from its own bucket.  There is no resizing and no
//! cross-bucket atomicity.

use crate::concurrent_map::{ConcurrentMap, OutputHolder};
use crate::list::{Cursor, HHSList};
use crate::smr::Cs;
use vstd::prelude::*;

verus! {

/// The per-operation holder: the bucket the operation went to, and the
/// bucket's own cursor.
pub struct HashMapCursor {
    cursor: Cursor,
    bucket: usize,
}

impl<V> OutputHolder<V> for HashMapCursor {
    fn default() -> Self {
        HashMapCursor { cursor: <Cursor as OutputHolder<V>>::default(), bucket: 0 }
    }
}

/// The bucket array.
pub struct HashMap<V> {
    buckets: Vec<HHSList<V>>,
}

impl<V: Default> HashMap<V> {
    /// How many buckets the map holds.
    pub closed spec fn bucket_count(self) -> nat {
        self.buckets@.len()
    }

    /// The bucket at an index.
    pub closed spec fn spec_bucket(self, i: int) -> HHSList<V> {
        self.buckets@[i]
    }

    /// The bucket a key is sharded to.
    pub closed spec fn bucket_of(self, k: u64) -> int {
        (k as int) % (self.buckets@.len() as int)
    }

    /// Well-formedness: at least one bucket, each well formed.
    pub closed spec fn wf(self) -> bool {
        &&& self.buckets@.len() >= 1
        &&& forall|i: int| 0 <= i < self.buckets@.len() ==> self.buckets@[i].inv()
    }

    /// The map's view: each key is looked up in its own bucket.
    pub closed spec fn view(self) -> Map<u64, V> {
        Map::new(
            |k: u64| self.buckets@[self.bucket_of(k)].view().contains_key(k),
            |k: u64| self.buckets@[self.bucket_of(k)].view()[k],
        )
    }

    /// A map with `n` buckets.
    pub fn with_capacity(n: usize) -> (m: Self)
        requires
            n >= 1,
        ensures
            m.wf(),
            m.bucket_count() == n as nat,
            m.view() == Map::<u64, V>::empty(),
    {
        let mut buckets: Vec<HHSList<V>> = Vec::new();
        let mut i: usize = 0;
        while i < n
            invariant
                i == buckets@.len(),
                i <= n,
                forall|j: int|
                    0 <= j < i ==> (#[trigger] buckets@[j]).inv() && buckets@[j].view()
                        == Map::<u64, V>::empty(),
            decreases n - i,
        {
            buckets.push(HHSList::new());
            i = i + 1;
        }
        let m = HashMap { buckets };
        proof {
            assert(m.view() =~= Map::<u64, V>::empty());
        }
        m
    }

    /// The key's residue: the hash is the sharding function, whose exact
    /// choice is an external collaborator's; here a key shards to itself.
    fn hash(k: &u64) -> (h: u64)
        ensures
            h == *k,
    {
        *k
    }

    /// Borrow the bucket at an index, modulo the bucket count.
    pub fn get_bucket(&self, index: usize) -> (b: &HHSList<V>)
        requires
            self.wf(),
        ensures
            *b == self.spec_bucket(index as int % (self.bucket_count() as int)),
    {
        &self.buckets[index % self.buckets.len()]
    }

    /// Whether the key is present in its bucket.
    pub fn get(&mut self, k: &u64, out: &mut HashMapCursor, cs: &mut Cs) -> (r: bool)
        requires
            old(self).wf(),
        ensures
            final(self).wf(),
            final(self).view() == old(self).view(),
            r == old(self).view().contains_key(*k),
            r ==> final(self).output_of(final(out)) == Some(old(self).view()[*k]),
    {
        let h = Self::hash(k);
        let n = self.buckets.len();
        let i = (h % (n as u64)) as usize;
        proof {
            assert((h % (n as u64)) < (n as u64)) by (nonlinear_arith)
                requires n >= 1;
        }
        let b = &mut self.buckets[i];
        let r = b.get(k, &mut out.cursor, cs);
        out.bucket = i;
        proof {
            assert(final(self).view() =~= old(self).view());
        }
        r
    }

    /// Insert into the key's bucket.
    pub fn insert(&mut self, k: u64, v: V, out: &mut HashMapCursor, cs: &mut Cs) -> (r: bool)
        requires
            old(self).wf(),
        ensures
            final(self).wf(),
            r == !old(self).view().contains_key(k),
            r ==> final(self).view() == old(self).view().insert(k, v),
            !r ==> final(self).view() == old(self).view(),
    {
        let h = Self::hash(&k);
        let n = self.buckets.len();
        let i = (h % (n as u64)) as usize;
        proof {
            assert((h % (n as u64)) < (n as u64)) by (nonlinear_arith)
                requires n >= 1;
        }
        let b = &mut self.buckets[i];
        let r = b.insert(k, v, &mut out.cursor, cs);
        out.bucket = i;
        proof {
            if r {
                assert(final(self).view() =~= old(self).view().insert(k, v));
            } else {
                assert(final(self).view() =~= old(self).view());
            }
        }
        r
    }

    /// Remove from the key's bucket.
    pub fn remove(&mut self, k: &u64, out: &mut HashMapCursor, cs: &mut Cs) -> (r: bool)
        requires
            old(self).wf(),
        ensures
            final(self).wf(),
            r == old(self).view().contains_key(*k),
            final(self).view() == old(self).view().remove(*k),
            r ==> final(self).output_of(final(out)) == Some(old(self).view()[*k]),
    {
        let h = Self::hash(k);
        let n = self.buckets.len();
        let i = (h % (n as u64)) as usize;
        proof {
            assert((h % (n as u64)) < (n as u64)) by (nonlinear_arith)
                requires n >= 1;
        }
        let b = &mut self.buckets[i];
        let r = b.remove(k, &mut out.cursor, cs);
        out.bucket = i;
        proof {
            assert(final(self).view() =~= old(self).view().remove(*k));
        }
        r
    }

    /// The value a holder exposes, if any.
    pub closed spec fn output_of(self, out: &HashMapCursor) -> Option<V> {
        if out.bucket < self.buckets@.len() {
            self.buckets@[out.bucket as int].output_of(&out.cursor)
        } else {
            None
        }
    }
}

impl<V: Default> ConcurrentMap<V> for HashMap<V> {
    type Output = HashMapCursor;

    closed spec fn inv(&self) -> bool {
        self.wf()
    }

    closed spec fn view(&self) -> Map<u64, V> {
        HashMap::view(*self)
    }

    closed spec fn output_of(&self, output: &HashMapCursor) -> Option<V> {
        HashMap::output_of(*self, output)
    }

    fn new() -> Self {
        Self::with_capacity(30000)
    }

    fn get(&mut self, key: &u64, output: &mut HashMapCursor, cs: &mut Cs) -> bool {
        HashMap::get(self, key, output, cs)
    }

    fn insert(&mut self, key: u64, value: V, output: &mut HashMapCursor, cs: &mut Cs) -> bool {
        HashMap::insert(self, key, value, output, cs)
    }

    fn remove(&mut self, key: &u64, output: &mut HashMapCursor, cs: &mut Cs) -> bool {
        HashMap::remove(self, key, output, cs)
    }

    fn output<'a>(&'a self, output: &'a HashMapCursor) -> &'a V {
        self.buckets[output.bucket].output(&output.cursor)
    }
}

} // verus!
