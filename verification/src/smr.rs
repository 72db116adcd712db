//! The reclamation domain.
//!
//! A `Cs` is a per-thread reclamation context.  A structure that physically
//! unlinks a node hands its arena index to the context; the context records
//! the retirement.  Nodes stay in their arena until the whole structure is
//! dropped, so a retired node is never freed while any cursor could still
//! observe it; what the contracts guarantee is that a retired node is no
//! longer reachable from its structure's root.

use vstd::prelude::*;

verus! {

/// A per-thread reclamation context.  It records every node retired through
/// it, in retirement order.
pub struct Cs {
    retired: Vec<usize>,
}

impl Cs {
    /// The indices retired through this context, in order.
    pub closed spec fn log(self) -> Seq<usize> {
        self.retired@
    }

    /// A fresh context with nothing retired.
    pub fn new() -> (cs: Self)
        ensures
            cs.log() == Seq::<usize>::empty(),
    {
        Cs { retired: Vec::new() }
    }

    /// Record that a structure unlinked the node at `idx` and handed it to
    /// this domain for deferred reclamation.
    pub fn retire(&mut self, idx: usize)
        ensures
            final(self).log() == old(self).log().push(idx),
    {
        self.retired.push(idx);
    }

    /// How many nodes have been retired through this context.
    pub fn retired_count(&self) -> (n: usize)
        ensures
            n == self.log().len(),
    {
        self.retired.len()
    }
}

} // verus!
