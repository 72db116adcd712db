//! Lock-free-style ordered maps over a modeled reclamation substrate.
//!
//! The library implements the single-thread semantics of several concurrent
//! ordered-map algorithms — the Harris, Harris–Michael and
//! Harris–Herlihy–Shavit linked lists, a Michael-style hash map of list
//! buckets, a Natarajan–Mittal external binary search tree, and a Bonsai
//! weight-balanced tree — over an explicit node arena.  Shared pointers
//! become arena indices, the low tag bits of a pointer become explicit mark,
//! flag and tag fields on an edge, and retirement into a reclamation domain
//! becomes a recorded set of unlinked nodes.  Every operation keeps the exact
//! decision structure of the lock-free algorithm: logical deletion before
//! physical unlink, batched chain unlinking, edge flagging with sibling
//! tagging, and copy-on-write subtree rebuilding committed at the root.
//!
//! Each structure carries a mathematical view (a `Map<u64, V>`), and every
//! operation's contract pins its effect on that view.

pub mod bonsai_tree;
pub mod concurrent_map;
pub mod list;
pub mod michael_hash_map;
pub mod natarajan_mittal_tree;
pub mod smr;
