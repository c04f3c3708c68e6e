//! The direct-ownership storage variant: conceptually, individually
//! allocated nodes joined by parent and child links into a cyclic graph,
//! with one heap-allocated sentinel shared by every absent link.  Such a
//! graph cannot be owned safely link-by-link, so here the nodes are an
//! arena of uniquely owned slots referenced only by non-owning indices —
//! the same representation as the core arena tree, which this type wraps;
//! the sentinel is the reserved index 0, and a reclaimed slot is reused
//! only once nothing points at it, which the free-list discipline
//! guarantees.

use vstd::prelude::*;
use vstd::multiset::Multiset;
use crate::redblack::RedBlack;

verus! {

/// A red-black tree over individually owned nodes addressed by stable
/// handles, with one shared sentinel standing for every absent link.
pub struct PointerRedBlack {
    tree: crate::tree::RedBlack,
}

impl PointerRedBlack {
    /// The validator: true exactly when the root is black, no red node has a
    /// red child, and all paths carry equal black counts.  Always true for a
    /// well-formed tree.
    pub fn is_valid(&self) -> (r: bool)
        requires
            self.inv(),
        ensures
            r,
    {
        self.tree.is_valid()
    }
}

impl RedBlack for PointerRedBlack {
    closed spec fn inv(&self) -> bool {
        self.tree.wf()
    }

    closed spec fn keys(&self) -> Multiset<u64> {
        self.tree.key_multiset()
    }

    fn new() -> (t: Self) {
        PointerRedBlack { tree: crate::tree::RedBlack::new() }
    }

    fn insert(&mut self, key: u64) {
        self.tree.insert(key);
    }

    fn delete(&mut self, key: u64) -> (r: Option<u64>) {
        self.tree.delete(key)
    }

    fn search(&mut self, key: u64) -> (r: Option<u64>) {
        self.tree.search(key)
    }
}

} // verus!
