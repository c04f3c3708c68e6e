//! The slot-arena storage variant: nodes live in a growable slot collection,
//! a handle is a stable slot index, and deleted slots return to a free list
//! for in-place reuse.  This is exactly the memory model of the core arena
//! tree, which this type wraps.

use vstd::prelude::*;
use vstd::multiset::Multiset;
use crate::redblack::RedBlack;
use crate::shape::{Shape, rotate_at};

verus! {

/// A red-black tree whose nodes live in an indexed slot arena with a free
/// list; the sentinel occupies the fixed slot 0 for the tree's lifetime.
pub struct SlabRedBlack {
    tree: crate::tree::RedBlack,
}

impl SlabRedBlack {
    /// The validator: true exactly when the root is black, no red node has a
    /// red child, and all paths carry equal black counts.  Always true for a
    /// well-formed tree.
    pub fn is_valid(&self) -> (r: bool)
        requires
            self.inv(),
        ensures
            r,
    {
        self.tree.is_valid()
    }

    /// Structural well-formedness without the color conditions: what the
    /// rotation primitive preserves.
    pub closed spec fn links_ok(&self) -> bool {
        self.tree.link_inv()
    }

    /// The ghost shape of the stored tree.
    pub closed spec fn sh(&self) -> Shape {
        self.tree.sh()
    }

    /// Number of arena slots, the sentinel included.
    pub closed spec fn slot_count(&self) -> nat {
        self.tree.slot_count()
    }

    /// One rotation at the node with handle `x`; see the arena tree's
    /// rotation for the direction convention.
    pub fn rotate(&mut self, x: usize, dir: usize)
        requires
            old(self).links_ok(),
            dir < 2,
            old(self).sh().idxs().contains(x as int),
            old(self).sh().subtree_at(x as int).child(1 - dir as int) is Node,
        ensures
            final(self).links_ok(),
            final(self).sh() == rotate_at(old(self).sh(), x as int, dir as int),
            final(self).keys() == old(self).keys(),
    {
        self.tree.rotate(x, dir);
    }

    /// The sentinel handle.
    pub fn sentinel(&self) -> (s: usize)
        requires
            self.links_ok(),
        ensures
            s == 0,
    {
        self.tree.sentinel()
    }

    /// The key stored at handle `i`.
    pub fn node_key(&self, i: usize) -> (k: u64)
        requires
            self.links_ok(),
            i < self.slot_count(),
    {
        self.tree.node_key(i)
    }

    /// The parent handle of the node at handle `i`.
    pub fn node_parent(&self, i: usize) -> (p: usize)
        requires
            self.links_ok(),
            i < self.slot_count(),
    {
        self.tree.node_parent(i)
    }

    /// The child handle of the node at handle `i` in direction `dir`.
    pub fn node_child(&self, i: usize, dir: usize) -> (c: usize)
        requires
            self.links_ok(),
            i < self.slot_count(),
            dir < 2,
    {
        self.tree.node_child(i, dir)
    }
}

impl RedBlack for SlabRedBlack {
    closed spec fn inv(&self) -> bool {
        self.tree.wf()
    }

    closed spec fn keys(&self) -> Multiset<u64> {
        self.tree.key_multiset()
    }

    fn new() -> (t: Self) {
        SlabRedBlack { tree: crate::tree::RedBlack::new() }
    }

    fn insert(&mut self, key: u64) {
        self.tree.insert(key);
    }

    fn delete(&mut self, key: u64) -> (r: Option<u64>) {
        self.tree.delete(key)
    }

    fn search(&mut self, key: u64) -> (r: Option<u64>) {
        self.tree.search(key)
    }
}

} // verus!
