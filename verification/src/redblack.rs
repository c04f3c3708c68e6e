//! The tree contract: the seam between callers and a storage back-end.
//! Every back-end maintains the red-black and binary-search invariants and
//! behaves, observably, as a multiset of keys.

use vstd::prelude::*;
use vstd::multiset::Multiset;

verus! {

/// An ordered key set with logarithmic insert, delete and search, specified
/// against the multiset of keys it stores.
pub trait RedBlack: Sized {
    /// Well-formedness: the back-end's structural and red-black invariants.
    spec fn inv(&self) -> bool;

    /// The multiset of keys currently stored.
    spec fn keys(&self) -> Multiset<u64>;

    /// An empty tree.
    fn new() -> (t: Self)
        ensures
            t.inv(),
            t.keys() == Multiset::<u64>::empty(),
    ;

    /// Insert one occurrence of `key`; duplicates are permitted.
    fn insert(&mut self, key: u64)
        requires
            old(self).inv(),
        ensures
            final(self).inv(),
            final(self).keys() == old(self).keys().insert(key),
    ;

    /// Remove one node holding `key` and return it, or return `None` and
    /// change nothing when no node holds `key`.
    fn delete(&mut self, key: u64) -> (r: Option<u64>)
        requires
            old(self).inv(),
        ensures
            final(self).inv(),
            old(self).keys().contains(key) ==> r == Option::Some(key) && final(self).keys() == old(
                self,
            ).keys().remove(key),
            !old(self).keys().contains(key) ==> r == Option::<u64>::None && final(self).keys()
                == old(self).keys(),
    ;

    /// `Some(key)` exactly when a node holding `key` is in the tree.
    fn search(&mut self, key: u64) -> (r: Option<u64>)
        requires
            old(self).inv(),
        ensures
            final(self).inv(),
            final(self).keys() == old(self).keys(),
            r == (if old(self).keys().contains(key) {
                Option::Some(key)
            } else {
                Option::<u64>::None
            }),
    ;
}

} // verus!
