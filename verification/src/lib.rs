//! An ordered, self-balancing binary search tree (a red-black tree) over
//! `u64` keys, with insert, delete and search in worst-case logarithmic
//! height.
//!
//! Nodes live in an index-based arena with a free list; the arena slot at
//! index 0 is the shared sentinel that stands for every absent link.  The
//! balancing algorithm is the classic rotation-based one, written once with
//! a direction parameter (`0` = left, `1` = right) so that each fixup case
//! covers both of its mirror images.
//!
//! The abstract model of a tree is the ghost [`shape::Shape`]: a recursive
//! tree of arena indices, keys and colors.  Every public operation is
//! specified against the multiset of keys of that shape, and the red-black
//! invariants (root black, no red node with a red child, equal black counts
//! on all paths) are proved to hold after every operation.

pub mod shape;
pub mod path;
pub mod tree;
pub mod redblack;
pub mod slab;
pub mod pointer;
pub mod laws;
