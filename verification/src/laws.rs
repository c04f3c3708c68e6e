//! The general laws of the tree, stated and proved once over the spec model
//! the operation contracts use, so that a reader sees them written down and
//! not merely implied.

use vstd::prelude::*;
use vstd::multiset::Multiset;
use crate::shape::{Shape, local_rot, rotate_at, lemma_local_rot};
use crate::tree::{Node, shape_inv, lemma_subtree_fields};
use crate::path::{
    path_to, plug, lemma_path_to, lemma_plug_inv, lemma_plug_idxs, lemma_ctx_inv_distinct,
    lemma_rotate_at_plug,
};

verus! {

/// Inserting a key that was absent and then deleting it restores the key
/// multiset exactly, and a search for it reports absence: the hypotheses are
/// the `ensures` of `insert` and of `delete` on trees related by those two
/// calls, and the conclusion is what `search`'s contract then returns.
pub proof fn lemma_insert_then_delete(
    m0: Multiset<u64>,
    m1: Multiset<u64>,
    m2: Multiset<u64>,
    k: u64,
)
    requires
        !m0.contains(k),
        m1 == m0.insert(k),
        m2 == m1.remove(k),
    ensures
        m2 == m0,
        !m2.contains(k),
{
    assert(m2 =~= m0);
}

/// A key just inserted is found: the multiset after `insert` contains it,
/// so `search`'s contract returns it.
pub proof fn lemma_search_after_insert(m0: Multiset<u64>, k: u64)
    ensures
        m0.insert(k).contains(k),
{
}

/// After deleting a key that occurred once, a search for it reports absence.
pub proof fn lemma_search_after_delete(m0: Multiset<u64>, k: u64)
    requires
        m0.count(k) == 1,
    ensures
        !m0.remove(k).contains(k),
{
}

/// The rotation inverse law: a left rotation at a node, followed by a right
/// rotation at the node that the first rotation promoted into its place,
/// restores the exact original tree, links, keys and colors alike.  The
/// hypotheses say only that the tree is realised in an arena (which makes
/// its indices distinct) and that the first rotation has a child to promote.
pub proof fn lemma_rotate_inverse(t: Shape, nodes: Seq<Node>, x: int)
    requires
        shape_inv(t, nodes, 0),
        t.idxs().contains(x),
        t.subtree_at(x).right() is Node,
    ensures
        rotate_at(rotate_at(t, x, 0), t.subtree_at(x).right().root_idx(), 1) == t,
{
    let ctx = path_to(t, x);
    let s = t.subtree_at(x);
    let y = s.right().root_idx();
    lemma_subtree_fields(t, nodes, 0, x);
    lemma_path_to(t, x);
    lemma_plug_inv(ctx, s, nodes);
    lemma_ctx_inv_distinct(ctx, nodes, x);
    lemma_plug_idxs(ctx, s);
    lemma_rotate_at_plug(ctx, s, x, 0);
    assert(rotate_at(s, x, 0) == local_rot(s, 0));
    let s2 = local_rot(s, 0);
    lemma_local_rot(s, 0);
    assert(s2.root_idx() == y);
    assert(s2.idxs().contains(y)) by {
        assert(s.right().idxs().contains(y));
        assert(s.idxs() =~= s.left().idxs().union(s.right().idxs()).insert(x));
    }
    lemma_rotate_at_plug(ctx, s2, y, 1);
    assert(rotate_at(s2, y, 1) == local_rot(s2, 1));
    assert(local_rot(s2, 1) == s);
    assert(rotate_at(rotate_at(t, x, 0), y, 1) == plug(ctx, s));
}

} // verus!
