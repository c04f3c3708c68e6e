//! The red-black tree itself: an arena of nodes indexed by `usize` handles,
//! with the slot at index 0 reserved for the shared sentinel, a root handle,
//! and a free list of reusable slots.

use vstd::prelude::*;
use vstd::multiset::Multiset;
use crate::shape::{Shape, local_rot, rotate_at, lemma_local_rot};
use crate::path::{
    path_to, plug, wrap, ctx_parent, ctx_idxs, ctx_inv, ctx_sides, ctx_distinct, ctx_rb,
    ctx_rb_almost, in_hole_range, Frame, lemma_ctx_rb_almost_black_hole,
    lemma_path_to, lemma_plug_inv,
    lemma_plug_sorted, lemma_plug_keys, lemma_plug_idxs, lemma_plug_root, lemma_plug_push,
    lemma_plug_append, lemma_plug_rb, lemma_ctx_inv_distinct, lemma_ctx_inv_update_hole,
    lemma_ctx_inv_frame, lemma_ctx_idxs_positive, lemma_ctx_rb_weaken, lemma_ctx_rb_strengthen,
    lemma_hole_range_push, lemma_shape_inv_frame, lemma_shape_inv_reparent,
    lemma_shape_inv_recolor, lemma_rotate_at_plug, lemma_ctx_sides_concat,
};

verus! {

/// One arena slot: a key, a color, a parent handle and two child handles
/// addressed by direction (0 = left, 1 = right).  Absent links hold the
/// sentinel handle 0.
#[derive(Clone, Copy)]
pub struct Node {
    pub key: u64,
    pub red: bool,
    pub parent: usize,
    pub children: [usize; 2],
}

impl Node {
    /// Parent handle as a mathematical integer.
    pub open spec fn pi(self) -> int {
        self.parent as int
    }

    /// Child handle in direction `d` as a mathematical integer.
    pub open spec fn kid(self, d: int) -> int {
        self.children[d] as int
    }

    /// A fresh black node with the given key and both links at the sentinel.
    pub fn new(key: u64, nil_sentinel: usize) -> (n: Node)
        ensures
            n.key == key,
            !n.red,
            n.parent == nil_sentinel,
            n.kid(0) == nil_sentinel,
            n.kid(1) == nil_sentinel,
    {
        Node { parent: nil_sentinel, children: [nil_sentinel, nil_sentinel], key, red: false }
    }
}

/// Every slot's links stay inside the arena, whatever the slot holds.
pub open spec fn all_bounded(nodes: Seq<Node>) -> bool {
    forall|j: int|
        0 <= j < nodes.len() ==> (#[trigger] nodes[j]).pi() < nodes.len() && nodes[j].kid(0)
            < nodes.len() && nodes[j].kid(1) < nodes.len()
}

/// The arena realises the ghost shape `t` under parent handle `parent`:
/// every shape node's slot holds its key, color, parent and child handles,
/// and the indices of distinct shape nodes are distinct.
pub open spec fn shape_inv(t: Shape, nodes: Seq<Node>, parent: int) -> bool
    decreases t,
{
    match t {
        Shape::Nil => true,
        Shape::Node { i, k, red, l, r } => {
            &&& 0 < i < nodes.len()
            &&& nodes[i].key == k
            &&& nodes[i].red == red
            &&& nodes[i].pi() == parent
            &&& nodes[i].kid(0) == l.root_idx()
            &&& nodes[i].kid(1) == r.root_idx()
            &&& !l.idxs().contains(i)
            &&& !r.idxs().contains(i)
            &&& l.idxs().disjoint(r.idxs())
            &&& shape_inv(*l, nodes, i)
            &&& shape_inv(*r, nodes, i)
        },
    }
}

/// An ordered, self-balancing binary search tree over `u64` keys.  Nodes
/// live in a growable arena; handles are stable indices; deleted slots are
/// reused through a free list; index 0 is the sentinel for absent links.
pub struct RedBlack {
    nodes: Vec<Node>,
    root: usize,
    nil_sentinel: usize,
    free: Vec<usize>,
    shape: Ghost<Shape>,
}

impl RedBlack {
    /// The ghost shape the arena currently realises.
    pub closed spec fn sh(self) -> Shape {
        self.shape@
    }

    /// The multiset of keys currently stored.
    pub closed spec fn key_multiset(self) -> Multiset<u64> {
        self.sh().keys()
    }

    /// The free list holds distinct non-sentinel slots outside the shape.
    spec fn free_ok(self) -> bool {
        &&& forall|j: int|
            0 <= j < self.free@.len() ==> 0 < (#[trigger] self.free@[j]) as int
                && (self.free@[j] as int) < self.nodes@.len() && !self.sh().idxs().contains(
                self.free@[j] as int,
            )
        &&& forall|j1: int, j2: int|
            0 <= j1 < j2 < self.free@.len() ==> self.free@[j1] != self.free@[j2]
    }

    /// Structural well-formedness: the sentinel sits at slot 0, is black and
    /// childless; all links are in bounds; the arena realises the shape under
    /// the stored root handle; the shape is in binary-search order; the free
    /// list is sound.  Colors are not constrained here.
    pub closed spec fn link_inv(self) -> bool {
        &&& 1 <= self.nodes@.len()
        &&& self.nil_sentinel == 0
        &&& !self.nodes@[0].red
        &&& self.nodes@[0].kid(0) == 0
        &&& self.nodes@[0].kid(1) == 0
        &&& all_bounded(self.nodes@)
        &&& self.root as int == self.sh().root_idx()
        &&& shape_inv(self.sh(), self.nodes@, 0)
        &&& self.sh().sorted()
        &&& self.free_ok()
    }

    /// The red-black color conditions: the root is black, no red node has a
    /// red child, and all paths carry equal black counts.
    pub closed spec fn color_inv(self) -> bool {
        self.sh().rb_ok() && self.sh().is_black()
    }

    /// Full well-formedness, maintained by every public operation.
    pub open spec fn wf(self) -> bool {
        self.link_inv() && self.color_inv()
    }

    /// An empty tree: the arena holds only the sentinel.
    pub fn new() -> (rb: RedBlack)
        ensures
            rb.wf(),
            rb.key_multiset() == Multiset::<u64>::empty(),
            rb.sh() == Shape::Nil,
    {
        let mut nodes: Vec<Node> = Vec::new();
        nodes.push(Node::new(0, 0));
        let rb = RedBlack {
            nodes,
            root: 0,
            nil_sentinel: 0,
            free: Vec::new(),
            shape: Ghost(Shape::Nil),
        };
        proof {
            assert(rb.sh().keys() =~= Multiset::<u64>::empty());
        }
        rb
    }

    /// The sentinel handle: the designated "no node" value.
    pub fn sentinel(&self) -> (s: usize)
        requires
            self.link_inv(),
        ensures
            s == 0,
    {
        self.nil_sentinel
    }

    /// The key stored at handle `i`.
    pub fn node_key(&self, i: usize) -> (k: u64)
        requires
            self.link_inv(),
            i < self.slot_count(),
        ensures
            self.sh().idxs().contains(i as int) ==> k == self.sh().subtree_at(i as int).key(),
    {
        proof {
            if self.sh().idxs().contains(i as int) {
                lemma_subtree_fields(self.sh(), self.nodes@, 0, i as int);
            }
        }
        self.nodes[i].key
    }

    /// The parent handle of the node at handle `i`.
    pub fn node_parent(&self, i: usize) -> (p: usize)
        requires
            self.link_inv(),
            i < self.slot_count(),
    {
        self.nodes[i].parent
    }

    /// The child handle of the node at handle `i` in direction `dir`
    /// (0 = left, 1 = right).
    pub fn node_child(&self, i: usize, dir: usize) -> (c: usize)
        requires
            self.link_inv(),
            i < self.slot_count(),
            dir < 2,
        ensures
            self.sh().idxs().contains(i as int) ==> c == self.sh().subtree_at(
                i as int,
            ).child(dir as int).root_idx(),
    {
        proof {
            if self.sh().idxs().contains(i as int) {
                lemma_subtree_fields(self.sh(), self.nodes@, 0, i as int);
            }
        }
        self.nodes[i].children[dir]
    }

    /// Number of arena slots, the sentinel included.
    pub closed spec fn slot_count(self) -> nat {
        self.nodes@.len()
    }

    /// The free list, viewed as the sequence of reusable slot handles.
    pub closed spec fn free_list(self) -> Seq<usize> {
        self.free@
    }

    /// The sentinel's stored parent handle.  The sentinel never has a real
    /// parent, but the deletion path parks the spliced node's parent here so
    /// the fixup can climb from an absent child.
    pub closed spec fn sentinel_parent(self) -> int {
        self.nodes@[0].pi()
    }

    /// Store `n` into slot `i`, leaving every other field of the tree alone.
    fn put(&mut self, i: usize, n: Node)
        requires
            i < old(self).nodes@.len(),
        ensures
            final(self).nodes@ == old(self).nodes@.update(i as int, n),
            final(self).root == old(self).root,
            final(self).nil_sentinel == old(self).nil_sentinel,
            final(self).free@ == old(self).free@,
            final(self).shape@ == old(self).shape@,
    {
        self.nodes[i] = n;
    }

    /// One rotation at the node with handle `x`: for `dir == 0` the right
    /// child is promoted into `x`'s place and `x` becomes its left child;
    /// `dir == 1` is the mirror image.  Keys, indices and binary-search order
    /// are preserved; the color conditions in general are not, which is why
    /// only the fixup passes call this.
    #[verifier::rlimit(60)]
    pub fn rotate(&mut self, x: usize, dir: usize)
        requires
            old(self).link_inv(),
            dir < 2,
            old(self).sh().idxs().contains(x as int),
            old(self).sh().subtree_at(x as int).child(1 - dir as int) is Node,
        ensures
            final(self).link_inv(),
            final(self).sh() == rotate_at(old(self).sh(), x as int, dir as int),
            final(self).key_multiset() == old(self).key_multiset(),
            final(self).sh().idxs() == old(self).sh().idxs(),
            final(self).slot_count() == old(self).slot_count(),
            final(self).sentinel_parent() == old(self).sentinel_parent(),
            final(self).free_list() == old(self).free_list(),
    {
        let ghost t0 = self.sh();
        let ghost xi = x as int;
        let ghost di = dir as int;
        let ghost ctx = path_to(t0, xi);
        let ghost sub = t0.subtree_at(xi);
        let ghost n0 = self.nodes@;
        let ghost av = sub.child(di);
        let ghost ytree = sub.child(1 - di);
        let ghost bv = ytree.child(di);
        let ghost cv = ytree.child(1 - di);
        let ghost xp = ctx_parent(ctx);
        proof {
            lemma_subtree_fields(t0, n0, 0, xi);
            lemma_path_to(t0, xi);
            assert(plug(ctx, sub) == t0);
            lemma_plug_inv(ctx, sub, n0);
            assert(shape_inv(plug(ctx, sub), n0, 0));
            assert(ctx_inv(ctx, n0, xi));
            assert(shape_inv(sub, n0, ctx_parent(ctx)));
            lemma_plug_sorted(ctx, sub);
            lemma_plug_keys(ctx, sub);
            lemma_plug_idxs(ctx, sub);
            lemma_ctx_inv_distinct(ctx, n0, xi);
            assert((dir ^ 1) == 1 - dir && (dir ^ 1) < 2) by (bit_vector)
                requires
                    dir < 2,
            ;
        }
        let y = self.nodes[x].children[dir ^ 1];
        proof {
            assert(y as int == ytree.root_idx());
            assert(shape_inv(ytree, n0, xi));
            assert(0 < y as int && (y as int) < n0.len());
        }
        let ghost yi = y as int;
        let ghost ky = ytree.key();
        // The subtree that changes parents: the promoted child's dir-side child.
        let y_chld = self.nodes[y].children[dir];
        proof {
            assert(shape_inv(av, n0, xi) && shape_inv(ytree, n0, xi)) by {
                if di == 0 {
                } else {
                }
            }
            assert(shape_inv(bv, n0, yi) && shape_inv(cv, n0, yi)) by {
                if di == 0 {
                } else {
                }
            }
            assert(y_chld as int == bv.root_idx());
            assert(bv is Node ==> 0 < y_chld as int && (y_chld as int) < n0.len());
            assert(bv is Nil ==> y_chld == 0);
            // Distinctness of every slot this rotation touches.
            assert(ytree.idxs().contains(yi));
            assert(xi != yi);
            assert(av.idxs().disjoint(ytree.idxs()));
            assert(!av.idxs().contains(xi) && !ytree.idxs().contains(xi));
            assert(bv.idxs().disjoint(cv.idxs()));
            assert(!bv.idxs().contains(yi) && !cv.idxs().contains(yi));
            assert(bv.idxs().subset_of(ytree.idxs()) && cv.idxs().subset_of(ytree.idxs())) by {
                assert(ytree.idxs() =~= bv.idxs().union(cv.idxs()).insert(yi)) by {
                    if di == 0 {
                    } else {
                    }
                }
            }
            assert(sub.idxs() =~= av.idxs().union(ytree.idxs()).insert(xi)) by {
                if di == 0 {
                } else {
                }
            }
            assert(ctx_idxs(ctx).disjoint(sub.idxs()));
            assert(!sub.idxs().contains(0)) by {
                assert forall|j: int| sub.idxs().contains(j) implies j != 0 by {
                    lemma_idx_positive(sub, n0, xp, j);
                }
            }
        }
        let mut nx = self.nodes[x];
        nx.children[dir ^ 1] = y_chld;
        self.put(x, nx);
        if y_chld != self.nil_sentinel {
            let mut nb = self.nodes[y_chld];
            nb.parent = x;
            self.put(y_chld, nb);
        }
        let x_parent = self.nodes[x].parent;
        proof {
            assert(x_parent as int == xp);
        }
        let mut ny = self.nodes[y];
        ny.parent = x_parent;
        ny.children[dir] = x;
        self.put(y, ny);
        if x_parent == self.nil_sentinel {
            self.root = y;
        } else {
            let sib_dir = if self.nodes[x_parent].children[0] == x {
                0
            } else {
                1
            };
            proof {
                let f = ctx.last();
                assert(ctx.len() > 0);
                assert(f.i == xp);
                assert(n0[xp].kid(f.side) == xi);
                assert(f.sib.root_idx() != xi) by {
                    if f.sib is Node {
                        assert(ctx_idxs(ctx).contains(f.sib.root_idx())) by {
                            assert(f.sib.idxs().contains(f.sib.root_idx()));
                        }
                    }
                }
                assert(sib_dir as int == f.side);
            }
            let mut np = self.nodes[x_parent];
            np.children[sib_dir] = y;
            self.put(x_parent, np);
        }
        let mut nx2 = self.nodes[x];
        nx2.parent = y;
        self.put(x, nx2);
        let ghost sub2 = local_rot(sub, di);
        self.shape = Ghost(plug(ctx, sub2));
        proof {
            let nf = self.nodes@;
            lemma_local_rot(sub, di);
            let inner = sub2.child(di);
            assert(sub2.root_idx() == yi && sub2.key() == ky);
            assert(inner.root_idx() == xi && sub2.child(1 - di) == cv && inner.child(di) == av
                && inner.child(1 - di) == bv) by {
                if di == 0 {
                } else {
                }
            }
            // The slots this rotation did not touch are unchanged.
            assert(nf.len() == n0.len());
            assert forall|j: int|
                0 <= j < n0.len() && j != xi && j != yi && j != bv.root_idx() && j
                    != xp implies nf[j] == n0[j] by {}
            // The arena realises the rotated subtree.
            assert(shape_inv(av, nf, xi)) by {
                if av is Node {
                    assert forall|j: int| #[trigger] av.idxs().contains(j) implies 0 <= j < nf.len() && nf[j]
                        == n0[j] by {
                        assert(sub.idxs().contains(j));
                        lemma_idx_positive(sub, n0, ctx_parent(ctx), j);
                        assert(!ctx_idxs(ctx).contains(j));
                        assert(!ytree.idxs().contains(j));
                    }
                    lemma_shape_inv_frame(av, n0, nf, xi);
                }
            }
            assert(shape_inv(bv, nf, xi)) by {
                if bv is Node {
                    assert forall|j: int|
                        #[trigger] bv.idxs().contains(j) && j != bv.root_idx() implies 0 <= j < nf.len()
                            && nf[j] == n0[j] by {
                        assert(ytree.idxs().contains(j));
                        assert(sub.idxs().contains(j));
                        lemma_idx_positive(sub, n0, ctx_parent(ctx), j);
                        assert(!ctx_idxs(ctx).contains(j));
                        assert(!av.idxs().contains(j));
                        assert(j != xi && j != yi);
                    }
                    lemma_shape_inv_reparent(bv, n0, nf, yi, xi);
                }
            }
            assert(shape_inv(cv, nf, yi)) by {
                if cv is Node {
                    assert forall|j: int| #[trigger] cv.idxs().contains(j) implies 0 <= j < nf.len() && nf[j]
                        == n0[j] by {
                        assert(ytree.idxs().contains(j));
                        assert(sub.idxs().contains(j));
                        lemma_idx_positive(sub, n0, ctx_parent(ctx), j);
                        assert(!ctx_idxs(ctx).contains(j));
                        assert(!av.idxs().contains(j));
                        assert(!bv.idxs().contains(j));
                        assert(j != xi && j != yi && j != bv.root_idx());
                    }
                    lemma_shape_inv_frame(cv, n0, nf, yi);
                }
            }
            assert(shape_inv(inner, nf, yi));
            assert(shape_inv(sub2, nf, xp)) by {
                assert(inner.idxs() =~= av.idxs().union(bv.idxs()).insert(xi)) by {
                    if di == 0 {
                    } else {
                    }
                }
                assert(!inner.idxs().contains(yi));
                assert(inner.idxs().disjoint(cv.idxs()));
            }
            // The context still holds around the promoted node.
            if ctx.len() == 0 {
                assert(self.root == y);
                assert(plug(ctx, sub2) == sub2);
            } else {
                let f = ctx.last();
                assert forall|j: int|
                    #[trigger] ctx_idxs(ctx).contains(j) && j != f.i implies 0 <= j < nf.len()
                        && nf[j] == n0[j] by {
                    assert(t0.idxs().contains(j));
                    lemma_idx_positive(t0, n0, 0, j);
                    assert(!sub.idxs().contains(j));
                    assert(j != xi && j != yi && j != bv.root_idx());
                }
                lemma_ctx_inv_update_hole(ctx, n0, nf, xi, yi);
                assert(ctx_inv(ctx, nf, yi));
                lemma_plug_root(ctx, sub);
                lemma_plug_root(ctx, sub2);
                assert(self.root as int == plug(ctx, sub2).root_idx());
            }
            assert(ctx_idxs(ctx).disjoint(sub2.idxs()));
            lemma_plug_inv(ctx, sub2, nf);
            assert(shape_inv(self.sh(), nf, 0));
            // Order, keys and indices carry over.
            lemma_plug_sorted(ctx, sub2);
            lemma_plug_keys(ctx, sub2);
            lemma_plug_idxs(ctx, sub2);
            assert(self.sh().sorted());
            assert(self.sh().keys() =~= t0.keys());
            assert(self.sh().idxs() =~= t0.idxs());
            lemma_rotate_at_plug(ctx, sub, xi, di);
            assert(self.sh() == rotate_at(t0, xi, di));
            // Remaining structural facts.
            assert(all_bounded(nf));
            assert(nf[0] == n0[0]);
            assert(self.link_inv());
        }
    }

    /// Iterative binary search: the handle of some node holding `key`, or
    /// `None` exactly when no node does.
    fn search_(&mut self, key: u64) -> (r: Option<usize>)
        requires
            old(self).link_inv(),
        ensures
            *final(self) == *old(self),
            match r {
                Option::Some(i) => old(self).sh().idxs().contains(i as int) && old(
                    self,
                ).sh().subtree_at(i as int).key() == key,
                Option::None => !old(self).sh().keys().contains(key),
            },
    {
        let ghost t0 = self.sh();
        let mut curr = self.root;
        let ghost mut ctx = Seq::<Frame>::empty();
        let ghost mut sub = t0;
        while curr != self.nil_sentinel
            invariant
                *self == *old(self),
                self.link_inv(),
                plug(ctx, sub) == t0,
                t0 == self.sh(),
                ctx_sides(ctx),
                ctx_distinct(ctx),
                ctx_idxs(ctx).disjoint(sub.idxs()),
                curr as int == sub.root_idx(),
                shape_inv(sub, self.nodes@, ctx_parent(ctx)),
                sub.sorted(),
                t0.keys().contains(key) ==> sub.keys().contains(key),
            decreases sub.size(),
        {
            proof {
                assert(sub is Node) by {
                    if sub is Nil {
                        assert(sub.root_idx() == 0);
                    }
                }
            }
            let kc = self.nodes[curr].key;
            if kc == key {
                proof {
                    lemma_plug_idxs(ctx, sub);
                    lemma_rotate_at_plug(ctx, sub, curr as int, 0);
                    assert(t0.subtree_at(curr as int) == sub);
                }
                return Some(curr);
            }
            let direction: usize = if kc < key {
                1
            } else {
                0
            };
            let ghost f = Frame {
                side: direction as int,
                i: curr as int,
                k: kc,
                red: self.nodes@[curr as int].red,
                sib: sub.child(1 - direction as int),
            };
            let ghost sub2 = sub.child(direction as int);
            proof {
                assert(wrap(f, sub2) == sub) by {
                    if direction == 0 {
                    } else {
                    }
                }
                lemma_plug_push(ctx, f, sub2);
                assert(ctx_sides(ctx.push(f))) by {
                    assert forall|j: int|
                        0 <= j < ctx.push(f).len() implies (#[trigger] ctx.push(f)[j]).side == 0
                        || ctx.push(f)[j].side == 1 by {
                        if j < ctx.len() {
                            assert(ctx.push(f)[j] == ctx[j]);
                        } else {
                            assert(ctx.push(f)[j] == f);
                        }
                    }
                }
                assert(ctx_idxs(ctx.push(f)) =~= ctx_idxs(ctx).union(f.sib.idxs()).insert(f.i)) by {
                    assert(ctx.push(f).drop_last() =~= ctx);
                    assert(ctx.push(f).last() == f);
                }
                assert(ctx_distinct(ctx.push(f)) && ctx_idxs(ctx.push(f)).disjoint(sub2.idxs()))
                    by {
                    assert(ctx.push(f).drop_last() =~= ctx);
                    assert(ctx.push(f).last() == f);
                    assert(sub.idxs() =~= sub2.idxs().union(f.sib.idxs()).insert(curr as int)) by {
                        if direction == 0 {
                        } else {
                        }
                    }
                }
                assert(shape_inv(sub2, self.nodes@, curr as int)) by {
                    if direction == 0 {
                    } else {
                    }
                }
                if t0.keys().contains(key) {
                    assert(sub.keys() == sub.left().keys().add(sub.right().keys()).insert(
                        sub.key(),
                    ));
                    if direction == 0 {
                        assert(!sub.right().keys().contains(key)) by {
                            if sub.right().keys().contains(key) {
                                assert(key >= kc);
                            }
                        }
                        assert(sub2.keys().contains(key));
                    } else {
                        assert(!sub.left().keys().contains(key)) by {
                            if sub.left().keys().contains(key) {
                                assert(key <= kc);
                            }
                        }
                        assert(sub2.keys().contains(key));
                    }
                }
                assert(sub2.size() < sub.size()) by {
                    if direction == 0 {
                    } else {
                    }
                }
                ctx = ctx.push(f);
                sub = sub2;
            }
            curr = self.nodes[curr].children[direction];
        }
        proof {
            assert(sub is Nil) by {
                if sub is Node {
                    assert(sub.root_idx() > 0);
                }
            }
        }
        None
    }

    /// Search: `Some(key)` exactly when a node holding `key` is in the tree.
    pub fn search(&mut self, key: u64) -> (r: Option<u64>)
        requires
            old(self).link_inv(),
        ensures
            *final(self) == *old(self),
            r == (if old(self).key_multiset().contains(key) {
                Option::Some(key)
            } else {
                Option::<u64>::None
            }),
    {
        if let Some(found_idx) = self.search_(key) {
            proof {
                lemma_subtree_fields(self.sh(), self.nodes@, 0, found_idx as int);
                crate::shape::lemma_key_at_in_keys(self.sh(), found_idx as int);
            }
            return Some(self.nodes[found_idx].key);
        }
        None
    }

    /// The handle of the leftmost (minimal) node of the subtree rooted at
    /// `x`; read-only.
    #[verifier::loop_isolation(false)]
    fn tree_minimum(&mut self, x: usize, Ghost(sub0): Ghost<Shape>) -> (m: usize)
        requires
            old(self).link_inv(),
            sub0 is Node,
            sub0.root_idx() == x as int,
            shape_inv(sub0, old(self).nodes@, old(self).nodes@[x as int].pi()),
            sub0.sorted(),
        ensures
            *final(self) == *old(self),
            sub0.idxs().contains(m as int),
            sub0.subtree_at(m as int) is Node,
            sub0.subtree_at(m as int).root_idx() == m as int,
            sub0.subtree_at(m as int).left() is Nil,
            sub0.keys().contains(sub0.subtree_at(m as int).key()),
            forall|q: u64|
                sub0.keys().contains(q) ==> sub0.subtree_at(m as int).key() <= q,
    {
        let ghost mut sub = sub0;
        let mut xm = x;
        let mut l = self.nodes[xm].children[0];
        proof {
            assert(l as int == sub.left().root_idx());
        }
        while l != self.nil_sentinel
            invariant
                *self == *old(self),
                self.link_inv(),
                sub is Node,
                sub.root_idx() == xm as int,
                shape_inv(sub, self.nodes@, self.nodes@[xm as int].pi()),
                sub.sorted(),
                l as int == sub.left().root_idx(),
                sub0.idxs().contains(xm as int),
                sub0.subtree_at(xm as int) == sub,
                forall|q: u64|
                    sub0.keys().contains(q) ==> sub.keys().contains(q) || q >= sub.key(),
            decreases sub.size(),
        {
            let ghost subl = sub.left();
            proof {
                assert(self.nodes@ == old(self).nodes@);
                assert(subl is Node) by {
                    if subl is Nil {
                        assert(subl.root_idx() == 0);
                    }
                }
                assert(shape_inv(subl, self.nodes@, xm as int));
                assert(sub0.subtree_at(xm as int).child(0) is Node);
                lemma_subtree_step(
                    sub0,
                    old(self).nodes@,
                    old(self).nodes@[x as int].pi(),
                    xm as int,
                    0,
                );
                assert forall|q: u64|
                    sub0.keys().contains(q) implies subl.keys().contains(q) || q >= subl.key() by {
                    assert(sub.keys() == sub.left().keys().add(sub.right().keys()).insert(
                        sub.key(),
                    ));
                    assert(subl.keys().contains(subl.key()));
                    assert(subl.key() <= sub.key());
                    if sub.keys().contains(q) && !subl.keys().contains(q) {
                        if sub.right().keys().contains(q) {
                            assert(q >= sub.key());
                        } else {
                            assert(q == sub.key());
                        }
                    }
                }
                assert(subl.size() < sub.size());
            }
            xm = l;
            proof {
                sub = subl;
            }
            l = self.nodes[xm].children[0];
        }
        proof {
            assert(sub.left() is Nil) by {
                if sub.left() is Node {
                    assert(shape_inv(sub.left(), self.nodes@, xm as int));
                    assert(sub.left().root_idx() > 0);
                }
            }
            assert(sub.keys().contains(sub.key()));
            crate::shape::lemma_subtree_keys(sub0, xm as int, sub.key());
            assert forall|q: u64| sub0.keys().contains(q) implies sub.key() <= q by {
                if sub.keys().contains(q) {
                    assert(sub.keys() == sub.left().keys().add(sub.right().keys()).insert(
                        sub.key(),
                    ));
                    assert(sub.left().keys() =~= Multiset::<u64>::empty());
                    if sub.right().keys().contains(q) {
                        assert(q >= sub.key());
                    } else {
                        assert(q == sub.key());
                    }
                }
            }
        }
        xm
    }

    /// Take a slot for a new node holding `key`: reuse a freed slot if one
    /// exists, else grow the arena.  The slot is fully reinitialised, so no
    /// stale fields can leak into the new node.
    fn take_slot(&mut self, key: u64) -> (z: usize)
        requires
            old(self).link_inv(),
        ensures
            final(self).link_inv(),
            final(self).sh() == old(self).sh(),
            final(self).root == old(self).root,
            0 < z < final(self).nodes@.len(),
            old(self).nodes@.len() <= final(self).nodes@.len(),
            !final(self).sh().idxs().contains(z as int),
            !final(self).free@.contains(z),
            final(self).nodes@[z as int].key == key,
            !final(self).nodes@[z as int].red,
            final(self).nodes@[z as int].pi() == 0,
            final(self).nodes@[z as int].kid(0) == 0,
            final(self).nodes@[z as int].kid(1) == 0,
            forall|j: int|
                0 <= j < old(self).nodes@.len() && j != z ==> final(self).nodes@[j] == old(
                    self,
                ).nodes@[j],
    {
        let n = Node::new(key, self.nil_sentinel);
        let z = match self.free.pop() {
            Some(slot) => {
                self.put(slot, n);
                slot
            },
            None => {
                let slot = self.nodes.len();
                self.nodes.push(n);
                slot
            },
        };
        proof {
            assert forall|j: int| self.sh().idxs().contains(j) implies 0 <= j < self.nodes@.len()
                && self.nodes@[j] == old(self).nodes@[j] by {
                lemma_idx_positive(old(self).sh(), old(self).nodes@, 0, j);
                assert(j != z);
            }
            lemma_shape_inv_frame(self.sh(), old(self).nodes@, self.nodes@, 0);
            if !old(self).sh().idxs().contains(z as int) {
            } else {
                lemma_idx_positive(old(self).sh(), old(self).nodes@, 0, z as int);
                assert(false);
            }
            assert(!self.free@.contains(z)) by {
                if self.free@.contains(z) {
                    let j = choose|j: int| 0 <= j < self.free@.len() && self.free@[j] == z;
                    if old(self).free@.len() == self.free@.len() {
                    } else {
                        assert(self.free@ =~= old(self).free@.drop_last());
                        assert(old(self).free@[j] == z);
                        assert(old(self).free@.last() == z);
                    }
                }
            }
            assert(self.link_inv());
        }
        z
    }

    /// Insert `key`: standard binary-search descent (equal keys go right), a
    /// red leaf is attached at the hole, and the fixup pass restores the
    /// red-black conditions.  Adds exactly one occurrence of `key`.
    pub fn insert(&mut self, key: u64)
        requires
            old(self).wf(),
        ensures
            final(self).wf(),
            final(self).key_multiset() == old(self).key_multiset().insert(key),
    {
        let ghost t0 = self.sh();
        let z = self.take_slot(key);
        let ghost n1 = self.nodes@;
        let mut y = self.nil_sentinel;
        let mut x = self.root;
        let ghost mut ctx = Seq::<Frame>::empty();
        let ghost mut sub = t0;
        while x != self.nil_sentinel
            invariant
                self.link_inv(),
                self.nodes@ == n1,
                self.sh() == t0,
                0 < z < n1.len(),
                !t0.idxs().contains(z as int),
                !self.free@.contains(z),
                n1[z as int].key == key,
                !n1[z as int].red,
                n1[z as int].pi() == 0,
                n1[z as int].kid(0) == 0,
                n1[z as int].kid(1) == 0,
                plug(ctx, sub) == t0,
                ctx_sides(ctx),
                x as int == sub.root_idx(),
                y as int == ctx_parent(ctx),
                shape_inv(sub, n1, ctx_parent(ctx)),
                sub.sorted(),
                in_hole_range(ctx, key),
                ctx.len() > 0 ==> ctx.last().side == (if key < ctx.last().k {
                    0int
                } else {
                    1int
                }),
            decreases sub.size(),
        {
            proof {
                assert(sub is Node) by {
                    if sub is Nil {
                        assert(sub.root_idx() == 0);
                    }
                }
            }
            y = x;
            let kx = self.nodes[x].key;
            let dir: usize = if key < kx {
                0
            } else {
                1
            };
            let ghost f = Frame {
                side: dir as int,
                i: x as int,
                k: kx,
                red: n1[x as int].red,
                sib: sub.child(1 - dir as int),
            };
            let ghost sub2 = sub.child(dir as int);
            proof {
                assert(wrap(f, sub2) == sub && shape_inv(sub2, n1, x as int) && sub2.size()
                    < sub.size()) by {
                    if dir == 0 {
                    } else {
                    }
                }
                lemma_plug_push(ctx, f, sub2);
                assert(ctx_sides(ctx.push(f))) by {
                    assert forall|j: int|
                        0 <= j < ctx.push(f).len() implies (#[trigger] ctx.push(f)[j]).side == 0
                        || ctx.push(f)[j].side == 1 by {
                        if j < ctx.len() {
                            assert(ctx.push(f)[j] == ctx[j]);
                        } else {
                            assert(ctx.push(f)[j] == f);
                        }
                    }
                }
                lemma_hole_range_push(ctx, f, key);
                assert(ctx.push(f).last() == f);
                ctx = ctx.push(f);
                sub = sub2;
            }
            x = self.nodes[x].children[dir];
        }
        proof {
            assert(sub is Nil) by {
                if sub is Node {
                    assert(sub.root_idx() > 0);
                }
            }
        }
        let mut nz = self.nodes[z];
        nz.parent = y;
        nz.red = true;
        self.put(z, nz);
        let ghost sub_z = Shape::Node {
            i: z as int,
            k: key,
            red: true,
            l: Box::new(Shape::Nil),
            r: Box::new(Shape::Nil),
        };
        proof {
            lemma_plug_inv(ctx, sub, n1);
            lemma_plug_idxs(ctx, sub);
            lemma_plug_keys(ctx, sub);
            lemma_plug_sorted(ctx, sub);
            lemma_plug_rb(ctx, sub);
        }
        if y == self.nil_sentinel {
            self.root = z;
        } else {
            let dir: usize = if key < self.nodes[y].key {
                0
            } else {
                1
            };
            proof {
                assert(ctx.len() > 0);
                assert(self.nodes@[y as int].key == ctx.last().k);
                assert(dir as int == ctx.last().side);
            }
            let mut ny = self.nodes[y];
            ny.children[dir] = z;
            self.put(y, ny);
        }
        self.shape = Ghost(plug(ctx, sub_z));
        proof {
            let nf = self.nodes@;
            assert forall|j: int|
                #[trigger] ctx_idxs(ctx).contains(j) && j != ctx_parent(ctx) implies 0 <= j
                < nf.len() && nf[j] == n1[j] by {
                lemma_ctx_idxs_positive(ctx, n1, 0, j);
                assert(t0.idxs().contains(j));
                assert(j != z);
            }
            assert(0 < z as int && (z as int) < nf.len());
            assert(nf[z as int].key == key && nf[z as int].red && nf[z as int].pi() == y as int
                && nf[z as int].kid(0) == 0 && nf[z as int].kid(1) == 0);
            assert(!Shape::Nil.idxs().contains(z as int) && Shape::Nil.idxs().disjoint(
                Shape::Nil.idxs(),
            )) by {
                assert(Shape::Nil.idxs() =~= Set::<int>::empty());
            }
            assert(shape_inv(Shape::Nil, nf, z as int));
            assert(shape_inv(sub_z, nf, y as int));
            if ctx.len() == 0 {
                assert(plug(ctx, sub_z) == sub_z);
                assert(y as int == 0);
                assert(ctx_inv(ctx, nf, z as int));
            } else {
                lemma_ctx_inv_update_hole(ctx, n1, nf, 0, z as int);
                lemma_plug_root(ctx, sub);
                lemma_plug_root(ctx, sub_z);
            }
            assert(shape_inv(sub_z, nf, ctx_parent(ctx)));
            assert(ctx_idxs(ctx).disjoint(sub_z.idxs())) by {
                assert(sub_z.idxs() =~= Set::<int>::empty().insert(z as int));
                assert forall|j: int| ctx_idxs(ctx).contains(j) implies !sub_z.idxs().contains(
                    j,
                ) by {
                    assert(t0.idxs().contains(j));
                }
            }
            lemma_plug_inv(ctx, sub_z, nf);
            assert(shape_inv(self.sh(), nf, 0));
            lemma_plug_sorted(ctx, sub_z);
            assert(self.sh().sorted()) by {
                assert forall|q: u64| sub_z.keys().contains(q) implies in_hole_range(ctx, q) by {
                    assert(sub_z.keys() =~= Multiset::<u64>::empty().insert(key));
                    assert(q == key);
                }
            }
            lemma_plug_keys(ctx, sub_z);
            assert(self.key_multiset() =~= old(self).key_multiset().insert(key)) by {
                assert(sub_z.keys() =~= Multiset::<u64>::empty().insert(key));
                assert(sub.keys() =~= Multiset::<u64>::empty());
            }
            lemma_plug_idxs(ctx, sub_z);
            assert(self.sh().idxs() =~= t0.idxs().insert(z as int)) by {
                assert(sub_z.idxs() =~= Set::<int>::empty().insert(z as int));
                assert(sub.idxs() =~= Set::<int>::empty());
            }
            assert(self.link_inv()) by {
                assert(all_bounded(nf));
                assert(nf[0] == n1[0]);
                if ctx.len() > 0 {
                    assert(self.root as int == self.sh().root_idx());
                }
            }
            // The new leaf is the one tolerated violation; everything above
            // it still satisfies the red-black conditions.
            lemma_ctx_rb_weaken(ctx, 0, false);
            assert(ctx_rb_almost(ctx, sub_z.bh()));
            if ctx.len() > 0 {
                lemma_plug_root(ctx, sub);
                assert(!ctx[0].red);
            }
        }
        let ghost ctxf = ctx;
        self.insert_fixup(z, Ghost(ctxf), Ghost(sub_z));
    }

    /// Rebalance after an insertion.  On entry the tree is well-linked and
    /// in binary-search order, the node at `z` is red with valid red-black
    /// subtrees, and the only possible color violation is between `z` and its
    /// parent.  Climbs the tree resolving that violation by the classic
    /// three cases (red uncle: recolor and move up; black uncle, inner
    /// grandchild: rotate to the outer case; black uncle, outer grandchild:
    /// recolor and rotate the grandparent), then blackens the root.
    #[verifier::loop_isolation(false)]
    #[verifier::rlimit(100)]
    fn insert_fixup(&mut self, z: usize, Ghost(ctx0): Ghost<Seq<Frame>>, Ghost(sub0): Ghost<Shape>)
        requires
            old(self).link_inv(),
            plug(ctx0, sub0) == old(self).sh(),
            ctx_sides(ctx0),
            sub0 is Node,
            !sub0.is_black(),
            sub0.rb_ok(),
            sub0.root_idx() == z as int,
            ctx_rb_almost(ctx0, sub0.bh()),
            ctx0.len() > 0 ==> !ctx0[0].red,
        ensures
            final(self).wf(),
            final(self).key_multiset() == old(self).key_multiset(),
            final(self).sh().idxs() == old(self).sh().idxs(),
            final(self).slot_count() == old(self).slot_count(),
    {
        let mut zz = z;
        let ghost mut ctx = ctx0;
        let ghost mut sub = sub0;
        proof {
            lemma_plug_inv(ctx, sub, self.nodes@);
            if ctx.len() > 0 {
                lemma_ctx_idxs_positive(ctx, self.nodes@, zz as int, ctx_parent(ctx));
            }
        }
        let mut p = self.nodes[zz].parent;
        while self.nodes[p].red
            invariant
                self.link_inv(),
                plug(ctx, sub) == self.sh(),
                ctx_sides(ctx),
                sub is Node,
                !sub.is_black(),
                sub.rb_ok(),
                sub.root_idx() == zz as int,
                ctx_rb_almost(ctx, sub.bh()),
                ctx.len() > 0 ==> !ctx[0].red,
                p as int == ctx_parent(ctx),
                (p as int) < self.nodes@.len(),
                self.key_multiset() == old(self).key_multiset(),
                self.sh().idxs() == old(self).sh().idxs(),
                self.slot_count() == old(self).slot_count(),
            decreases ctx.len(),
        {
            let ghost n0 = self.nodes@;
            let ghost h = sub.bh();
            proof {
                lemma_plug_inv(ctx, sub, n0);
                assert(ctx_inv(ctx, n0, zz as int));
                assert(ctx.len() > 0) by {
                    if ctx.len() == 0 {
                        assert(p == 0);
                    }
                }
                assert(ctx.last().red) by {
                    assert(n0[p as int].red == ctx.last().red);
                }
                assert(ctx.len() >= 2) by {
                    if ctx.len() == 1 {
                        assert(ctx[0] == ctx.last());
                    }
                }
            }
            let ghost f1 = ctx.last();
            let ghost ctx1 = ctx.drop_last();
            let ghost f2 = ctx1.last();
            let ghost ctx2 = ctx1.drop_last();
            proof {
                assert(ctx_inv(ctx1, n0, f1.i));
                assert(ctx_inv(ctx2, n0, f2.i));
                assert(ctx_idxs(ctx) =~= ctx_idxs(ctx1).union(f1.sib.idxs()).insert(f1.i));
                assert(ctx_idxs(ctx1) =~= ctx_idxs(ctx2).union(f2.sib.idxs()).insert(f2.i));
                assert(f1.sib.rb_ok() && f1.sib.bh() == h && f1.sib.is_black());
                assert(ctx_rb(ctx1, h, true));
                assert(f2.sib.rb_ok() && f2.sib.bh() == h && !f2.red);
                assert(ctx_rb(ctx2, h + 1, false));
            }
            let pp = self.nodes[p].parent;
            proof {
                assert(pp as int == f2.i);
                assert(f2.sib.root_idx() != f1.i) by {
                    if f2.sib is Node {
                        assert(f2.sib.idxs().contains(f2.sib.root_idx()));
                        assert(ctx_idxs(ctx1).contains(f2.sib.root_idx()));
                    }
                }
            }
            let dir: usize = if self.nodes[pp].children[0] == p {
                1
            } else {
                0
            };
            proof {
                assert(dir as int == 1 - f2.side);
            }
            let y = self.nodes[pp].children[dir];
            proof {
                assert(y as int == f2.sib.root_idx());
                assert((y as int) < n0.len()) by {
                    if f2.sib is Node {
                        lemma_idx_positive(f2.sib, n0, f2.i, y as int);
                    }
                }
                assert(n0[y as int].red == !f2.sib.is_black()) by {
                    if f2.sib is Nil {
                        assert(y == 0);
                    }
                }
            }
            if self.nodes[y].red {
                let res = self.fixup_recolor_up(p, y, pp, Ghost(ctx), Ghost(sub));
                zz = pp;
                proof {
                    ctx = res.0@;
                    sub = res.1@;
                }
                p = self.nodes[zz].parent;
                proof {
                    lemma_plug_inv(ctx, sub, self.nodes@);
                    assert(p as int == ctx_parent(ctx));
                    if ctx.len() > 0 {
                        lemma_ctx_idxs_positive(ctx, self.nodes@, zz as int, ctx_parent(ctx));
                    }
                }
            } else {
                proof {
                    assert(f2.sib.is_black());
                    assert(f1.sib.root_idx() != zz as int) by {
                        if f1.sib is Node {
                            assert(f1.sib.idxs().contains(f1.sib.root_idx()));
                            assert(!sub.idxs().contains(f1.sib.root_idx())) by {
                                assert(ctx_idxs(ctx).contains(f1.sib.root_idx()));
                            }
                        } else {
                            assert(f1.sib.root_idx() == 0);
                        }
                    }
                }
                if zz == self.nodes[p].children[dir] {
                    proof {
                        assert(f1.side == dir as int);
                    }
                    zz = p;
                    let res = self.fixup_inner_rotate(zz, dir, Ghost(ctx), Ghost(sub));
                    proof {
                        ctx = res.0@;
                        sub = res.1@;
                    }
                } else {
                    proof {
                        assert(f1.side == 1 - dir as int) by {
                            assert(n0[p as int].kid(f1.side) == zz as int);
                        }
                        assert(outer_case(ctx, sub, zz as int, h));
                    }
                }
                let res = self.fixup_outer_rotate(zz, Ghost(ctx), Ghost(sub));
                proof {
                    ctx = res@;
                }
                p = self.nodes[zz].parent;
                proof {
                    lemma_plug_inv(ctx, sub, self.nodes@);
                    assert(p as int == ctx_parent(ctx));
                    if ctx.len() > 0 {
                        lemma_ctx_idxs_positive(ctx, self.nodes@, zz as int, ctx_parent(ctx));
                    }
                }
            }
        }
        // Blacken the root.
        let ghost tpre = self.sh();
        let ghost npre = self.nodes@;
        proof {
            lemma_plug_inv(ctx, sub, npre);
            if ctx.len() > 0 {
                assert(!ctx.last().red) by {
                    assert(npre[p as int].red == ctx.last().red);
                }
            }
            lemma_plug_root(ctx, sub);
        }
        let r = self.root;
        let mut nr = self.nodes[r];
        nr.red = false;
        self.put(r, nr);
        if self.nil_sentinel == 0 {
            proof {
                let nf = self.nodes@;
                if ctx.len() == 0 {
                    self.shape = Ghost(sub.recolor(false));
                    assert(r as int == sub.root_idx());
                    assert forall|j: int|
                        #[trigger] sub.idxs().contains(j) && j != sub.root_idx() implies 0 <= j
                        < nf.len() && nf[j] == npre[j] by {
                        lemma_idx_positive(sub, npre, 0, j);
                    }
                    lemma_shape_inv_recolor(sub, npre, nf, 0, false);
                    assert(self.link_inv()) by {
                        assert(all_bounded(nf));
                        assert(nf[0] == npre[0]) by {
                            assert(r != 0);
                        }
                    }
                    assert(self.color_inv());
                } else {
                    assert(r as int == ctx[0].i);
                    assert(npre[r as int].red == false) by {
                        assert(shape_inv(tpre, npre, 0));
                        assert(!tpre.is_black() == false);
                    }
                    assert(nr == npre[r as int]);
                    assert(nf =~= npre);
                    assert(self.sh() == tpre);
                    assert(self.link_inv());
                    lemma_ctx_rb_strengthen(ctx, sub.bh(), !sub.is_black());
                    lemma_plug_rb(ctx, sub);
                    assert(self.color_inv());
                }
            }
        }
    }

    /// Red-uncle step of the insertion fixup: recolor the parent and uncle
    /// black and the grandparent red; the violation, if any remains, is now
    /// at the grandparent.
    #[verifier::rlimit(100)]
    fn fixup_recolor_up(
        &mut self,
        p: usize,
        y: usize,
        pp: usize,
        Ghost(ctx): Ghost<Seq<Frame>>,
        Ghost(sub): Ghost<Shape>,
    ) -> (res: (Ghost<Seq<Frame>>, Ghost<Shape>))
        requires
            old(self).link_inv(),
            plug(ctx, sub) == old(self).sh(),
            ctx_sides(ctx),
            ctx.len() >= 2,
            sub is Node,
            !sub.is_black(),
            sub.rb_ok(),
            ctx.last().red,
            ctx.last().i == p as int,
            ctx.drop_last().last().i == pp as int,
            ctx.drop_last().last().sib.root_idx() == y as int,
            !ctx.drop_last().last().sib.is_black(),
            ctx_rb_almost(ctx, sub.bh()),
            !ctx[0].red,
        ensures
            final(self).link_inv(),
            final(self).key_multiset() == old(self).key_multiset(),
            final(self).sh().idxs() == old(self).sh().idxs(),
            final(self).slot_count() == old(self).slot_count(),
            plug(res.0@, res.1@) == final(self).sh(),
            ctx_sides(res.0@),
            res.1@ is Node,
            !res.1@.is_black(),
            res.1@.rb_ok(),
            res.1@.root_idx() == pp as int,
            ctx_rb_almost(res.0@, res.1@.bh()),
            res.0@.len() > 0 ==> !res.0@[0].red,
            res.0@.len() == ctx.len() - 2,
    {
        let ghost n0 = self.nodes@;
        let ghost h = sub.bh();
        let ghost f1 = ctx.last();
        let ghost ctx1 = ctx.drop_last();
        let ghost f2 = ctx1.last();
        let ghost ctx2 = ctx1.drop_last();
        let ghost u = f2.sib;
        let ghost zz = sub.root_idx();
        proof {
            lemma_plug_inv(ctx, sub, n0);
            assert(ctx_inv(ctx, n0, zz));
            assert(ctx_inv(ctx1, n0, f1.i));
            assert(ctx_inv(ctx2, n0, f2.i));
            assert(ctx_idxs(ctx) =~= ctx_idxs(ctx1).union(f1.sib.idxs()).insert(f1.i));
            assert(ctx_idxs(ctx1) =~= ctx_idxs(ctx2).union(u.idxs()).insert(f2.i));
            assert(f1.sib.rb_ok() && f1.sib.bh() == h && f1.sib.is_black());
            assert(ctx_rb(ctx1, h, true));
            assert(u.rb_ok() && u.bh() == h && !f2.red);
            assert(ctx_rb(ctx2, h + 1, false));
            assert(u is Node);
            assert(0 < y as int && (y as int) < n0.len()) by {
                lemma_idx_positive(u, n0, f2.i, y as int);
            }
        }
        let mut np = self.nodes[p];
        np.red = false;
        self.put(p, np);
        let mut nu = self.nodes[y];
        nu.red = false;
        self.put(y, nu);
        let mut npp = self.nodes[pp];
        npp.red = true;
        self.put(pp, npp);
        let ghost f1n = Frame { side: f1.side, i: f1.i, k: f1.k, red: false, sib: f1.sib };
        let ghost f2n = Frame { side: f2.side, i: f2.i, k: f2.k, red: true, sib: u.blacken() };
        let ghost sub2 = wrap(f2n, wrap(f1n, sub));
        self.shape = Ghost(plug(ctx2, sub2));
        proof {
            let nf = self.nodes@;
            assert(u.blacken() == u.recolor(false));
            assert forall|j: int|
                #[trigger] u.idxs().contains(j) && j != u.root_idx() implies 0 <= j < nf.len()
                    && nf[j] == n0[j] by {
                lemma_idx_positive(u, n0, f2.i, j);
                assert(ctx_idxs(ctx1).contains(j));
                assert(j != f1.i && j != f2.i && j != y as int);
            }
            lemma_shape_inv_recolor(u, n0, nf, f2.i, false);
            assert forall|j: int| #[trigger] sub.idxs().contains(j) implies 0 <= j < nf.len()
                && nf[j] == n0[j] by {
                lemma_idx_positive(sub, n0, f1.i, j);
                assert(!ctx_idxs(ctx).contains(j));
                assert(!u.idxs().contains(j) && j != y as int);
            }
            lemma_shape_inv_frame(sub, n0, nf, f1.i);
            assert forall|j: int| #[trigger] f1.sib.idxs().contains(j) implies 0 <= j < nf.len()
                && nf[j] == n0[j] by {
                lemma_idx_positive(f1.sib, n0, f1.i, j);
                assert((f1.sib.idxs().insert(f1.i)).contains(j));
                assert(!ctx_idxs(ctx1).contains(j));
                assert(ctx_idxs(ctx1).contains(f2.i));
                assert(u.idxs().contains(j) ==> ctx_idxs(ctx1).contains(j));
                assert(u.idxs().contains(y as int) || u is Nil);
                assert(j != f1.i && j != f2.i && j != y as int && !u.idxs().contains(j));
            }
            lemma_shape_inv_frame(f1.sib, n0, nf, f1.i);
            assert(shape_inv(wrap(f1n, sub), nf, f2.i)) by {
                if f1.side == 0 {
                } else {
                }
            }
            assert(wrap(f1n, sub).idxs() =~= sub.idxs().union(f1.sib.idxs()).insert(f1.i)) by {
                if f1.side == 0 {
                    assert(wrap(f1n, sub).idxs() == sub.idxs().union(f1.sib.idxs()).insert(f1.i));
                } else {
                    assert(wrap(f1n, sub).idxs() == f1.sib.idxs().union(sub.idxs()).insert(f1.i));
                }
            }
            assert(!wrap(f1n, sub).idxs().contains(f2.i)) by {
                assert(ctx_idxs(ctx1).contains(f2.i));
                assert(!ctx_idxs(ctx).contains(f2.i) || !sub.idxs().contains(f2.i));
                assert(!sub.idxs().contains(f2.i));
            }
            assert(wrap(f1n, sub).idxs().disjoint(u.blacken().idxs())) by {
                assert(u.blacken().idxs() =~= u.idxs());
                assert forall|j: int|
                    wrap(f1n, sub).idxs().contains(j) implies !u.idxs().contains(j) by {
                    if u.idxs().contains(j) {
                        assert(ctx_idxs(ctx1).contains(j));
                        assert(!(f1.sib.idxs().insert(f1.i)).contains(j));
                        assert(ctx_idxs(ctx).contains(j));
                        assert(!sub.idxs().contains(j));
                    }
                }
            }
            assert(!u.blacken().idxs().contains(f2.i)) by {
                assert(u.blacken().idxs() =~= u.idxs());
            }
            assert(shape_inv(sub2, nf, ctx_parent(ctx2))) by {
                if f2.side == 0 {
                } else {
                }
            }
            assert forall|j: int| #[trigger] ctx_idxs(ctx2).contains(j) implies 0 <= j < nf.len()
                && nf[j] == n0[j] by {
                lemma_ctx_idxs_positive(ctx2, n0, f2.i, j);
                assert(!(u.idxs().insert(f2.i)).contains(j));
                assert(!(f1.sib.idxs().insert(f1.i)).contains(j)) by {
                    assert(ctx_idxs(ctx1).contains(j));
                }
                assert(j != p as int && j != y as int && j != pp as int);
            }
            lemma_ctx_inv_frame(ctx2, n0, nf, f2.i);
            assert(sub2.idxs() =~= wrap(f1n, sub).idxs().union(u.idxs()).insert(f2.i)) by {
                assert(u.blacken().idxs() == u.idxs()) by {
                    assert(u.blacken().idxs() =~= u.idxs());
                }
                if f2.side == 0 {
                } else {
                }
            }
            assert(ctx_idxs(ctx2).disjoint(sub2.idxs())) by {
                assert forall|j: int| ctx_idxs(ctx2).contains(j) implies !sub2.idxs().contains(
                    j,
                ) by {
                    assert(ctx_idxs(ctx1).contains(j) && ctx_idxs(ctx).contains(j));
                }
            }
            assert(ctx_sides(ctx2)) by {
                assert forall|j: int|
                    0 <= j < ctx2.len() implies (#[trigger] ctx2[j]).side == 0 || ctx2[j].side
                    == 1 by {
                    assert(ctx2[j] == ctx[j]);
                }
            }
            lemma_plug_inv(ctx2, sub2, nf);
            assert(shape_inv(self.sh(), nf, 0));
            let oldw = wrap(f2, wrap(f1, sub));
            assert(plug(ctx, sub) == plug(ctx1, wrap(f1, sub)));
            assert(plug(ctx1, wrap(f1, sub)) == plug(ctx2, oldw));
            assert(plug(ctx, sub) == plug(ctx2, oldw));
            assert(sub2.keys() =~= oldw.keys() && sub2.idxs() =~= oldw.idxs() && (oldw.sorted()
                ==> sub2.sorted())) by {
                assert(u.blacken().keys() =~= u.keys());
                assert(u.blacken().idxs() =~= u.idxs());
                assert(wrap(f1n, sub).keys() =~= wrap(f1, sub).keys());
                assert(wrap(f1n, sub).idxs() =~= wrap(f1, sub).idxs());
                assert(wrap(f1, sub).sorted() ==> wrap(f1n, sub).sorted()) by {
                    if f1.side == 0 {
                    } else {
                    }
                }
                if f2.side == 0 {
                    if f1.side == 0 {
                    } else {
                    }
                } else {
                    if f1.side == 0 {
                    } else {
                    }
                }
            }
            lemma_plug_sorted(ctx2, oldw);
            lemma_plug_sorted(ctx2, sub2);
            assert(self.sh().sorted());
            lemma_plug_keys(ctx2, oldw);
            lemma_plug_keys(ctx2, sub2);
            assert(self.key_multiset() =~= old(self).key_multiset());
            lemma_plug_idxs(ctx2, oldw);
            lemma_plug_idxs(ctx2, sub2);
            assert(self.sh().idxs() =~= old(self).sh().idxs());
            assert(self.link_inv()) by {
                assert(all_bounded(nf));
                assert(nf[0] == n0[0]) by {
                    assert(p != 0 && y != 0 && pp != 0);
                }
                if ctx2.len() > 0 {
                    lemma_plug_root(ctx2, sub2);
                    lemma_plug_root(ctx, sub);
                    assert(ctx2[0] == ctx[0]);
                }
            }
            assert(sub2.rb_ok() && !sub2.is_black() && sub2.bh() == h + 1) by {
                assert(u.blacken().rb_ok() && u.blacken().bh() == h + 1 && u.blacken().is_black())
                    by {
                    assert(!u.is_black());
                }
                assert(wrap(f1n, sub).rb_ok() && wrap(f1n, sub).bh() == h + 1 && wrap(
                    f1n,
                    sub,
                ).is_black()) by {
                    if f1.side == 0 {
                    } else {
                    }
                }
                if f2.side == 0 {
                } else {
                }
            }
            lemma_ctx_rb_weaken(ctx2, h + 1, false);
            if ctx2.len() > 0 {
                assert(!ctx2[0].red) by {
                    assert(ctx2[0] == ctx[0]);
                }
            }
            assert(sub2.root_idx() == pp as int);
        }
        (Ghost(ctx2), Ghost(sub2))
    }

    /// Inner-grandchild step of the insertion fixup: rotate the red node up
    /// through its red parent, converting to the outer case.  `zz` is the
    /// red parent (the caller has already stepped `z` up to it) and `dir` is
    /// the uncle's side on the grandparent.
    #[verifier::rlimit(100)]
    fn fixup_inner_rotate(
        &mut self,
        zz: usize,
        dir: usize,
        Ghost(ctx): Ghost<Seq<Frame>>,
        Ghost(sub): Ghost<Shape>,
    ) -> (res: (Ghost<Seq<Frame>>, Ghost<Shape>))
        requires
            old(self).link_inv(),
            plug(ctx, sub) == old(self).sh(),
            ctx_sides(ctx),
            ctx.len() >= 2,
            sub is Node,
            !sub.is_black(),
            sub.rb_ok(),
            ctx.last().red,
            ctx.last().i == zz as int,
            ctx.last().side == dir as int,
            dir as int == 1 - ctx.drop_last().last().side,
            ctx.last().sib.rb_ok(),
            ctx.last().sib.bh() == sub.bh(),
            ctx.last().sib.is_black(),
            !ctx.drop_last().last().red,
            ctx.drop_last().last().sib.rb_ok(),
            ctx.drop_last().last().sib.bh() == sub.bh(),
            ctx.drop_last().last().sib.is_black(),
            ctx_rb(ctx.drop_last().drop_last(), sub.bh() + 1, false),
            !ctx[0].red,
        ensures
            final(self).link_inv(),
            final(self).key_multiset() == old(self).key_multiset(),
            final(self).sh().idxs() == old(self).sh().idxs(),
            final(self).slot_count() == old(self).slot_count(),
            plug(res.0@, res.1@) == final(self).sh(),
            res.1@.root_idx() == zz as int,
            res.0@.len() == ctx.len(),
            outer_case(res.0@, res.1@, zz as int, sub.bh()),
    {
        let ghost n0 = self.nodes@;
        let ghost h = sub.bh();
        let ghost f1 = ctx.last();
        let ghost ctx1 = ctx.drop_last();
        let ghost f2 = ctx1.last();
        let ghost ctx2 = ctx1.drop_last();
        let ghost u = f2.sib;
        let ghost sub_g = wrap(f2, wrap(f1, sub));
        proof {
            lemma_plug_inv(ctx, sub, n0);
            assert(ctx_inv(ctx, n0, sub.root_idx()));
            assert(ctx_inv(ctx1, n0, f1.i));
            assert(ctx_inv(ctx2, n0, f2.i));
            assert(ctx_idxs(ctx) =~= ctx_idxs(ctx1).union(f1.sib.idxs()).insert(f1.i));
            assert(ctx_idxs(ctx1) =~= ctx_idxs(ctx2).union(u.idxs()).insert(f2.i));
            assert((dir ^ 1) == 1 - dir && (dir ^ 1) < 2) by (bit_vector)
                requires
                    dir < 2,
            ;
            assert(plug(ctx, sub) == plug(ctx1, wrap(f1, sub)));
            assert(plug(ctx1, wrap(f1, sub)) == plug(ctx2, sub_g));
            lemma_ctx_inv_distinct(ctx2, n0, f2.i);
            assert(wrap(f1, sub).idxs() =~= sub.idxs().union(f1.sib.idxs()).insert(f1.i)) by {
                if f1.side == 0 {
                } else {
                }
            }
            assert(sub_g.idxs() =~= wrap(f1, sub).idxs().union(u.idxs()).insert(f2.i)) by {
                if f2.side == 0 {
                } else {
                }
            }
            assert(ctx_idxs(ctx2).disjoint(sub_g.idxs())) by {
                assert forall|j: int| ctx_idxs(ctx2).contains(j) implies !sub_g.idxs().contains(
                    j,
                ) by {
                    assert(ctx_idxs(ctx1).contains(j) && ctx_idxs(ctx).contains(j));
                }
            }
            assert(sub_g.idxs().contains(zz as int));
            lemma_rotate_at_plug(ctx2, sub_g, zz as int, (dir ^ 1) as int);
            assert(sub_g.subtree_at(zz as int) == wrap(f1, sub)) by {
                assert(!u.idxs().contains(f1.i)) by {
                    assert(ctx_idxs(ctx1).contains(f1.i) == false);
                }
                assert(wrap(f1, sub).idxs().contains(f1.i));
                assert(shape_inv(wrap(f1, sub), n0, f2.i)) by {
                    if f2.side == 0 {
                    } else {
                    }
                }
                lemma_subtree_root(wrap(f1, sub), n0, f2.i);
                if f2.side == 0 {
                } else {
                }
            }
            assert(wrap(f1, sub).child(1 - (dir ^ 1) as int) == sub) by {
                if f1.side == 0 {
                } else {
                }
            }
        }
        self.rotate(zz, dir ^ 1);
        let ghost zfr = Frame {
            side: f2.side,
            i: sub.root_idx(),
            k: sub.key(),
            red: true,
            sib: sub.child(1 - f2.side),
        };
        let ghost sub_m = wrap(f1, sub.child(f2.side));
        let ghost ctx_m = ctx2.push(f2).push(zfr);
        proof {
            assert(local_rot(wrap(f1, sub), f2.side) == wrap(zfr, sub_m)) by {
                if f2.side == 0 {
                } else {
                }
            }
            assert(rotate_at(sub_g, zz as int, f2.side) == wrap(f2, wrap(zfr, sub_m))) by {
                assert(!u.idxs().contains(zz as int)) by {
                    assert((f1.sib.idxs().insert(f1.i)).contains(zz as int));
                    assert(!ctx_idxs(ctx1).contains(zz as int));
                    assert(u.idxs().contains(zz as int) ==> ctx_idxs(ctx1).contains(zz as int));
                }
                assert(f2.i != zz as int) by {
                    assert(ctx_idxs(ctx1).contains(f2.i));
                    assert(!ctx_idxs(ctx1).contains(zz as int)) by {
                        assert((f1.sib.idxs().insert(f1.i)).contains(zz as int));
                    }
                }
                assert(wrap(f1, sub).idxs().contains(zz as int));
                assert(rotate_at(wrap(f1, sub), zz as int, f2.side) == local_rot(
                    wrap(f1, sub),
                    f2.side,
                ));
                if f2.side == 0 {
                } else {
                }
            }
            lemma_plug_push(ctx2.push(f2), zfr, sub_m);
            lemma_plug_push(ctx2, f2, wrap(zfr, sub_m));
            assert(self.sh() == plug(ctx_m, sub_m));
            assert(ctx_sides(ctx_m)) by {
                assert forall|j: int|
                    0 <= j < ctx_m.len() implies (#[trigger] ctx_m[j]).side == 0 || ctx_m[j].side
                    == 1 by {
                    if j < ctx2.len() {
                        assert(ctx_m[j] == ctx2.push(f2).push(zfr)[j]);
                        assert(ctx_m[j] == ctx[j]);
                    } else if j == ctx2.len() {
                        assert(ctx_m[j] == f2);
                    } else {
                        assert(ctx_m[j] == zfr);
                    }
                }
            }
            assert(sub.left().rb_ok() && sub.right().rb_ok() && sub.left().bh() == h
                && sub.right().bh() == h && sub.left().is_black() && sub.right().is_black());
            assert(sub_m is Node && !sub_m.is_black() && sub_m.rb_ok() && sub_m.bh() == h
                && sub_m.root_idx() == zz as int) by {
                if f1.side == 0 {
                } else {
                }
            }
            assert(ctx_m.last() == zfr);
            assert(ctx_m.drop_last() =~= ctx2.push(f2));
            assert(ctx2.push(f2).last() == f2);
            assert(ctx2.push(f2).drop_last() =~= ctx2);
            assert(zfr.sib.rb_ok() && zfr.sib.bh() == h && zfr.sib.is_black()) by {
                if f2.side == 0 {
                } else {
                }
            }
            assert(ctx_m[0].red == ctx_m.first().red);
            assert(!ctx_m[0].red) by {
                if ctx2.len() > 0 {
                    assert(ctx_m[0] == ctx[0]);
                } else {
                    assert(ctx_m[0] == f2);
                }
            }
            assert(outer_case(ctx_m, sub_m, zz as int, h));
        }
        (Ghost(ctx_m), Ghost(sub_m))
    }

    /// Outer-grandchild step of the insertion fixup: recolor the parent
    /// black and the grandparent red, then rotate the grandparent toward the
    /// uncle.  This ends the climb: the subtree is again a valid red-black
    /// subtree under a black node.
    #[verifier::rlimit(100)]
    fn fixup_outer_rotate(
        &mut self,
        zz: usize,
        Ghost(ctx): Ghost<Seq<Frame>>,
        Ghost(sub): Ghost<Shape>,
    ) -> (res: Ghost<Seq<Frame>>)
        requires
            old(self).link_inv(),
            plug(ctx, sub) == old(self).sh(),
            outer_case(ctx, sub, zz as int, sub.bh()),
        ensures
            final(self).link_inv(),
            final(self).key_multiset() == old(self).key_multiset(),
            final(self).sh().idxs() == old(self).sh().idxs(),
            final(self).slot_count() == old(self).slot_count(),
            plug(res@, sub) == final(self).sh(),
            ctx_sides(res@),
            res@.len() == ctx.len() - 1,
            ctx_rb_almost(res@, sub.bh()),
            res@.len() > 0 ==> !res@[0].red,
    {
        let ghost n0 = self.nodes@;
        let ghost h = sub.bh();
        let ghost g1 = ctx.last();
        let ghost ctx1 = ctx.drop_last();
        let ghost f2 = ctx1.last();
        let ghost ctx2 = ctx1.drop_last();
        let ghost u = f2.sib;
        proof {
            lemma_plug_inv(ctx, sub, n0);
            assert(ctx_inv(ctx, n0, zz as int));
            assert(ctx_inv(ctx1, n0, g1.i));
            assert(ctx_inv(ctx2, n0, f2.i));
            assert(ctx_idxs(ctx) =~= ctx_idxs(ctx1).union(g1.sib.idxs()).insert(g1.i));
            assert(ctx_idxs(ctx1) =~= ctx_idxs(ctx2).union(u.idxs()).insert(f2.i));
        }
        let p2 = self.nodes[zz].parent;
        let pp2 = self.nodes[p2].parent;
        let dir: usize = if self.nodes[pp2].children[0] == p2 {
            1
        } else {
            0
        };
        proof {
            assert(p2 as int == g1.i && pp2 as int == f2.i);
            assert(p2 != 0 && pp2 != 0);
            assert(u.root_idx() != g1.i) by {
                if u is Node {
                    assert(u.idxs().contains(u.root_idx()));
                    assert(ctx_idxs(ctx1).contains(u.root_idx()));
                }
            }
            assert(dir as int == 1 - f2.side);
        }
        let mut np2 = self.nodes[p2];
        np2.red = false;
        self.put(p2, np2);
        let mut npp2 = self.nodes[pp2];
        npp2.red = true;
        self.put(pp2, npp2);
        let ghost g1n = Frame { side: g1.side, i: g1.i, k: g1.k, red: false, sib: g1.sib };
        let ghost f2n = Frame { side: f2.side, i: f2.i, k: f2.k, red: true, sib: u };
        let ghost sub_g = wrap(f2n, wrap(g1n, sub));
        self.shape = Ghost(plug(ctx2, sub_g));
        proof {
            let nf = self.nodes@;
            assert forall|j: int| #[trigger] sub.idxs().contains(j) implies 0 <= j < nf.len()
                && nf[j] == n0[j] by {
                lemma_idx_positive(sub, n0, g1.i, j);
                assert(!ctx_idxs(ctx).contains(j));
            }
            lemma_shape_inv_frame(sub, n0, nf, g1.i);
            assert forall|j: int| #[trigger] g1.sib.idxs().contains(j) implies 0 <= j < nf.len()
                && nf[j] == n0[j] by {
                lemma_idx_positive(g1.sib, n0, g1.i, j);
                assert((g1.sib.idxs().insert(g1.i)).contains(j));
                assert(!ctx_idxs(ctx1).contains(j));
                assert(ctx_idxs(ctx1).contains(f2.i));
                assert(j != g1.i && j != f2.i);
            }
            lemma_shape_inv_frame(g1.sib, n0, nf, g1.i);
            assert forall|j: int| #[trigger] u.idxs().contains(j) implies 0 <= j < nf.len()
                && nf[j] == n0[j] by {
                lemma_idx_positive(u, n0, f2.i, j);
                assert(ctx_idxs(ctx1).contains(j));
                assert(!(g1.sib.idxs().insert(g1.i)).contains(j));
                assert(j != g1.i && j != f2.i);
            }
            lemma_shape_inv_frame(u, n0, nf, f2.i);
            assert(shape_inv(wrap(g1n, sub), nf, f2.i)) by {
                if g1.side == 0 {
                } else {
                }
            }
            assert(wrap(g1n, sub).idxs() =~= sub.idxs().union(g1.sib.idxs()).insert(g1.i)) by {
                if g1.side == 0 {
                    assert(wrap(g1n, sub).idxs() == sub.idxs().union(g1.sib.idxs()).insert(g1.i));
                } else {
                    assert(wrap(g1n, sub).idxs() == g1.sib.idxs().union(sub.idxs()).insert(g1.i));
                }
            }
            assert(!wrap(g1n, sub).idxs().contains(f2.i)) by {
                assert(ctx_idxs(ctx1).contains(f2.i));
                assert(!sub.idxs().contains(f2.i));
            }
            assert(wrap(g1n, sub).idxs().disjoint(u.idxs())) by {
                assert forall|j: int|
                    wrap(g1n, sub).idxs().contains(j) implies !u.idxs().contains(j) by {
                    if u.idxs().contains(j) {
                        assert(ctx_idxs(ctx1).contains(j));
                        assert(!(g1.sib.idxs().insert(g1.i)).contains(j));
                        assert(ctx_idxs(ctx).contains(j));
                        assert(!sub.idxs().contains(j));
                    }
                }
            }
            assert(shape_inv(sub_g, nf, ctx_parent(ctx2))) by {
                if f2.side == 0 {
                } else {
                }
            }
            assert forall|j: int| #[trigger] ctx_idxs(ctx2).contains(j) implies 0 <= j < nf.len()
                && nf[j] == n0[j] by {
                lemma_ctx_idxs_positive(ctx2, n0, f2.i, j);
                assert(ctx_idxs(ctx1).contains(j) && ctx_idxs(ctx).contains(j));
                assert(j != p2 as int && j != pp2 as int);
            }
            lemma_ctx_inv_frame(ctx2, n0, nf, f2.i);
            assert(sub_g.idxs() =~= wrap(g1n, sub).idxs().union(u.idxs()).insert(f2.i)) by {
                if f2.side == 0 {
                } else {
                }
            }
            assert(ctx_idxs(ctx2).disjoint(sub_g.idxs())) by {
                assert forall|j: int| ctx_idxs(ctx2).contains(j) implies !sub_g.idxs().contains(
                    j,
                ) by {
                    assert(ctx_idxs(ctx1).contains(j) && ctx_idxs(ctx).contains(j));
                }
            }
            assert(ctx_sides(ctx2)) by {
                assert forall|j: int|
                    0 <= j < ctx2.len() implies (#[trigger] ctx2[j]).side == 0 || ctx2[j].side
                    == 1 by {
                    assert(ctx2[j] == ctx[j]);
                }
            }
            lemma_plug_inv(ctx2, sub_g, nf);
            assert(shape_inv(self.sh(), nf, 0));
            let oldw = wrap(f2, wrap(g1, sub));
            assert(plug(ctx, sub) == plug(ctx1, wrap(g1, sub)));
            assert(plug(ctx1, wrap(g1, sub)) == plug(ctx2, oldw));
            assert(plug(ctx, sub) == plug(ctx2, oldw));
            assert(sub_g.keys() =~= oldw.keys() && sub_g.idxs() =~= oldw.idxs() && (oldw.sorted()
                ==> sub_g.sorted())) by {
                assert(wrap(g1n, sub).keys() =~= wrap(g1, sub).keys());
                assert(wrap(g1n, sub).idxs() =~= wrap(g1, sub).idxs());
                assert(wrap(g1, sub).sorted() ==> wrap(g1n, sub).sorted()) by {
                    if g1.side == 0 {
                    } else {
                    }
                }
                if f2.side == 0 {
                    if g1.side == 0 {
                    } else {
                    }
                } else {
                    if g1.side == 0 {
                    } else {
                    }
                }
            }
            lemma_plug_sorted(ctx2, oldw);
            lemma_plug_sorted(ctx2, sub_g);
            lemma_plug_keys(ctx2, oldw);
            lemma_plug_keys(ctx2, sub_g);
            lemma_plug_idxs(ctx2, oldw);
            lemma_plug_idxs(ctx2, sub_g);
            assert(self.link_inv()) by {
                assert(all_bounded(nf));
                assert(nf[0] == n0[0]);
                if ctx2.len() > 0 {
                    lemma_plug_root(ctx2, sub_g);
                    lemma_plug_root(ctx, sub);
                    assert(ctx2[0] == ctx[0]);
                }
            }
            // Rotate the recolored grandparent toward the uncle.
            lemma_ctx_inv_distinct(ctx2, nf, sub_g.root_idx());
            assert(sub_g.idxs().contains(pp2 as int));
            lemma_rotate_at_plug(ctx2, sub_g, pp2 as int, dir as int);
            assert(sub_g.subtree_at(pp2 as int) == sub_g) by {
                lemma_subtree_root(sub_g, nf, ctx_parent(ctx2));
            }
            assert(sub_g.child(1 - dir as int) == wrap(g1n, sub) && wrap(g1n, sub) is Node) by {
                if f2.side == 0 {
                } else {
                }
            }
        }
        self.rotate(pp2, dir);
        let ghost fin = Frame {
            side: f2.side,
            i: g1.i,
            k: g1.k,
            red: false,
            sib: wrap(Frame { side: f2.side, i: f2.i, k: f2.k, red: true, sib: u }, g1.sib),
        };
        let ghost ctx_f = ctx2.push(fin);
        proof {
            assert(local_rot(sub_g, dir as int) == wrap(fin, sub)) by {
                if f2.side == 0 {
                } else {
                }
            }
            assert(rotate_at(sub_g, pp2 as int, dir as int) == local_rot(sub_g, dir as int));
            lemma_plug_push(ctx2, fin, sub);
            assert(self.sh() == plug(ctx_f, sub));
            assert(ctx_sides(ctx_f)) by {
                assert forall|j: int|
                    0 <= j < ctx_f.len() implies (#[trigger] ctx_f[j]).side == 0 || ctx_f[j].side
                    == 1 by {
                    if j < ctx2.len() {
                        assert(ctx_f[j] == ctx[j]);
                    } else {
                        assert(ctx_f[j] == fin);
                    }
                }
            }
            assert(ctx_rb_almost(ctx_f, h)) by {
                assert(ctx_f.last() == fin);
                assert(ctx_f.drop_last() =~= ctx2);
                assert(fin.sib.rb_ok() && fin.sib.bh() == h && !fin.sib.is_black()) by {
                    if f2.side == 0 {
                    } else {
                    }
                }
                assert(ctx_rb(ctx2, h + 1, false));
            }
            assert(ctx_f.len() > 0 ==> !ctx_f[0].red) by {
                if ctx2.len() > 0 {
                    assert(ctx_f[0] == ctx[0]);
                } else {
                    assert(ctx_f[0] == fin);
                }
            }
        }
        Ghost(ctx_f)
    }

    /// Unlink the node at `y`, which has at most one real child, by
    /// installing that child (or the sentinel) in its place.  The slot `y`
    /// itself is not reclaimed here.
    #[verifier::rlimit(100)]
    fn splice(&mut self, y: usize, Ghost(ctx): Ghost<Seq<Frame>>, Ghost(suby): Ghost<Shape>) -> (x:
        usize)
        requires
            old(self).link_inv(),
            plug(ctx, suby) == old(self).sh(),
            ctx_sides(ctx),
            suby is Node,
            suby.root_idx() == y as int,
            suby.left() is Nil || suby.right() is Nil,
        ensures
            final(self).link_inv(),
            final(self).sh() == plug(ctx, splice_rest(suby)),
            x as int == splice_rest(suby).root_idx(),
            final(self).key_multiset() == old(self).key_multiset().remove(suby.key()),
            final(self).sh().idxs() == old(self).sh().idxs().remove(y as int),
            final(self).slot_count() == old(self).slot_count(),
            final(self).free@ == old(self).free@,
            final(self).nodes@[0].pi() == ctx_parent(ctx) || splice_rest(suby) is Node,
    {
        let ghost n0 = self.nodes@;
        let ghost xv = splice_rest(suby);
        proof {
            lemma_plug_inv(ctx, suby, n0);
            assert(ctx_inv(ctx, n0, y as int));
            assert(shape_inv(suby, n0, ctx_parent(ctx)));
            lemma_plug_keys(ctx, suby);
            lemma_plug_idxs(ctx, suby);
            lemma_plug_sorted(ctx, suby);
            lemma_ctx_inv_distinct(ctx, n0, y as int);
        }
        let dir: usize = if self.nodes[y].children[0] != self.nil_sentinel {
            0
        } else {
            1
        };
        let x = self.nodes[y].children[dir];
        proof {
            assert(shape_inv(suby.left(), n0, y as int) && shape_inv(suby.right(), n0, y as int));
            assert(x as int == xv.root_idx()) by {
                if suby.left() is Node {
                    assert(n0[y as int].kid(0) == suby.left().root_idx());
                    assert(suby.left().root_idx() > 0);
                } else {
                    assert(n0[y as int].kid(0) == 0);
                }
            }
            assert(xv is Node ==> shape_inv(xv, n0, y as int));
            assert(xv is Nil ==> x == 0);
            assert((x as int) < n0.len());
            assert(suby.keys() =~= xv.keys().insert(suby.key())) by {
                if suby.left() is Node {
                    assert(suby.right().keys() =~= Multiset::<u64>::empty());
                } else {
                    assert(suby.left().keys() =~= Multiset::<u64>::empty());
                }
            }
            assert(suby.idxs() =~= xv.idxs().insert(y as int)) by {
                if suby.left() is Node {
                    assert(suby.right().idxs() =~= Set::<int>::empty());
                } else {
                    assert(suby.left().idxs() =~= Set::<int>::empty());
                }
            }
        }
        let yp = self.nodes[y].parent;
        proof {
            assert(yp as int == ctx_parent(ctx));
        }
        let mut nx = self.nodes[x];
        nx.parent = yp;
        self.put(x, nx);
        if yp == self.nil_sentinel {
            self.root = x;
            proof {
                assert(ctx.len() == 0);
            }
        } else {
            let sib_dir: usize = if self.nodes[yp].children[0] == y {
                0
            } else {
                1
            };
            proof {
                let f = ctx.last();
                assert(ctx.len() > 0);
                assert(f.i == yp as int);
                assert(n0[yp as int].kid(f.side) == y as int);
                assert(f.sib.root_idx() != y as int) by {
                    if f.sib is Node {
                        assert(f.sib.idxs().contains(f.sib.root_idx()));
                        assert(ctx_idxs(ctx).contains(f.sib.root_idx()));
                    }
                }
                assert(sib_dir as int == f.side);
            }
            let mut np = self.nodes[yp];
            np.children[sib_dir] = x;
            self.put(yp, np);
        }
        self.shape = Ghost(plug(ctx, xv));
        proof {
            let nf = self.nodes@;
            assert(shape_inv(xv, nf, yp as int)) by {
                if xv is Node {
                    assert forall|j: int|
                        #[trigger] xv.idxs().contains(j) && j != xv.root_idx() implies 0 <= j
                        < nf.len() && nf[j] == n0[j] by {
                        lemma_idx_positive(xv, n0, y as int, j);
                        assert(suby.idxs().contains(j));
                        assert(!ctx_idxs(ctx).contains(j));
                        assert(j != y as int);
                    }
                    lemma_shape_inv_reparent(xv, n0, nf, y as int, yp as int);
                }
            }
            if ctx.len() == 0 {
                assert(plug(ctx, xv) == xv);
                assert(ctx_inv(ctx, nf, xv.root_idx()));
            } else {
                assert forall|j: int|
                    #[trigger] ctx_idxs(ctx).contains(j) && j != ctx.last().i implies 0 <= j
                    < nf.len() && nf[j] == n0[j] by {
                    lemma_ctx_idxs_positive(ctx, n0, y as int, j);
                    assert(!suby.idxs().contains(j));
                    assert(j != y as int && j != x as int);
                }
                lemma_ctx_inv_update_hole(ctx, n0, nf, y as int, xv.root_idx());
                lemma_plug_root(ctx, suby);
                lemma_plug_root(ctx, xv);
            }
            assert(ctx_idxs(ctx).disjoint(xv.idxs())) by {
                assert forall|j: int| ctx_idxs(ctx).contains(j) implies !xv.idxs().contains(j) by {
                    assert(!suby.idxs().contains(j));
                }
            }
            lemma_plug_inv(ctx, xv, nf);
            assert(shape_inv(self.sh(), nf, 0));
            lemma_plug_sorted(ctx, xv);
            assert(self.sh().sorted()) by {
                assert forall|q: u64| xv.keys().contains(q) implies in_hole_range(ctx, q) by {
                    assert(suby.keys().contains(q));
                }
            }
            lemma_plug_keys(ctx, xv);
            assert(self.key_multiset() =~= old(self).key_multiset().remove(suby.key()));
            lemma_plug_idxs(ctx, xv);
            assert(self.sh().idxs() =~= old(self).sh().idxs().remove(y as int)) by {
                assert(!ctx_idxs(ctx).contains(y as int));
                assert(!xv.idxs().contains(y as int));
            }
            assert(self.link_inv()) by {
                assert(all_bounded(nf));
                assert(nf[0].kid(0) == n0[0].kid(0) && nf[0].kid(1) == n0[0].kid(1) && nf[0].red
                    == n0[0].red) by {
                    assert(y != 0 && yp as int != 0 || ctx.len() == 0);
                }
            }
            assert(nf[0].pi() == ctx_parent(ctx) || xv is Node) by {
                if xv is Nil {
                    assert(x == 0);
                }
            }
        }
        x
    }

    /// Red-sibling step of the deletion fixup: recolor the sibling black and
    /// the parent red, then rotate the parent toward the hole; the new
    /// sibling (the old sibling's near child) is black.
    #[verifier::rlimit(100)]
    fn dfix_sib_red(
        &mut self,
        x: usize,
        p: usize,
        w: usize,
        Ghost(ctx): Ghost<Seq<Frame>>,
        Ghost(sub): Ghost<Shape>,
    ) -> (res: Ghost<Seq<Frame>>)
        requires
            old(self).link_inv(),
            plug(ctx, sub) == old(self).sh(),
            dstate(ctx, sub, x as int),
            sub.is_black(),
            ctx.len() > 0,
            ctx.last().i == p as int,
            ctx.last().sib.root_idx() == w as int,
            !ctx.last().sib.is_black(),
        ensures
            final(self).link_inv(),
            final(self).key_multiset() == old(self).key_multiset(),
            final(self).sh().idxs() == old(self).sh().idxs(),
            final(self).slot_count() == old(self).slot_count(),
            final(self).free_list() == old(self).free_list(),
            final(self).sentinel_parent() == old(self).sentinel_parent(),
            plug(res@, sub) == final(self).sh(),
            dstate(res@, sub, x as int),
            res@.len() == ctx.len() + 1,
            res@.last().i == p as int,
            res@.last().red,
            res@.last().side == ctx.last().side,
            res@.last().sib == ctx.last().sib.child(ctx.last().side),
            res@.last().sib.is_black(),
            res@.last().sib is Node,
    {
        let ghost n0 = self.nodes@;
        let ghost h = sub.bh();
        let ghost f = ctx.last();
        let ghost ctx1 = ctx.drop_last();
        let ghost sib = f.sib;
        let ghost near = sib.child(f.side);
        let ghost far = sib.child(1 - f.side);
        proof {
            lemma_plug_inv(ctx, sub, n0);
            assert(ctx_inv(ctx, n0, x as int));
            assert(ctx_inv(ctx1, n0, f.i));
            assert(ctx_idxs(ctx) =~= ctx_idxs(ctx1).union(sib.idxs()).insert(f.i));
            assert(sib is Node);
            assert(!f.red);
            assert(ctx_rb(ctx1, h + 2, false));
            assert(shape_inv(sib, n0, f.i));
            assert(near.rb_ok() && near.bh() == h + 1 && near.is_black() && far.rb_ok()
                && far.bh() == h + 1 && far.is_black()) by {
                if f.side == 0 {
                } else {
                }
            }
            assert(near is Node) by {
                if near is Nil {
                    assert(near.bh() == 0);
                }
            }
            assert(shape_inv(near, n0, w as int) && shape_inv(far, n0, w as int)) by {
                if f.side == 0 {
                } else {
                }
            }
            assert(sib.idxs() =~= near.idxs().union(far.idxs()).insert(w as int)) by {
                if f.side == 0 {
                } else {
                }
            }
            assert(0 < w as int && (w as int) < n0.len());
            assert(p != 0 && p != w);
        }
        let mut nw = self.nodes[w];
        nw.red = false;
        self.put(w, nw);
        let mut np = self.nodes[p];
        np.red = true;
        self.put(p, np);
        let ghost sib_b = sib.blacken();
        let ghost fr = Frame { side: f.side, i: f.i, k: f.k, red: true, sib: sib_b };
        let ghost sub_p = wrap(fr, sub);
        self.shape = Ghost(plug(ctx1, sub_p));
        proof {
            let nf = self.nodes@;
            assert(sib_b == sib.recolor(false));
            assert forall|j: int|
                #[trigger] sib.idxs().contains(j) && j != sib.root_idx() implies 0 <= j < nf.len()
                    && nf[j] == n0[j] by {
                lemma_idx_positive(sib, n0, f.i, j);
                assert(j != f.i && j != w as int);
            }
            lemma_shape_inv_recolor(sib, n0, nf, f.i, false);
            assert forall|j: int| #[trigger] sub.idxs().contains(j) implies 0 <= j < nf.len()
                && nf[j] == n0[j] by {
                lemma_idx_positive(sub, n0, f.i, j);
                assert(!ctx_idxs(ctx).contains(j));
            }
            lemma_shape_inv_frame(sub, n0, nf, f.i);
            assert(shape_inv(sub_p, nf, ctx_parent(ctx1))) by {
                if f.side == 0 {
                } else {
                }
            }
            assert forall|j: int| #[trigger] ctx_idxs(ctx1).contains(j) implies 0 <= j < nf.len()
                && nf[j] == n0[j] by {
                lemma_ctx_idxs_positive(ctx1, n0, f.i, j);
                assert(!(sib.idxs().insert(f.i)).contains(j));
                assert(j != p as int && j != w as int);
            }
            lemma_ctx_inv_frame(ctx1, n0, nf, f.i);
            assert(sub_p.idxs() =~= sub.idxs().union(sib.idxs()).insert(f.i)) by {
                assert(sib_b.idxs() =~= sib.idxs());
                if f.side == 0 {
                } else {
                }
            }
            assert(ctx_idxs(ctx1).disjoint(sub_p.idxs())) by {
                assert forall|j: int| ctx_idxs(ctx1).contains(j) implies !sub_p.idxs().contains(
                    j,
                ) by {
                    assert(ctx_idxs(ctx).contains(j) || (sib.idxs().insert(f.i)).contains(j));
                    assert(ctx_idxs(ctx).contains(j));
                }
            }
            assert(ctx_sides(ctx1)) by {
                assert forall|j: int|
                    0 <= j < ctx1.len() implies (#[trigger] ctx1[j]).side == 0 || ctx1[j].side
                    == 1 by {
                    assert(ctx1[j] == ctx[j]);
                }
            }
            lemma_plug_inv(ctx1, sub_p, nf);
            assert(shape_inv(self.sh(), nf, 0));
            let oldw = wrap(f, sub);
            assert(plug(ctx, sub) == plug(ctx1, oldw));
            assert(sub_p.keys() =~= oldw.keys() && sub_p.idxs() =~= oldw.idxs() && (oldw.sorted()
                ==> sub_p.sorted())) by {
                assert(sib_b.keys() =~= sib.keys());
                assert(sib_b.idxs() =~= sib.idxs());
                if f.side == 0 {
                } else {
                }
            }
            lemma_plug_sorted(ctx1, oldw);
            lemma_plug_sorted(ctx1, sub_p);
            lemma_plug_keys(ctx1, oldw);
            lemma_plug_keys(ctx1, sub_p);
            lemma_plug_idxs(ctx1, oldw);
            lemma_plug_idxs(ctx1, sub_p);
            assert(self.link_inv()) by {
                assert(all_bounded(nf));
                assert(nf[0] == n0[0]);
                if ctx1.len() > 0 {
                    lemma_plug_root(ctx1, sub_p);
                    lemma_plug_root(ctx, sub);
                    assert(ctx1[0] == ctx[0]);
                }
            }
            // Set up the rotation of the recolored parent.
            lemma_ctx_inv_distinct(ctx1, nf, sub_p.root_idx());
            assert(sub_p.idxs().contains(p as int));
            lemma_rotate_at_plug(ctx1, sub_p, p as int, f.side);
            assert(sub_p.subtree_at(p as int) == sub_p) by {
                lemma_subtree_root(sub_p, nf, ctx_parent(ctx1));
            }
            assert(sub_p.child(1 - f.side) == sib_b && sib_b is Node) by {
                if f.side == 0 {
                } else {
                }
            }
        }
        let dd: usize = if self.nodes[p].children[0] == x {
            0
        } else {
            1
        };
        proof {
            assert(sub.root_idx() != sib_b.root_idx()) by {
                if sub is Node {
                    assert(ctx_idxs(ctx).contains(w as int));
                    assert(sub.idxs().contains(sub.root_idx()));
                } else {
                    assert(sub.root_idx() == 0);
                }
            }
            assert(dd as int == f.side);
        }
        self.rotate(p, dd);
        let ghost wf = Frame {
            side: f.side,
            i: w as int,
            k: sib.key(),
            red: false,
            sib: far,
        };
        let ghost pf = Frame { side: f.side, i: f.i, k: f.k, red: true, sib: near };
        let ghost ctx_n = ctx1.push(wf).push(pf);
        proof {
            assert(local_rot(sub_p, f.side) == wrap(wf, wrap(pf, sub))) by {
                if f.side == 0 {
                } else {
                }
            }
            assert(rotate_at(sub_p, p as int, f.side) == local_rot(sub_p, f.side));
            lemma_plug_push(ctx1.push(wf), pf, sub);
            lemma_plug_push(ctx1, wf, wrap(pf, sub));
            assert(self.sh() == plug(ctx_n, sub));
            assert(ctx_sides(ctx_n)) by {
                assert forall|j: int|
                    0 <= j < ctx_n.len() implies (#[trigger] ctx_n[j]).side == 0 || ctx_n[j].side
                    == 1 by {
                    if j < ctx1.len() {
                        assert(ctx_n[j] == ctx[j]);
                    } else if j == ctx1.len() {
                        assert(ctx_n[j] == wf);
                    } else {
                        assert(ctx_n[j] == pf);
                    }
                }
            }
            assert(ctx_rb_almost(ctx_n, h + 1)) by {
                assert(ctx_n.last() == pf);
                assert(ctx_n.drop_last() =~= ctx1.push(wf));
                assert(ctx1.push(wf).last() == wf);
                assert(ctx1.push(wf).drop_last() =~= ctx1);
                assert(near.rb_ok() && near.bh() == h + 1 && near.is_black());
                assert(far.rb_ok() && far.bh() == h + 1 && far.is_black());
                assert(ctx_rb(ctx1.push(wf), h + 1, true));
            }
            assert(ctx_n.len() > 0 && !ctx_n[0].red) by {
                if ctx1.len() > 0 {
                    assert(ctx_n[0] == ctx[0]);
                } else {
                    assert(ctx_n[0] == wf);
                }
            }
            assert(dstate(ctx_n, sub, x as int));
        }
        Ghost(ctx_n)
    }

    /// Near-child-red step of the deletion fixup: recolor the sibling's near
    /// child black and the sibling red, then rotate the sibling away from
    /// the hole.  The new sibling is black with a red far child.
    #[verifier::rlimit(100)]
    fn dfix_near_red(
        &mut self,
        x: usize,
        p: usize,
        w: usize,
        Ghost(ctx): Ghost<Seq<Frame>>,
        Ghost(sub): Ghost<Shape>,
    ) -> (res: Ghost<Seq<Frame>>)
        requires
            old(self).link_inv(),
            plug(ctx, sub) == old(self).sh(),
            dstate(ctx, sub, x as int),
            sub.is_black(),
            ctx.len() > 0,
            ctx.last().i == p as int,
            ctx.last().sib.root_idx() == w as int,
            ctx.last().sib.is_black(),
            ctx.last().sib is Node,
            ctx.last().sib.child(1 - ctx.last().side).is_black(),
            !ctx.last().sib.child(ctx.last().side).is_black(),
        ensures
            final(self).link_inv(),
            final(self).key_multiset() == old(self).key_multiset(),
            final(self).sh().idxs() == old(self).sh().idxs(),
            final(self).slot_count() == old(self).slot_count(),
            final(self).free_list() == old(self).free_list(),
            final(self).sentinel_parent() == old(self).sentinel_parent(),
            plug(res@, sub) == final(self).sh(),
            dstate(res@, sub, x as int),
            res@.len() == ctx.len(),
            res@.last().i == p as int,
            res@.last().red == ctx.last().red,
            res@.last().side == ctx.last().side,
            res@.last().sib.is_black(),
            res@.last().sib is Node,
            !res@.last().sib.child(1 - ctx.last().side).is_black(),
    {
        let ghost n0 = self.nodes@;
        let ghost h = sub.bh();
        let ghost f = ctx.last();
        let ghost ctx1 = ctx.drop_last();
        let ghost sib = f.sib;
        let ghost near = sib.child(f.side);
        let ghost far = sib.child(1 - f.side);
        proof {
            lemma_plug_inv(ctx, sub, n0);
            assert(ctx_inv(ctx, n0, x as int));
            assert(ctx_inv(ctx1, n0, f.i));
            assert(ctx_idxs(ctx) =~= ctx_idxs(ctx1).union(sib.idxs()).insert(f.i));
            assert(sib.bh() == h + 1 && sib.rb_ok());
            assert(ctx_rb(ctx1, h + 1 + if f.red {
                0nat
            } else {
                1nat
            }, f.red));
            assert(shape_inv(sib, n0, f.i));
            assert(near.rb_ok() && far.rb_ok() && near.bh() == h && far.bh() == h) by {
                if f.side == 0 {
                } else {
                }
            }
            assert(near is Node) by {
                if near is Nil {
                    assert(near.is_black());
                }
            }
            assert(shape_inv(near, n0, w as int) && shape_inv(far, n0, w as int)) by {
                if f.side == 0 {
                } else {
                }
            }
            assert(sib.idxs() =~= near.idxs().union(far.idxs()).insert(w as int)) by {
                if f.side == 0 {
                } else {
                }
            }
            assert(near.left().rb_ok() && near.right().rb_ok() && near.left().bh() == h
                && near.right().bh() == h && near.left().is_black() && near.right().is_black());
            assert(shape_inv(near.left(), n0, near.root_idx()) && shape_inv(
                near.right(),
                n0,
                near.root_idx(),
            ));
            assert(0 < w as int && (w as int) < n0.len());
            assert(p != 0 && p != w);
        }
        let dd: usize = if self.nodes[p].children[0] == x {
            0
        } else {
            1
        };
        proof {
            assert(sub.root_idx() != sib.root_idx()) by {
                if sub is Node {
                    assert(ctx_idxs(ctx).contains(w as int));
                    assert(sub.idxs().contains(sub.root_idx()));
                } else {
                    assert(sub.root_idx() == 0);
                }
            }
            assert(dd as int == f.side);
        }
        let nr = self.nodes[w].children[dd];
        proof {
            assert(nr as int == near.root_idx());
            assert(0 < nr as int && (nr as int) < n0.len()) by {
                lemma_idx_positive(near, n0, w as int, nr as int);
            }
            assert(nr != w && nr != p) by {
                assert(near.idxs().contains(nr as int));
                assert(ctx_idxs(ctx1).contains(f.i) == false);
            }
        }
        let mut nn = self.nodes[nr];
        nn.red = false;
        self.put(nr, nn);
        let mut nw = self.nodes[w];
        nw.red = true;
        self.put(w, nw);
        let ghost near_b = near.blacken();
        let ghost sib2 = wrap(
            Frame { side: f.side, i: w as int, k: sib.key(), red: true, sib: far },
            near_b,
        );
        let ghost fr = Frame { side: f.side, i: f.i, k: f.k, red: f.red, sib: sib2 };
        let ghost sub_p = wrap(fr, sub);
        self.shape = Ghost(plug(ctx1, sub_p));
        proof {
            let nf = self.nodes@;
            assert(near_b == near.recolor(false));
            assert forall|j: int|
                #[trigger] near.idxs().contains(j) && j != near.root_idx() implies 0 <= j
                < nf.len() && nf[j] == n0[j] by {
                lemma_idx_positive(near, n0, w as int, j);
                assert(sib.idxs().contains(j));
                assert(j != f.i && j != w as int);
            }
            lemma_shape_inv_recolor(near, n0, nf, w as int, false);
            assert forall|j: int| #[trigger] far.idxs().contains(j) implies 0 <= j < nf.len()
                && nf[j] == n0[j] by {
                lemma_idx_positive(far, n0, w as int, j);
                assert(sib.idxs().contains(j));
                assert(!near.idxs().contains(j));
                assert(j != f.i && j != w as int && j != nr as int);
            }
            lemma_shape_inv_frame(far, n0, nf, w as int);
            assert forall|j: int| #[trigger] sub.idxs().contains(j) implies 0 <= j < nf.len()
                && nf[j] == n0[j] by {
                lemma_idx_positive(sub, n0, f.i, j);
                assert(!ctx_idxs(ctx).contains(j));
                assert(!sib.idxs().contains(j));
                assert(j != nr as int && j != w as int);
            }
            lemma_shape_inv_frame(sub, n0, nf, f.i);
            assert(shape_inv(sib2, nf, f.i)) by {
                assert(near_b.idxs() =~= near.idxs());
                assert(!near.idxs().contains(w as int) && !far.idxs().contains(w as int)
                    && near.idxs().disjoint(far.idxs()));
                if f.side == 0 {
                } else {
                }
            }
            assert(sib2.idxs() =~= sib.idxs()) by {
                assert(near_b.idxs() =~= near.idxs());
                if f.side == 0 {
                } else {
                }
            }
            assert(sib2.keys() =~= sib.keys()) by {
                assert(near_b.keys() =~= near.keys());
                if f.side == 0 {
                } else {
                }
            }
            assert(shape_inv(sub_p, nf, ctx_parent(ctx1))) by {
                if f.side == 0 {
                } else {
                }
            }
            assert forall|j: int| #[trigger] ctx_idxs(ctx1).contains(j) implies 0 <= j < nf.len()
                && nf[j] == n0[j] by {
                lemma_ctx_idxs_positive(ctx1, n0, f.i, j);
                assert(!(sib.idxs().insert(f.i)).contains(j));
                assert(j != nr as int && j != w as int);
            }
            lemma_ctx_inv_frame(ctx1, n0, nf, f.i);
            assert(sub_p.idxs() =~= sub.idxs().union(sib.idxs()).insert(f.i)) by {
                if f.side == 0 {
                } else {
                }
            }
            assert(ctx_idxs(ctx1).disjoint(sub_p.idxs())) by {
                assert forall|j: int| ctx_idxs(ctx1).contains(j) implies !sub_p.idxs().contains(
                    j,
                ) by {
                    assert(ctx_idxs(ctx).contains(j));
                }
            }
            assert(ctx_sides(ctx1)) by {
                assert forall|j: int|
                    0 <= j < ctx1.len() implies (#[trigger] ctx1[j]).side == 0 || ctx1[j].side
                    == 1 by {
                    assert(ctx1[j] == ctx[j]);
                }
            }
            lemma_plug_inv(ctx1, sub_p, nf);
            assert(shape_inv(self.sh(), nf, 0));
            let oldw = wrap(f, sub);
            assert(plug(ctx, sub) == plug(ctx1, oldw));
            assert(sib.sorted() ==> sib2.sorted()) by {
                if sib.sorted() {
                    assert(near_b.keys() =~= near.keys());
                    assert(near.sorted() ==> near_b.sorted());
                    assert forall|q: u64| near_b.keys().contains(q) implies near.keys().contains(
                        q,
                    ) by {}
                    if f.side == 0 {
                        assert(near.sorted() && near.key_le(sib.key()));
                        assert(near_b.key_le(sib.key()));
                        assert(sib2.sorted());
                    } else {
                        assert(near.sorted() && near.key_ge(sib.key()));
                        assert(near_b.key_ge(sib.key()));
                        assert(sib2.sorted());
                    }
                }
            }
            assert(sub_p.keys() =~= oldw.keys() && sub_p.idxs() =~= oldw.idxs() && (oldw.sorted()
                ==> sub_p.sorted())) by {
                if f.side == 0 {
                } else {
                }
            }
            lemma_plug_sorted(ctx1, oldw);
            lemma_plug_sorted(ctx1, sub_p);
            lemma_plug_keys(ctx1, oldw);
            lemma_plug_keys(ctx1, sub_p);
            lemma_plug_idxs(ctx1, oldw);
            lemma_plug_idxs(ctx1, sub_p);
            assert(self.link_inv()) by {
                assert(all_bounded(nf));
                assert(nf[0] == n0[0]);
                if ctx1.len() > 0 {
                    lemma_plug_root(ctx1, sub_p);
                    lemma_plug_root(ctx, sub);
                    assert(ctx1[0] == ctx[0]);
                }
            }
            // Rotate the recolored sibling away from the hole.
            lemma_ctx_inv_distinct(ctx1, nf, sub_p.root_idx());
            assert(sub_p.idxs().contains(w as int)) by {
                assert(sib.idxs().contains(w as int));
            }
            lemma_rotate_at_plug(ctx1, sub_p, w as int, 1 - f.side);
            assert(sub_p.subtree_at(w as int) == sib2) by {
                assert(!sub.idxs().contains(w as int));
                assert(sib2.idxs().contains(w as int));
                assert(shape_inv(sib2, nf, f.i));
                lemma_subtree_root(sib2, nf, f.i);
                if f.side == 0 {
                } else {
                }
            }
            assert(sib2.child(1 - (1 - f.side)) == near_b && near_b is Node) by {
                if f.side == 0 {
                } else {
                }
            }
        }
        let ee: usize = if dd == 0 {
            1
        } else {
            0
        };
        self.rotate(w, ee);
        let ghost sib3 = wrap(
            Frame {
                side: 1 - f.side,
                i: near.root_idx(),
                k: near.key(),
                red: false,
                sib: near.child(f.side),
            },
            wrap(
                Frame {
                    side: f.side,
                    i: w as int,
                    k: sib.key(),
                    red: true,
                    sib: far,
                },
                near.child(1 - f.side),
            ),
        );
        let ghost fr3 = Frame { side: f.side, i: f.i, k: f.k, red: f.red, sib: sib3 };
        let ghost ctx_n = ctx1.push(fr3);
        proof {
            assert(local_rot(sib2, 1 - f.side) == sib3) by {
                if f.side == 0 {
                } else {
                }
            }
            assert(rotate_at(sub_p, w as int, 1 - f.side) == wrap(fr3, sub)) by {
                assert(!sub.idxs().contains(w as int));
                assert(sib2.idxs().contains(w as int));
                assert(rotate_at(sib2, w as int, 1 - f.side) == local_rot(sib2, 1 - f.side));
                if f.side == 0 {
                } else {
                }
            }
            lemma_plug_push(ctx1, fr3, sub);
            assert(self.sh() == plug(ctx_n, sub));
            assert(ctx_sides(ctx_n)) by {
                assert forall|j: int|
                    0 <= j < ctx_n.len() implies (#[trigger] ctx_n[j]).side == 0 || ctx_n[j].side
                    == 1 by {
                    if j < ctx1.len() {
                        assert(ctx_n[j] == ctx[j]);
                    } else {
                        assert(ctx_n[j] == fr3);
                    }
                }
            }
            assert(sib3.rb_ok() && sib3.bh() == h + 1 && sib3.is_black()) by {
                let wnode = wrap(
                    Frame { side: f.side, i: w as int, k: sib.key(), red: true, sib: far },
                    near.child(1 - f.side),
                );
                assert(far.is_black() && far.rb_ok() && far.bh() == h);
                assert(near.child(1 - f.side).is_black() && near.child(1 - f.side).rb_ok()
                    && near.child(1 - f.side).bh() == h && near.child(f.side).is_black()
                    && near.child(f.side).rb_ok() && near.child(f.side).bh() == h) by {
                    if f.side == 0 {
                    } else {
                    }
                }
                assert(wnode.rb_ok() && wnode.bh() == h && !wnode.is_black()) by {
                    if f.side == 0 {
                    } else {
                    }
                }
                if f.side == 0 {
                } else {
                }
            }
            assert(ctx_rb_almost(ctx_n, h + 1)) by {
                assert(ctx_n.last() == fr3);
                assert(ctx_n.drop_last() =~= ctx1);
            }
            assert(ctx_n.len() > 0 && !ctx_n[0].red) by {
                if ctx1.len() > 0 {
                    assert(ctx_n[0] == ctx[0]);
                } else {
                    assert(ctx_n[0] == fr3);
                    assert(ctx[0] == f);
                }
            }
            assert(!sib3.child(1 - f.side).is_black()) by {
                if f.side == 0 {
                } else {
                }
            }
            assert(dstate(ctx_n, sub, x as int));
        }
        Ghost(ctx_n)
    }

    /// Far-child-red step of the deletion fixup: the sibling takes the
    /// parent's color, the parent and the far child turn black, and the
    /// parent rotates toward the hole.  This restores the full red-black
    /// conditions: the missing black unit is supplied by the recolored
    /// parent.
    #[verifier::rlimit(100)]
    fn dfix_far_red(
        &mut self,
        x: usize,
        p: usize,
        w: usize,
        Ghost(ctx): Ghost<Seq<Frame>>,
        Ghost(sub): Ghost<Shape>,
    )
        requires
            old(self).link_inv(),
            plug(ctx, sub) == old(self).sh(),
            dstate(ctx, sub, x as int),
            sub.is_black(),
            ctx.len() > 0,
            ctx.last().i == p as int,
            ctx.last().sib.root_idx() == w as int,
            ctx.last().sib.is_black(),
            ctx.last().sib is Node,
            !ctx.last().sib.child(1 - ctx.last().side).is_black(),
        ensures
            final(self).link_inv(),
            final(self).key_multiset() == old(self).key_multiset(),
            final(self).sh().idxs() == old(self).sh().idxs(),
            final(self).slot_count() == old(self).slot_count(),
            final(self).free_list() == old(self).free_list(),
            final(self).sentinel_parent() == old(self).sentinel_parent(),
            final(self).sh().rb_ok(),
            final(self).sh() is Node,
            ctx.len() >= 2 ==> final(self).sh().is_black(),
    {
        let ghost n0 = self.nodes@;
        let ghost h = sub.bh();
        let ghost f = ctx.last();
        let ghost ctx1 = ctx.drop_last();
        let ghost sib = f.sib;
        let ghost near = sib.child(f.side);
        let ghost far = sib.child(1 - f.side);
        proof {
            lemma_plug_inv(ctx, sub, n0);
            assert(ctx_inv(ctx, n0, x as int));
            assert(ctx_inv(ctx1, n0, f.i));
            assert(ctx_idxs(ctx) =~= ctx_idxs(ctx1).union(sib.idxs()).insert(f.i));
            assert(sib.bh() == h + 1 && sib.rb_ok());
            assert(ctx_rb(ctx1, h + 1 + if f.red {
                0nat
            } else {
                1nat
            }, f.red));
            assert(shape_inv(sib, n0, f.i));
            assert(near.rb_ok() && far.rb_ok() && near.bh() == h && far.bh() == h) by {
                if f.side == 0 {
                } else {
                }
            }
            assert(far is Node) by {
                if far is Nil {
                    assert(far.is_black());
                }
            }
            assert(shape_inv(near, n0, w as int) && shape_inv(far, n0, w as int)) by {
                if f.side == 0 {
                } else {
                }
            }
            assert(sib.idxs() =~= near.idxs().union(far.idxs()).insert(w as int)) by {
                if f.side == 0 {
                } else {
                }
            }
            assert(0 < w as int && (w as int) < n0.len());
            assert(p != 0 && p != w);
        }
        let dd: usize = if self.nodes[p].children[0] == x {
            0
        } else {
            1
        };
        proof {
            assert(sub.root_idx() != sib.root_idx()) by {
                if sub is Node {
                    assert(ctx_idxs(ctx).contains(w as int));
                    assert(sub.idxs().contains(sub.root_idx()));
                } else {
                    assert(sub.root_idx() == 0);
                }
            }
            assert(dd as int == f.side);
        }
        let ee: usize = if dd == 0 {
            1
        } else {
            0
        };
        let fr_root = self.nodes[w].children[ee];
        proof {
            assert(fr_root as int == far.root_idx());
            assert(0 < fr_root as int && (fr_root as int) < n0.len()) by {
                lemma_idx_positive(far, n0, w as int, fr_root as int);
            }
            assert(fr_root != w && fr_root != p) by {
                assert(far.idxs().contains(fr_root as int));
                assert(ctx_idxs(ctx1).contains(f.i) == false);
            }
        }
        let pc = self.nodes[p].red;
        let mut nw = self.nodes[w];
        nw.red = pc;
        self.put(w, nw);
        let mut np = self.nodes[p];
        np.red = false;
        self.put(p, np);
        let mut nfar = self.nodes[fr_root];
        nfar.red = false;
        self.put(fr_root, nfar);
        let ghost far_b = far.blacken();
        let ghost sib2 = wrap(
            Frame { side: f.side, i: w as int, k: sib.key(), red: f.red, sib: far_b },
            near,
        );
        let ghost fr2 = Frame { side: f.side, i: f.i, k: f.k, red: false, sib: sib2 };
        let ghost sub_p = wrap(fr2, sub);
        self.shape = Ghost(plug(ctx1, sub_p));
        proof {
            let nf = self.nodes@;
            assert(pc == f.red);
            assert(far_b == far.recolor(false));
            assert forall|j: int|
                #[trigger] far.idxs().contains(j) && j != far.root_idx() implies 0 <= j < nf.len()
                    && nf[j] == n0[j] by {
                lemma_idx_positive(far, n0, w as int, j);
                assert(sib.idxs().contains(j));
                assert(j != f.i && j != w as int);
            }
            lemma_shape_inv_recolor(far, n0, nf, w as int, false);
            assert forall|j: int| #[trigger] near.idxs().contains(j) implies 0 <= j < nf.len()
                && nf[j] == n0[j] by {
                lemma_idx_positive(near, n0, w as int, j);
                assert(sib.idxs().contains(j));
                assert(!far.idxs().contains(j));
                assert(j != f.i && j != w as int && j != fr_root as int);
            }
            lemma_shape_inv_frame(near, n0, nf, w as int);
            assert forall|j: int| #[trigger] sub.idxs().contains(j) implies 0 <= j < nf.len()
                && nf[j] == n0[j] by {
                lemma_idx_positive(sub, n0, f.i, j);
                assert(!ctx_idxs(ctx).contains(j));
                assert(!sib.idxs().contains(j));
                assert(j != fr_root as int && j != w as int);
            }
            lemma_shape_inv_frame(sub, n0, nf, f.i);
            assert(shape_inv(sib2, nf, f.i)) by {
                assert(far_b.idxs() =~= far.idxs());
                assert(!near.idxs().contains(w as int) && !far.idxs().contains(w as int)
                    && near.idxs().disjoint(far.idxs()));
                if f.side == 0 {
                } else {
                }
            }
            assert(sib2.idxs() =~= sib.idxs() && sib2.keys() =~= sib.keys()) by {
                assert(far_b.idxs() =~= far.idxs());
                assert(far_b.keys() =~= far.keys());
                if f.side == 0 {
                } else {
                }
            }
            assert(shape_inv(sub_p, nf, ctx_parent(ctx1))) by {
                if f.side == 0 {
                } else {
                }
            }
            assert forall|j: int| #[trigger] ctx_idxs(ctx1).contains(j) implies 0 <= j < nf.len()
                && nf[j] == n0[j] by {
                lemma_ctx_idxs_positive(ctx1, n0, f.i, j);
                assert(!(sib.idxs().insert(f.i)).contains(j));
                assert(j != fr_root as int && j != w as int && j != p as int);
            }
            lemma_ctx_inv_frame(ctx1, n0, nf, f.i);
            assert(sub_p.idxs() =~= sub.idxs().union(sib.idxs()).insert(f.i)) by {
                if f.side == 0 {
                } else {
                }
            }
            assert(ctx_idxs(ctx1).disjoint(sub_p.idxs())) by {
                assert forall|j: int| ctx_idxs(ctx1).contains(j) implies !sub_p.idxs().contains(
                    j,
                ) by {
                    assert(ctx_idxs(ctx).contains(j));
                }
            }
            assert(ctx_sides(ctx1)) by {
                assert forall|j: int|
                    0 <= j < ctx1.len() implies (#[trigger] ctx1[j]).side == 0 || ctx1[j].side
                    == 1 by {
                    assert(ctx1[j] == ctx[j]);
                }
            }
            lemma_plug_inv(ctx1, sub_p, nf);
            assert(shape_inv(self.sh(), nf, 0));
            let oldw = wrap(f, sub);
            assert(plug(ctx, sub) == plug(ctx1, oldw));
            assert(sib.sorted() ==> sib2.sorted()) by {
                if sib.sorted() {
                    assert(far_b.keys() =~= far.keys());
                    assert(far.sorted() ==> far_b.sorted());
                    assert forall|q: u64| far_b.keys().contains(q) implies far.keys().contains(
                        q,
                    ) by {}
                    if f.side == 0 {
                        assert(far.sorted() && far.key_ge(sib.key()));
                        assert(far_b.key_ge(sib.key()));
                        assert(sib2.sorted());
                    } else {
                        assert(far.sorted() && far.key_le(sib.key()));
                        assert(far_b.key_le(sib.key()));
                        assert(sib2.sorted());
                    }
                }
            }
            assert(sub_p.keys() =~= oldw.keys() && sub_p.idxs() =~= oldw.idxs() && (oldw.sorted()
                ==> sub_p.sorted())) by {
                if f.side == 0 {
                } else {
                }
            }
            lemma_plug_sorted(ctx1, oldw);
            lemma_plug_sorted(ctx1, sub_p);
            lemma_plug_keys(ctx1, oldw);
            lemma_plug_keys(ctx1, sub_p);
            lemma_plug_idxs(ctx1, oldw);
            lemma_plug_idxs(ctx1, sub_p);
            assert(self.link_inv()) by {
                assert(all_bounded(nf));
                assert(nf[0] == n0[0]);
                if ctx1.len() > 0 {
                    lemma_plug_root(ctx1, sub_p);
                    lemma_plug_root(ctx, sub);
                    assert(ctx1[0] == ctx[0]);
                }
            }
            // Rotate the now-black parent toward the hole.
            lemma_ctx_inv_distinct(ctx1, nf, sub_p.root_idx());
            assert(sub_p.idxs().contains(p as int));
            lemma_rotate_at_plug(ctx1, sub_p, p as int, f.side);
            assert(sub_p.subtree_at(p as int) == sub_p) by {
                lemma_subtree_root(sub_p, nf, ctx_parent(ctx1));
            }
            assert(sub_p.child(1 - f.side) == sib2 && sib2 is Node) by {
                if f.side == 0 {
                } else {
                }
            }
        }
        self.rotate(p, dd);
        let ghost fin = wrap(
            Frame {
                side: f.side,
                i: w as int,
                k: sib.key(),
                red: f.red,
                sib: far_b,
            },
            wrap(Frame { side: f.side, i: f.i, k: f.k, red: false, sib: near }, sub),
        );
        proof {
            assert(local_rot(sub_p, f.side) == fin) by {
                if f.side == 0 {
                } else {
                }
            }
            assert(rotate_at(sub_p, p as int, f.side) == local_rot(sub_p, f.side));
            assert(self.sh() == plug(ctx1, fin));
            let pnode = wrap(Frame { side: f.side, i: f.i, k: f.k, red: false, sib: near }, sub);
            assert(sub.rb_ok()) by {
                assert(sub.kids_rb() && sub.is_black());
                if sub is Nil {
                } else {
                }
            }
            assert(pnode.rb_ok() && pnode.bh() == h + 1 && pnode.is_black()) by {
                if f.side == 0 {
                } else {
                }
            }
            assert(far_b.rb_ok() && far_b.bh() == h + 1 && far_b.is_black()) by {
                assert(!far.is_black());
            }
            assert(fin.rb_ok() && fin.bh() == h + 1 + if f.red {
                0nat
            } else {
                1nat
            } && fin.is_black() == !f.red) by {
                if f.side == 0 {
                } else {
                }
            }
            lemma_plug_rb(ctx1, fin);
            assert(self.sh().rb_ok());
            lemma_plug_root(ctx1, fin);
            if ctx.len() >= 2 {
                assert(ctx1.len() > 0);
                assert(ctx1[0] == ctx[0]);
                assert(self.sh().is_black());
            }
        }
    }

    /// Rebalance after removing a black node.  On entry the subtree at the
    /// hole is one black unit short; the loop pushes the deficit up or
    /// resolves it by the classic four cases (red sibling: rotate it up;
    /// black sibling with black children: recolor it red and climb; black
    /// sibling with red near child: rotate to expose a red far child; red
    /// far child: recolor and rotate, absorbing the deficit), then blackens
    /// the final carrier.
    #[verifier::loop_isolation(false)]
    #[verifier::rlimit(100)]
    fn delete_fixup(&mut self, x: usize, Ghost(ctx0): Ghost<Seq<Frame>>, Ghost(sub0): Ghost<Shape>)
        requires
            old(self).link_inv(),
            plug(ctx0, sub0) == old(self).sh(),
            dstate(ctx0, sub0, x as int),
            sub0 is Nil ==> old(self).sentinel_parent() == ctx_parent(ctx0),
        ensures
            final(self).wf(),
            final(self).key_multiset() == old(self).key_multiset(),
            final(self).sh().idxs() == old(self).sh().idxs(),
            final(self).slot_count() == old(self).slot_count(),
            final(self).free_list() == old(self).free_list(),
    {
        let mut xx = x;
        let ghost mut ctx = ctx0;
        let ghost mut sub = sub0;
        proof {
            lemma_plug_inv(ctx, sub, self.nodes@);
            if sub is Node {
                assert(0 < xx as int && (xx as int) < self.nodes@.len()) by {
                    assert(shape_inv(sub, self.nodes@, ctx_parent(ctx)));
                }
            }
        }
        while xx != self.root && !self.nodes[xx].red
            invariant
                self.link_inv(),
                plug(ctx, sub) == self.sh(),
                dstate(ctx, sub, xx as int),
                (xx as int) < self.nodes@.len(),
                sub is Nil ==> self.sentinel_parent() == ctx_parent(ctx) && xx == 0,
                self.key_multiset() == old(self).key_multiset(),
                self.sh().idxs() == old(self).sh().idxs(),
                self.slot_count() == old(self).slot_count(),
                self.free_list() == old(self).free_list(),
            decreases (if self.nodes@[xx as int].red {
                0int
            } else {
                1int
            }), ctx.len(),
        {
            let ghost n0 = self.nodes@;
            let ghost h = sub.bh();
            proof {
                lemma_plug_inv(ctx, sub, n0);
                assert(ctx_inv(ctx, n0, xx as int));
                assert(ctx.len() > 0) by {
                    if ctx.len() == 0 {
                        lemma_plug_root(ctx, sub);
                    }
                }
                assert(sub.is_black()) by {
                    if sub is Node {
                        assert(shape_inv(sub, n0, ctx_parent(ctx)));
                        assert(n0[xx as int].red == !sub.is_black());
                    }
                }
            }
            let ghost f = ctx.last();
            let ghost ctx1 = ctx.drop_last();
            let ghost sib = f.sib;
            proof {
                assert(ctx_inv(ctx1, n0, f.i));
                assert(ctx_idxs(ctx) =~= ctx_idxs(ctx1).union(sib.idxs()).insert(f.i));
                assert(sib.bh() == h + 1 && sib.rb_ok() && (f.red ==> sib.is_black()));
                assert(sib is Node) by {
                    if sib is Nil {
                        assert(sib.bh() == 0);
                    }
                }
                assert(shape_inv(sib, n0, f.i));
                assert(sib.root_idx() != xx as int) by {
                    if sub is Node {
                        assert(sib.idxs().contains(sib.root_idx()));
                        assert(ctx_idxs(ctx).contains(sib.root_idx()));
                        assert(sub.idxs().contains(xx as int));
                    } else {
                        lemma_idx_positive(sib, n0, f.i, sib.root_idx());
                    }
                }
            }
            let p = self.nodes[xx].parent;
            proof {
                assert(p as int == f.i) by {
                    if sub is Node {
                        assert(shape_inv(sub, n0, ctx_parent(ctx)));
                    }
                }
            }
            let dir: usize = if xx == self.nodes[p].children[0] {
                1
            } else {
                0
            };
            proof {
                assert(dir as int == 1 - f.side);
            }
            let mut w = self.nodes[p].children[dir];
            proof {
                assert(w as int == sib.root_idx());
                assert(0 < w as int && (w as int) < n0.len()) by {
                    lemma_idx_positive(sib, n0, f.i, w as int);
                }
                assert(n0[w as int].red == !sib.is_black());
            }
            if self.nodes[w].red {
                let res = self.dfix_sib_red(xx, p, w, Ghost(ctx), Ghost(sub));
                proof {
                    ctx = res@;
                }
                w = self.nodes[p].children[dir];
                proof {
                    lemma_plug_inv(ctx, sub, self.nodes@);
                    assert(ctx_inv(ctx, self.nodes@, xx as int));
                    assert(ctx.last().i == p as int && ctx.last().side == f.side);
                    assert(w as int == ctx.last().sib.root_idx());
                }
            }
            let ghost n1 = self.nodes@;
            let ghost g = ctx.last();
            let ghost gsib = g.sib;
            proof {
                lemma_plug_inv(ctx, sub, n1);
                assert(ctx_inv(ctx, n1, xx as int));
                assert(gsib.bh() == h + 1 && gsib.rb_ok() && gsib.is_black());
                assert(gsib is Node) by {
                    if gsib is Nil {
                        assert(gsib.bh() == 0);
                    }
                }
                assert(shape_inv(gsib, n1, g.i));
                assert(w as int == gsib.root_idx());
                assert(g.i == p as int && g.side == f.side);
                assert(0 < w as int && (w as int) < n1.len()) by {
                    lemma_idx_positive(gsib, n1, g.i, w as int);
                }
                assert(shape_inv(gsib.left(), n1, w as int) && shape_inv(
                    gsib.right(),
                    n1,
                    w as int,
                ));
                assert(gsib.left().rb_ok() && gsib.right().rb_ok() && gsib.left().bh() == h
                    && gsib.right().bh() == h);
            }
            let wl = self.nodes[w].children[0];
            let wr = self.nodes[w].children[1];
            proof {
                assert(wl as int == gsib.left().root_idx() && wr as int
                    == gsib.right().root_idx());
                assert((wl as int) < n1.len() && (wr as int) < n1.len()) by {
                    if gsib.left() is Node {
                        lemma_idx_positive(gsib.left(), n1, w as int, wl as int);
                    }
                    if gsib.right() is Node {
                        lemma_idx_positive(gsib.right(), n1, w as int, wr as int);
                    }
                }
                assert(n1[wl as int].red == !gsib.left().is_black()) by {
                    if gsib.left() is Nil {
                        assert(wl == 0);
                    }
                }
                assert(n1[wr as int].red == !gsib.right().is_black()) by {
                    if gsib.right() is Nil {
                        assert(wr == 0);
                    }
                }
            }
            if !self.nodes[wl].red && !self.nodes[wr].red {
                // Both of the sibling's children are black: recolor the
                // sibling red and carry the deficit up to the parent.
                let ghost gctx1 = ctx.drop_last();
                let mut nw = self.nodes[w];
                nw.red = true;
                self.put(w, nw);
                let ghost sibr = gsib.recolor(true);
                let ghost fr = Frame { side: g.side, i: g.i, k: g.k, red: g.red, sib: sibr };
                let ghost sub2 = wrap(fr, sub);
                self.shape = Ghost(plug(gctx1, sub2));
                proof {
                    let nf = self.nodes@;
                    assert(ctx_inv(gctx1, n1, g.i));
                    assert(ctx_idxs(ctx) =~= ctx_idxs(gctx1).union(gsib.idxs()).insert(g.i));
                    assert forall|j: int|
                        #[trigger] gsib.idxs().contains(j) && j != gsib.root_idx() implies 0 <= j
                        < nf.len() && nf[j] == n1[j] by {
                        lemma_idx_positive(gsib, n1, g.i, j);
                        assert(j != w as int);
                    }
                    lemma_shape_inv_recolor(gsib, n1, nf, g.i, true);
                    assert forall|j: int| #[trigger] sub.idxs().contains(j) implies 0 <= j
                        < nf.len() && nf[j] == n1[j] by {
                        lemma_idx_positive(sub, n1, g.i, j);
                        assert(!ctx_idxs(ctx).contains(j));
                    }
                    lemma_shape_inv_frame(sub, n1, nf, g.i);
                    assert(shape_inv(sub2, nf, ctx_parent(gctx1))) by {
                        if g.side == 0 {
                        } else {
                        }
                    }
                    assert forall|j: int| #[trigger] ctx_idxs(gctx1).contains(j) implies 0 <= j
                        < nf.len() && nf[j] == n1[j] by {
                        lemma_ctx_idxs_positive(gctx1, n1, g.i, j);
                        assert(!(gsib.idxs().insert(g.i)).contains(j));
                        assert(j != w as int);
                    }
                    lemma_ctx_inv_frame(gctx1, n1, nf, g.i);
                    assert(sub2.idxs() =~= sub.idxs().union(gsib.idxs()).insert(g.i)) by {
                        assert(sibr.idxs() =~= gsib.idxs());
                        if g.side == 0 {
                        } else {
                        }
                    }
                    assert(ctx_idxs(gctx1).disjoint(sub2.idxs())) by {
                        assert forall|j: int| ctx_idxs(gctx1).contains(j) implies !sub2.idxs(
                        ).contains(j) by {
                            assert(ctx_idxs(ctx).contains(j));
                        }
                    }
                    assert(ctx_sides(gctx1)) by {
                        assert forall|j: int|
                            0 <= j < gctx1.len() implies (#[trigger] gctx1[j]).side == 0
                            || gctx1[j].side == 1 by {
                            assert(gctx1[j] == ctx[j]);
                        }
                    }
                    lemma_plug_inv(gctx1, sub2, nf);
                    assert(shape_inv(self.sh(), nf, 0));
                    let oldw = wrap(g, sub);
                    assert(plug(ctx, sub) == plug(gctx1, oldw));
                    assert(sub2.keys() =~= oldw.keys() && sub2.idxs() =~= oldw.idxs() && (
                    oldw.sorted() ==> sub2.sorted())) by {
                        assert(sibr.keys() =~= gsib.keys());
                        assert(sibr.idxs() =~= gsib.idxs());
                        assert(gsib.sorted() ==> sibr.sorted());
                        assert forall|q: u64| sibr.keys().contains(q) implies gsib.keys().contains(
                            q,
                        ) by {}
                        if g.side == 0 {
                        } else {
                        }
                    }
                    lemma_plug_sorted(gctx1, oldw);
                    lemma_plug_sorted(gctx1, sub2);
                    lemma_plug_keys(gctx1, oldw);
                    lemma_plug_keys(gctx1, sub2);
                    lemma_plug_idxs(gctx1, oldw);
                    lemma_plug_idxs(gctx1, sub2);
                    assert(self.link_inv()) by {
                        assert(all_bounded(nf));
                        assert(nf[0] == n1[0]);
                        if gctx1.len() > 0 {
                            lemma_plug_root(gctx1, sub2);
                            lemma_plug_root(ctx, sub);
                            assert(gctx1[0] == ctx[0]);
                        }
                    }
                    // The deficit moves to the parent.
                    assert(sub.rb_ok()) by {
                        if sub is Nil {
                        } else {
                        }
                    }
                    assert(sibr.rb_ok() && sibr.bh() == h && !sibr.is_black()) by {
                        assert(gsib.left().is_black() && gsib.right().is_black());
                    }
                    assert(sub2.kids_rb() && sub2.bh() == h + if g.red {
                        0nat
                    } else {
                        1nat
                    }) by {
                        if g.side == 0 {
                        } else {
                        }
                    }
                    assert(ctx_rb_almost(gctx1, sub2.bh() + 1)) by {
                        assert(ctx_rb(gctx1, h + 1 + if g.red {
                            0nat
                        } else {
                            1nat
                        }, g.red));
                        lemma_ctx_rb_weaken(gctx1, (h + 1 + if g.red {
                            0nat
                        } else {
                            1nat
                        }) as nat, g.red);
                    }
                    if gctx1.len() > 0 {
                        assert(!gctx1[0].red) by {
                            assert(gctx1[0] == ctx[0]);
                        }
                    }
                    ctx = gctx1;
                    sub = sub2;
                }
                xx = p;
                proof {
                    assert(dstate(ctx, sub, xx as int));
                }
            } else {
                let wc = self.nodes[w].children[dir];
                proof {
                    assert(gsib.child(1 - g.side) == (if dir == 0 {
                        gsib.left()
                    } else {
                        gsib.right()
                    })) by {
                        if g.side == 0 {
                        } else {
                        }
                    }
                    assert(wc as int == gsib.child(1 - g.side).root_idx());
                    assert((wc as int) < n1.len() && n1[wc as int].red == !gsib.child(
                        1 - g.side,
                    ).is_black()) by {
                        if gsib.child(1 - g.side) is Node {
                            lemma_idx_positive(gsib.child(1 - g.side), n1, w as int, wc as int);
                        } else {
                            assert(wc == 0);
                        }
                    }
                }
                if !self.nodes[wc].red {
                    proof {
                        assert(!gsib.child(g.side).is_black()) by {
                            if g.side == 0 {
                            } else {
                            }
                        }
                    }
                    let res = self.dfix_near_red(xx, p, w, Ghost(ctx), Ghost(sub));
                    proof {
                        ctx = res@;
                        lemma_plug_inv(ctx, sub, self.nodes@);
                    }
                }
                proof {
                    assert(!ctx.last().sib.child(1 - ctx.last().side).is_black());
                    assert(ctx.last().sib.is_black() && ctx.last().sib is Node);
                    assert(ctx.last().i == p as int);
                    assert(ctx.last().sib.root_idx() > 0) by {
                        lemma_plug_inv(ctx, sub, self.nodes@);
                        assert(ctx_inv(ctx, self.nodes@, xx as int));
                        lemma_idx_positive(
                            ctx.last().sib,
                            self.nodes@,
                            ctx.last().i,
                            ctx.last().sib.root_idx(),
                        );
                    }
                }
                let w2 = self.nodes[p].children[dir];
                proof {
                    lemma_plug_inv(ctx, sub, self.nodes@);
                    assert(ctx_inv(ctx, self.nodes@, xx as int));
                    assert(w2 as int == ctx.last().sib.root_idx());
                }
                self.dfix_far_red(xx, p, w2, Ghost(ctx), Ghost(sub));
                xx = self.root;
                proof {
                    ctx = Seq::<Frame>::empty();
                    sub = self.sh();
                    assert(self.sh().kids_rb()) by {
                        if self.sh() is Nil {
                        } else {
                        }
                    }
                    assert(xx as int == sub.root_idx());
                    assert((xx as int) < self.nodes@.len()) by {
                        assert(shape_inv(self.sh(), self.nodes@, 0));
                        if self.sh() is Node {
                            lemma_idx_positive(self.sh(), self.nodes@, 0, xx as int);
                        }
                    }
                    assert(dstate(ctx, sub, xx as int));
                }
            }
        }
        // Blacken the carrier of the deficit.
        let ghost tpre = self.sh();
        let ghost npre = self.nodes@;
        proof {
            lemma_plug_inv(ctx, sub, npre);
            lemma_plug_root(ctx, sub);
            if xx == self.root {
                assert(ctx.len() == 0) by {
                    if ctx.len() > 0 {
                        assert(ctx_idxs(ctx).contains(ctx[0].i));
                        if sub is Node {
                            assert(sub.idxs().contains(sub.root_idx()));
                        } else {
                            assert(self.root == 0);
                            assert(tpre is Node ==> tpre.root_idx() > 0) by {
                                if tpre is Node {
                                    lemma_idx_positive(tpre, npre, 0, tpre.root_idx());
                                }
                            }
                            assert(tpre is Nil);
                        }
                    }
                }
            } else {
                assert(sub is Node) by {
                    if sub is Nil {
                        assert(!npre[0].red);
                    }
                }
                assert(!sub.is_black()) by {
                    assert(shape_inv(sub, npre, ctx_parent(ctx)));
                }
                assert(ctx.len() > 0) by {
                    if ctx.len() == 0 {
                    }
                }
            }
        }
        let mut nx = self.nodes[xx];
        nx.red = false;
        self.put(xx, nx);
        self.shape = Ghost(plug(ctx, sub.recolor(false)));
        proof {
            let nf = self.nodes@;
            if sub is Nil {
                assert(xx == 0);
                assert(nf =~= npre) by {
                    assert(nx == npre[0]);
                }
                assert(sub.recolor(false) == sub);
                assert(self.sh() == tpre);
                assert(self.link_inv());
                assert(ctx.len() == 0);
                assert(tpre == sub);
                assert(self.color_inv());
            } else {
                let subb = sub.recolor(false);
                assert forall|j: int|
                    #[trigger] sub.idxs().contains(j) && j != sub.root_idx() implies 0 <= j
                    < nf.len() && nf[j] == npre[j] by {
                    lemma_idx_positive(sub, npre, ctx_parent(ctx), j);
                }
                lemma_shape_inv_recolor(sub, npre, nf, ctx_parent(ctx), false);
                assert forall|j: int|
                    #[trigger] ctx_idxs(ctx).contains(j) implies 0 <= j < nf.len() && nf[j]
                    == npre[j] by {
                    lemma_ctx_idxs_positive(ctx, npre, xx as int, j);
                    assert(!sub.idxs().contains(j));
                    assert(sub.idxs().contains(xx as int));
                }
                lemma_ctx_inv_frame(ctx, npre, nf, xx as int);
                assert(ctx_inv(ctx, nf, subb.root_idx()));
                assert(ctx_idxs(ctx).disjoint(subb.idxs())) by {
                    assert(subb.idxs() =~= sub.idxs());
                }
                lemma_plug_inv(ctx, subb, nf);
                assert(shape_inv(self.sh(), nf, 0));
                lemma_plug_sorted(ctx, sub);
                lemma_plug_sorted(ctx, subb);
                assert(self.sh().sorted()) by {
                    assert(subb.keys() =~= sub.keys());
                    assert forall|q: u64| subb.keys().contains(q) implies in_hole_range(
                        ctx,
                        q,
                    ) by {
                        assert(sub.keys().contains(q));
                    }
                }
                lemma_plug_keys(ctx, sub);
                lemma_plug_keys(ctx, subb);
                assert(self.key_multiset() =~= old(self).key_multiset()) by {
                    assert(subb.keys() =~= sub.keys());
                }
                lemma_plug_idxs(ctx, sub);
                lemma_plug_idxs(ctx, subb);
                assert(self.sh().idxs() =~= old(self).sh().idxs()) by {
                    assert(subb.idxs() =~= sub.idxs());
                }
                assert(self.link_inv()) by {
                    assert(all_bounded(nf));
                    assert(nf[0] == npre[0]) by {
                        assert(xx != 0) by {
                            assert(sub.idxs().contains(sub.root_idx()));
                            lemma_idx_positive(sub, npre, ctx_parent(ctx), xx as int);
                        }
                    }
                    if ctx.len() > 0 {
                        lemma_plug_root(ctx, subb);
                        lemma_plug_root(ctx, sub);
                    }
                }
                assert(subb.rb_ok() && subb.bh() == sub.bh() + if sub.is_black() {
                    0nat
                } else {
                    1nat
                });
                if ctx.len() == 0 {
                    assert(self.sh() == subb);
                    assert(self.color_inv());
                } else {
                    assert(!sub.is_black());
                    assert(subb.bh() == sub.bh() + 1);
                    lemma_ctx_rb_almost_black_hole(ctx, (sub.bh() + 1) as nat);
                    lemma_plug_rb(ctx, subb);
                    assert(self.sh().rb_ok());
                    lemma_plug_root(ctx, subb);
                    assert(self.sh().is_black());
                    assert(self.color_inv());
                }
            }
        }
    }

    /// The handle of the in-order successor of the node at `x`: the leftmost
    /// node of its right subtree when that subtree exists (the only case the
    /// deletion path relies on, and the one this contract pins down), else
    /// the nearest ancestor whose left subtree holds `x`, or the sentinel.
    #[verifier::loop_isolation(false)]
    fn tree_successor(
        &mut self,
        x: usize,
        Ghost(ctx): Ghost<Seq<Frame>>,
        Ghost(sub): Ghost<Shape>,
    ) -> (m: usize)
        requires
            old(self).link_inv(),
            plug(ctx, sub) == old(self).sh(),
            ctx_sides(ctx),
            sub is Node,
            sub.root_idx() == x as int,
        ensures
            *final(self) == *old(self),
            sub.right() is Node ==> sub.right().idxs().contains(m as int)
                && sub.right().subtree_at(m as int) is Node && sub.right().subtree_at(
                m as int,
            ).left() is Nil && sub.right().keys().contains(
                sub.right().subtree_at(m as int).key(),
            ) && (forall|q: u64|
                sub.right().keys().contains(q) ==> sub.right().subtree_at(m as int).key() <= q),
            sub.right() is Nil ==> m == 0 || old(self).sh().idxs().contains(m as int),
    {
        let ghost n0 = self.nodes@;
        proof {
            lemma_plug_inv(ctx, sub, n0);
            assert(shape_inv(sub, n0, ctx_parent(ctx)));
            lemma_plug_idxs(ctx, sub);
            lemma_plug_sorted(ctx, sub);
            assert(sub.sorted());
        }
        let r = self.nodes[x].children[1];
        if r != self.nil_sentinel {
            proof {
                assert(sub.right() is Node) by {
                    if sub.right() is Nil {
                        assert(n0[x as int].kid(1) == 0);
                    }
                }
                assert(shape_inv(sub.right(), n0, x as int));
                assert(n0[r as int].pi() == x as int);
            }
            let m = self.tree_minimum(r, Ghost(sub.right()));
            return m;
        }
        proof {
            assert(sub.right() is Nil) by {
                if sub.right() is Node {
                    assert(shape_inv(sub.right(), n0, x as int));
                    assert(sub.right().root_idx() > 0);
                    assert(n0[x as int].kid(1) == sub.right().root_idx());
                }
            }
        }
        let mut x2 = x;
        let mut y = self.nodes[x2].parent;
        let ghost mut ctx2 = ctx;
        let ghost mut sub2 = sub;
        while y != self.nil_sentinel && x2 == self.nodes[y].children[1]
            invariant
                *self == *old(self),
                self.link_inv(),
                plug(ctx2, sub2) == self.sh(),
                ctx_sides(ctx2),
                sub2 is Node,
                sub2.root_idx() == x2 as int,
                y as int == ctx_parent(ctx2),
                (y as int) < self.nodes@.len(),
                (x2 as int) < self.nodes@.len(),
            decreases ctx2.len(),
        {
            proof {
                lemma_plug_inv(ctx2, sub2, self.nodes@);
                assert(ctx2.len() > 0);
                let f = ctx2.last();
                assert(f.sib.root_idx() != x2 as int) by {
                    if f.sib is Node {
                        assert(f.sib.idxs().contains(f.sib.root_idx()));
                        assert(ctx_idxs(ctx2).contains(f.sib.root_idx()));
                        assert(sub2.idxs().contains(x2 as int));
                    } else {
                        assert(sub2.idxs().contains(x2 as int));
                        lemma_idx_positive(sub2, self.nodes@, f.i, x2 as int);
                    }
                }
                assert(f.side == 1);
                sub2 = wrap(f, sub2);
                ctx2 = ctx2.drop_last();
                assert(ctx_sides(ctx2)) by {
                    assert forall|j: int|
                        0 <= j < ctx2.len() implies (#[trigger] ctx2[j]).side == 0 || ctx2[j].side
                        == 1 by {
                        assert(ctx2[j] == ctx2.push(f)[j]);
                    }
                }
                lemma_plug_inv(ctx2, sub2, self.nodes@);
                assert(shape_inv(sub2, self.nodes@, ctx_parent(ctx2)));
            }
            x2 = y;
            y = self.nodes[x2].parent;
        }
        proof {
            if y != 0 {
                lemma_plug_inv(ctx2, sub2, self.nodes@);
                assert(ctx2.len() > 0);
                assert(ctx_idxs(ctx2).contains(y as int));
                lemma_plug_idxs(ctx2, sub2);
                assert(old(self).sh().idxs().contains(y as int));
            }
        }
        y
    }

    /// Remove one node holding `key` and return `Some(key)`, or return
    /// `None` and leave the tree exactly as it was when no node holds `key`.
    /// If the found node has two real children it swaps identity with its
    /// in-order successor, so the node physically unlinked always has at
    /// most one real child; a black removal is followed by the fixup pass.
    /// The freed slot goes to the free list for reuse.
    #[verifier::loop_isolation(false)]
    #[verifier::rlimit(100)]
    pub fn delete(&mut self, key: u64) -> (r: Option<u64>)
        requires
            old(self).wf(),
        ensures
            final(self).wf(),
            old(self).key_multiset().contains(key) ==> r == Option::Some(key)
                && final(self).key_multiset() == old(self).key_multiset().remove(key),
            !old(self).key_multiset().contains(key) ==> r == Option::<u64>::None
                && *final(self) == *old(self),
    {
        let z: usize;
        match self.search_(key) {
            Some(found) => {
                z = found;
            },
            None => {
                return None;
            },
        }
        let ghost t0 = self.sh();
        let ghost n0 = self.nodes@;
        let ghost ctx_z = path_to(t0, z as int);
        let ghost sub_z = t0.subtree_at(z as int);
        proof {
            lemma_subtree_fields(t0, n0, 0, z as int);
            crate::shape::lemma_key_at_in_keys(t0, z as int);
            lemma_path_to(t0, z as int);
            lemma_plug_inv(ctx_z, sub_z, n0);
            lemma_plug_sorted(ctx_z, sub_z);
            lemma_plug_keys(ctx_z, sub_z);
            lemma_plug_idxs(ctx_z, sub_z);
            lemma_plug_rb(ctx_z, sub_z);
            lemma_plug_root(ctx_z, sub_z);
            lemma_ctx_inv_distinct(ctx_z, n0, z as int);
            assert(shape_inv(sub_z, n0, ctx_parent(ctx_z)));
            assert(shape_inv(sub_z.left(), n0, z as int) && shape_inv(
                sub_z.right(),
                n0,
                z as int,
            ));
        }
        let mut y = z;
        let ghost mut ctx_y = ctx_z;
        let ghost mut suby = sub_z;
        if self.nodes[z].children[0] == self.nil_sentinel || self.nodes[z].children[1]
            == self.nil_sentinel {
            proof {
                assert(suby.left() is Nil || suby.right() is Nil) by {
                    if sub_z.left() is Node && sub_z.right() is Node {
                        assert(n0[z as int].kid(0) == sub_z.left().root_idx());
                        assert(sub_z.left().root_idx() > 0);
                        assert(sub_z.right().root_idx() > 0);
                    }
                }
                assert(self.key_multiset() =~= t0.keys().remove(key).insert(suby.key()));
            }
        } else {
            proof {
                assert(sub_z.left() is Node && sub_z.right() is Node) by {
                    if sub_z.left() is Nil {
                        assert(n0[z as int].kid(0) == 0);
                    }
                    if sub_z.right() is Nil {
                        assert(n0[z as int].kid(1) == 0);
                    }
                }
            }
            let ghost zlt = sub_z.left();
            let ghost zrt = sub_z.right();
            let y2 = self.tree_successor(z, Ghost(ctx_z), Ghost(sub_z));
            let ghost suby0 = zrt.subtree_at(y2 as int);
            proof {
                lemma_idx_positive(zrt, n0, z as int, y2 as int);
            }
            let ky = self.nodes[y2].key;
            proof {
                lemma_subtree_fields(zrt, n0, z as int, y2 as int);
                assert(ky == suby0.key());
                assert(zrt.keys().contains(ky));
                assert(key <= ky) by {
                    assert(zrt.key_ge(sub_z.key()));
                }
            }
            // Copy the successor's key into the searched node; the successor
            // keeps only its position and is the node physically removed.
            let mut nz = self.nodes[z];
            nz.key = ky;
            self.put(z, nz);
            let ghost cz = !sub_z.is_black();
            let ghost sub_z2 = Shape::Node {
                i: z as int,
                k: ky,
                red: cz,
                l: Box::new(zlt),
                r: Box::new(zrt),
            };
            self.shape = Ghost(plug(ctx_z, sub_z2));
            proof {
                let nf = self.nodes@;
                assert forall|j: int| #[trigger] zlt.idxs().contains(j) implies 0 <= j < nf.len()
                    && nf[j] == n0[j] by {
                    lemma_idx_positive(zlt, n0, z as int, j);
                    assert(j != z as int);
                }
                lemma_shape_inv_frame(zlt, n0, nf, z as int);
                assert forall|j: int| #[trigger] zrt.idxs().contains(j) implies 0 <= j < nf.len()
                    && nf[j] == n0[j] by {
                    lemma_idx_positive(zrt, n0, z as int, j);
                    assert(j != z as int);
                }
                lemma_shape_inv_frame(zrt, n0, nf, z as int);
                assert(shape_inv(sub_z2, nf, ctx_parent(ctx_z)));
                assert forall|j: int| #[trigger] ctx_idxs(ctx_z).contains(j) implies 0 <= j
                    < nf.len() && nf[j] == n0[j] by {
                    lemma_ctx_idxs_positive(ctx_z, n0, z as int, j);
                    assert(!sub_z.idxs().contains(j));
                }
                lemma_ctx_inv_frame(ctx_z, n0, nf, z as int);
                assert(sub_z2.idxs() =~= sub_z.idxs() && sub_z2.keys() =~= sub_z.keys().remove(
                    key,
                ).insert(ky));
                assert(ctx_idxs(ctx_z).disjoint(sub_z2.idxs()));
                lemma_plug_inv(ctx_z, sub_z2, nf);
                assert(shape_inv(self.sh(), nf, 0));
                assert(sub_z2.sorted()) by {
                    assert(zlt.key_le(ky)) by {
                        assert forall|q: u64| zlt.keys().contains(q) implies q <= ky by {
                            assert(q <= key);
                        }
                    }
                    assert(zrt.key_ge(ky));
                }
                lemma_plug_sorted(ctx_z, sub_z2);
                assert(self.sh().sorted()) by {
                    assert forall|q: u64| sub_z2.keys().contains(q) implies in_hole_range(
                        ctx_z,
                        q,
                    ) by {
                        if q == ky {
                            assert(sub_z.keys().contains(q)) by {
                                assert(sub_z.keys() == zlt.keys().add(zrt.keys()).insert(key));
                            }
                        } else {
                            assert(sub_z.keys().contains(q));
                        }
                    }
                }
                lemma_plug_keys(ctx_z, sub_z2);
                assert(self.key_multiset() =~= t0.keys().remove(key).insert(ky));
                lemma_plug_idxs(ctx_z, sub_z2);
                assert(self.sh().idxs() =~= t0.idxs());
                assert(self.link_inv()) by {
                    assert(all_bounded(nf));
                    assert(nf[0] == n0[0]);
                    if ctx_z.len() > 0 {
                        lemma_plug_root(ctx_z, sub_z2);
                    }
                }
                assert(sub_z2.rb_ok() == sub_z.rb_ok() && sub_z2.bh() == sub_z.bh()
                    && sub_z2.is_black() == sub_z.is_black());
                lemma_plug_rb(ctx_z, sub_z2);
                assert(self.sh().rb_ok());
                lemma_plug_root(ctx_z, sub_z2);
                assert(self.sh().is_black());
            }
            let ghost zf2 = Frame { side: 1, i: z as int, k: ky, red: cz, sib: zlt };
            let ghost rest = path_to(zrt, y2 as int);
            proof {
                lemma_path_to(zrt, y2 as int);
                ctx_y = ctx_z.push(zf2) + rest;
                suby = suby0;
                lemma_plug_append(ctx_z.push(zf2), rest, suby0);
                lemma_plug_push(ctx_z, zf2, zrt);
                assert(wrap(zf2, zrt) == sub_z2);
                assert(plug(ctx_y, suby) == self.sh());
                assert(ctx_sides(ctx_z.push(zf2))) by {
                    assert forall|j: int|
                        0 <= j < ctx_z.push(zf2).len() implies (#[trigger] ctx_z.push(
                            zf2,
                        )[j]).side == 0 || ctx_z.push(zf2)[j].side == 1 by {
                        if j < ctx_z.len() {
                            assert(ctx_z.push(zf2)[j] == ctx_z[j]);
                        } else {
                            assert(ctx_z.push(zf2)[j] == zf2);
                        }
                    }
                }
                lemma_ctx_sides_concat(ctx_z.push(zf2), rest);
                assert(suby.key() == ky);
                assert(self.key_multiset() =~= t0.keys().remove(key).insert(suby.key()));
            }
            y = y2;
        }
        let ghost tmid = self.sh();
        proof {
            assert(plug(ctx_y, suby) == tmid);
            assert(suby is Node && suby.root_idx() == y as int);
            assert(suby.left() is Nil || suby.right() is Nil);
            assert(self.link_inv() && self.sh().rb_ok() && self.sh().is_black());
            assert(self.key_multiset() == t0.keys().remove(key).insert(suby.key()));
            assert(self.slot_count() == old(self).slot_count());
            assert(self.free_list() == old(self).free_list());
            assert(self.sh().idxs() == t0.idxs());
        }
        let y_was_red = self.nodes[y].red;
        let ghost xv = splice_rest(suby);
        proof {
            lemma_plug_inv(ctx_y, suby, self.nodes@);
            assert(shape_inv(suby, self.nodes@, ctx_parent(ctx_y)));
            assert(y_was_red == !suby.is_black());
            lemma_plug_rb(ctx_y, suby);
            assert(suby.rb_ok() && ctx_rb(ctx_y, suby.bh(), !suby.is_black()));
            assert(xv.rb_ok() && xv.bh() + if suby.is_black() {
                1nat
            } else {
                0nat
            } == suby.bh() && (y_was_red ==> xv.is_black())) by {
                if suby.left() is Node {
                } else {
                }
            }
            if ctx_y.len() > 0 {
                lemma_plug_root(ctx_y, suby);
                assert(!ctx_y[0].red);
            }
        }
        let x = self.splice(y, Ghost(ctx_y), Ghost(suby));
        proof {
            assert(self.key_multiset() =~= old(self).key_multiset().remove(key)) by {
                assert(tmid.keys().remove(suby.key()) =~= t0.keys().remove(key));
            }
        }
        if !y_was_red {
            proof {
                lemma_ctx_rb_weaken(ctx_y, (xv.bh() + 1) as nat, false);
                assert(xv.kids_rb()) by {
                    if xv is Nil {
                    } else {
                    }
                }
                assert(dstate(ctx_y, xv, x as int));
                assert(xv is Nil ==> self.sentinel_parent() == ctx_parent(ctx_y));
            }
            self.delete_fixup(x, Ghost(ctx_y), Ghost(xv));
        } else {
            proof {
                assert(xv.is_black());
                lemma_ctx_rb_weaken(ctx_y, xv.bh(), true);
                lemma_plug_rb(ctx_y, xv);
                assert(self.sh().rb_ok());
                assert(ctx_y.len() > 0) by {
                    if ctx_y.len() == 0 {
                        lemma_plug_root(ctx_y, suby);
                        assert(tmid == suby);
                        assert(tmid.is_black());
                    }
                }
                lemma_plug_root(ctx_y, xv);
                assert(self.sh().is_black());
            }
        }
        proof {
            assert(0 < y && (y as int) < self.slot_count()) by {
                assert(suby.idxs().contains(y as int));
                assert(t0.idxs().contains(y as int)) by {
                    lemma_plug_idxs(ctx_y, suby);
                    assert(tmid.idxs().contains(y as int));
                }
                lemma_idx_positive(t0, n0, 0, y as int);
            }
            assert(!self.sh().idxs().contains(y as int)) by {
                assert(self.sh().idxs() == tmid.idxs().remove(y as int));
            }
            assert(!self.free@.contains(y)) by {
                if self.free@.contains(y) {
                    let j = choose|j: int|
                        0 <= j < self.free@.len() && self.free@[j] == y;
                    assert(old(self).free@[j] == y);
                    assert(!old(self).sh().idxs().contains(y as int));
                }
            }
        }
        let ghost fpre = self.free@;
        self.free.push(y);
        proof {
            assert(self.free@ == fpre.push(y));
            assert forall|j: int|
                0 <= j < self.free@.len() implies 0 < (#[trigger] self.free@[j]) as int && (
            self.free@[j] as int) < self.nodes@.len() && !self.sh().idxs().contains(
                self.free@[j] as int,
            ) by {
                if j < fpre.len() {
                    assert(self.free@[j] == fpre[j]);
                    assert(!tmid.idxs().contains(fpre[j] as int)) by {
                        assert(!old(self).sh().idxs().contains(fpre[j] as int));
                    }
                    assert(self.sh().idxs().contains(fpre[j] as int)
                        ==> tmid.idxs().contains(fpre[j] as int));
                } else {
                    assert(self.free@[j] == y);
                }
            }
            assert forall|j1: int, j2: int|
                0 <= j1 < j2 < self.free@.len() implies self.free@[j1] != self.free@[j2] by {
                if j2 == fpre.len() as int {
                    assert(self.free@[j1] == fpre[j1]);
                    assert(!old(self).sh().idxs().contains(fpre[j1] as int));
                } else {
                    assert(self.free@[j1] == fpre[j1] && self.free@[j2] == fpre[j2]);
                }
            }
            assert(self.link_inv());
        }
        Some(key)
    }

    /// Whether every path below the shape carries equal black counts.
    pub open spec fn bh_ok(t: Shape) -> bool
        decreases t,
    {
        match t {
            Shape::Nil => true,
            Shape::Node { l, r, .. } => Self::bh_ok(*l) && Self::bh_ok(*r) && l.bh() == r.bh(),
        }
    }

    /// Whether no red node of the shape has a red child.
    pub open spec fn no_red_red(t: Shape) -> bool
        decreases t,
    {
        match t {
            Shape::Nil => true,
            Shape::Node { red, l, r, .. } => Self::no_red_red(*l) && Self::no_red_red(*r) && (red
                ==> l.is_black() && r.is_black()),
        }
    }

    /// The two checks together are exactly the internal color conditions.
    pub proof fn lemma_checks_are_rb(t: Shape)
        ensures
            t.rb_ok() == (Self::bh_ok(t) && Self::no_red_red(t)),
        decreases t,
    {
        match t {
            Shape::Nil => {},
            Shape::Node { l, r, .. } => {
                Self::lemma_checks_are_rb(*l);
                Self::lemma_checks_are_rb(*r);
            },
        }
    }

    /// Recursively recompute black heights below handle `x`, reporting
    /// whether every node's two sides agree, and the height itself.
    fn verify_black_height(&self, x: usize, Ghost(t): Ghost<Shape>, Ghost(p): Ghost<int>) -> (r: (
        bool,
        usize,
    ))
        requires
            self.link_inv(),
            shape_inv(t, self.nodes@, p),
            t.root_idx() == x as int,
        ensures
            r.0 == Self::bh_ok(t),
            r.0 ==> r.1 == t.bh(),
        decreases t.size(),
    {
        if x == self.nil_sentinel {
            proof {
                assert(t is Nil) by {
                    if t is Node {
                        assert(t.root_idx() > 0);
                    }
                }
            }
            return (true, 0);
        }
        proof {
            assert(t is Node);
            lemma_size_bound(t, self.nodes@, p);
        }
        let l = self.nodes[x].children[0];
        let rr = self.nodes[x].children[1];
        let left = self.verify_black_height(l, Ghost(t.left()), Ghost(x as int));
        let right = self.verify_black_height(rr, Ghost(t.right()), Ghost(x as int));
        if !(left.0 && right.0 && left.1 == right.1) {
            return (false, 0);
        }
        let n_slots = self.nodes.len();
        proof {
            lemma_bh_le_size(t.left());
            lemma_size_bound(t, self.nodes@, p);
            assert(t.left().size() < t.size());
            assert(left.1 < n_slots);
        }
        let add: usize = if self.nodes[x].red {
            0
        } else {
            1
        };
        (true, left.1 + add)
    }

    /// Recursively check that no red node below handle `x` has a red child.
    fn verify_children_color(&self, x: usize, Ghost(t): Ghost<Shape>, Ghost(p): Ghost<int>) -> (r:
        bool)
        requires
            self.link_inv(),
            shape_inv(t, self.nodes@, p),
            t.root_idx() == x as int,
        ensures
            r == Self::no_red_red(t),
        decreases t.size(),
    {
        if x == self.nil_sentinel {
            proof {
                assert(t is Nil) by {
                    if t is Node {
                        assert(t.root_idx() > 0);
                    }
                }
            }
            return true;
        }
        proof {
            assert(t is Node);
        }
        let l = self.nodes[x].children[0];
        let rr = self.nodes[x].children[1];
        let mut ok = true;
        if self.nodes[x].red {
            proof {
                assert((l as int) < self.nodes@.len() && (rr as int) < self.nodes@.len()) by {
                    assert(self.nodes@[x as int].kid(0) < self.nodes@.len()
                        && self.nodes@[x as int].kid(1) < self.nodes@.len());
                }
                assert(shape_inv(t.left(), self.nodes@, x as int) && shape_inv(
                    t.right(),
                    self.nodes@,
                    x as int,
                ));
                assert(self.nodes@[l as int].red == !t.left().is_black()) by {
                    if t.left() is Nil {
                        assert(l == 0);
                    }
                }
                assert(self.nodes@[rr as int].red == !t.right().is_black()) by {
                    if t.right() is Nil {
                        assert(rr == 0);
                    }
                }
            }
            ok = !self.nodes[l].red && !self.nodes[rr].red;
        }
        let lok = self.verify_children_color(l, Ghost(t.left()), Ghost(x as int));
        let rok = self.verify_children_color(rr, Ghost(t.right()), Ghost(x as int));
        ok && lok && rok
    }

    /// The validator: recomputes the red-black conditions over the whole
    /// tree, returning true exactly when the root is black, no red node has
    /// a red child, and all paths carry equal black counts.  Test-only in
    /// spirit: the mutating operations maintain these conditions, which is
    /// why this function can promise to return true whenever the tree is
    /// well-formed.
    pub fn is_valid(&self) -> (r: bool)
        requires
            self.link_inv(),
        ensures
            r == (self.sh().rb_ok() && self.sh().is_black()),
            self.wf() ==> r,
    {
        let root_black = !self.nodes[self.root].red;
        proof {
            assert(root_black == self.sh().is_black()) by {
                if self.sh() is Nil {
                    assert(self.root == 0);
                } else {
                    assert(shape_inv(self.sh(), self.nodes@, 0));
                }
            }
        }
        let colors = self.verify_children_color(self.root, Ghost(self.sh()), Ghost(0int));
        let heights = self.verify_black_height(self.root, Ghost(self.sh()), Ghost(0int));
        proof {
            Self::lemma_checks_are_rb(self.sh());
        }
        root_black && colors && heights.0
    }

    /// The root handle.
    pub fn root_handle(&self) -> (r: usize)
        requires
            self.link_inv(),
        ensures
            r as int == self.sh().root_idx(),
    {
        self.root
    }
}

/// The state the deletion fixup carries: the subtree in the hole is one
/// black unit short of what the context expects, both its subtrees are valid
/// red-black trees of equal black height, and above the hole at most the
/// innermost frame tolerates a red occupant.
pub open spec fn dstate(ctx: Seq<Frame>, sub: Shape, x: int) -> bool {
    &&& ctx_sides(ctx)
    &&& sub.root_idx() == x
    &&& sub.kids_rb()
    &&& ctx_rb_almost(ctx, sub.bh() + 1)
    &&& (ctx.len() > 0 ==> !ctx[0].red)
}

/// The subtree that remains when a node with at most one real child is
/// unlinked: its one real child, or nothing.
pub open spec fn splice_rest(t: Shape) -> Shape {
    if t.left() is Node {
        t.left()
    } else {
        t.right()
    }
}

/// The state between the inner and outer steps of the insertion fixup: the
/// red node at `zz` is the outer grandchild of a black grandparent whose
/// other child (the uncle) is black, the parent is red with a black sibling,
/// and everything above the grandparent is strictly red-black.
pub open spec fn outer_case(ctx: Seq<Frame>, sub: Shape, zz: int, h: nat) -> bool {
    &&& ctx.len() >= 2
    &&& ctx_sides(ctx)
    &&& sub is Node
    &&& !sub.is_black()
    &&& sub.rb_ok()
    &&& sub.root_idx() == zz
    &&& sub.bh() == h
    &&& ctx.last().red
    &&& ctx.last().side == ctx.drop_last().last().side
    &&& ctx.last().sib.is_black()
    &&& ctx.last().sib.rb_ok()
    &&& ctx.last().sib.bh() == h
    &&& !ctx.drop_last().last().red
    &&& ctx.drop_last().last().sib.is_black()
    &&& ctx.drop_last().last().sib.rb_ok()
    &&& ctx.drop_last().last().sib.bh() == h
    &&& ctx_rb(ctx.drop_last().drop_last(), h + 1, false)
    &&& !ctx[0].red
}

/// Stepping from a node of a realised shape to one of its children stays
/// within the shape, and the subtree there is that child.
pub proof fn lemma_subtree_step(t: Shape, nodes: Seq<Node>, p: int, x: int, d: int)
    requires
        shape_inv(t, nodes, p),
        t.idxs().contains(x),
        t.subtree_at(x).child(d) is Node,
        d == 0 || d == 1,
    ensures
        t.idxs().contains(t.subtree_at(x).child(d).root_idx()),
        t.subtree_at(t.subtree_at(x).child(d).root_idx()) == t.subtree_at(x).child(d),
    decreases t,
{
    match t {
        Shape::Nil => {},
        Shape::Node { i, l, r, .. } => {
            if i == x {
                let c = t.child(d);
                let ci = c.root_idx();
                assert(c.idxs().contains(ci)) by {
                    if d == 0 {
                    } else {
                    }
                }
                assert(t.idxs().contains(ci)) by {
                    if d == 0 {
                    } else {
                    }
                }
                assert(ci != i) by {
                    if d == 0 {
                    } else {
                    }
                }
                assert(t.subtree_at(ci) == c) by {
                    if d == 0 {
                        assert(l.idxs().contains(ci));
                        lemma_subtree_root(*l, nodes, i);
                    } else {
                        assert(!l.idxs().contains(ci));
                        assert(r.idxs().contains(ci));
                        lemma_subtree_root(*r, nodes, i);
                    }
                }
            } else if l.idxs().contains(x) {
                lemma_subtree_step(*l, nodes, i, x, d);
                lemma_idx_positive(*l, nodes, i, t.subtree_at(x).child(d).root_idx());
            } else {
                lemma_subtree_step(*r, nodes, i, x, d);
                lemma_idx_positive(*r, nodes, i, t.subtree_at(x).child(d).root_idx());
            }
        },
    }
}

/// The subtree at a shape's own root index is the shape itself.
pub proof fn lemma_subtree_root(t: Shape, nodes: Seq<Node>, p: int)
    requires
        shape_inv(t, nodes, p),
        t is Node,
    ensures
        t.subtree_at(t.root_idx()) == t,
{
}

/// A realised shape has no more nodes than the arena has slots.
pub proof fn lemma_size_bound(t: Shape, nodes: Seq<Node>, p: int)
    requires
        shape_inv(t, nodes, p),
    ensures
        t.size() <= nodes.len(),
{
    if t is Node {
        lemma_size_is_card(t, nodes, p);
        crate::shape::lemma_idxs_finite(t);
        assert(nodes.len() >= 1);
        let rng = Set::new(|j: int| 0 < j < nodes.len());
        assert(t.idxs().subset_of(rng)) by {
            assert forall|j: int| t.idxs().contains(j) implies rng.contains(j) by {
                lemma_idx_positive(t, nodes, p, j);
            }
        }
        assert(rng.finite() && rng.len() <= nodes.len()) by {
            lemma_range_card((nodes.len() - 1) as nat);
            assert(rng =~= Set::new(|j: int| 0 < j < (nodes.len() - 1) as nat + 1));
        }
        vstd::set_lib::lemma_len_subset(t.idxs(), rng);
    }
}

/// The set of live slots below an arena size is finite, with as many
/// elements as slots minus the sentinel.
pub proof fn lemma_range_card(n: nat)
    ensures
        Set::new(|j: int| 0 < j < n + 1).finite(),
        Set::new(|j: int| 0 < j < n + 1).len() == n,
    decreases n,
{
    if n == 0 {
        assert(Set::new(|j: int| 0 < j < 1) =~= Set::<int>::empty());
    } else {
        lemma_range_card((n - 1) as nat);
        assert(Set::new(|j: int| 0 < j < n + 1) =~= Set::new(|j: int| 0 < j < n).insert(n as int));
    }
}

/// In a realised shape, node count and index count agree: all indices are
/// distinct.
pub proof fn lemma_size_is_card(t: Shape, nodes: Seq<Node>, p: int)
    requires
        shape_inv(t, nodes, p),
    ensures
        t.idxs().finite(),
        t.size() == t.idxs().len(),
    decreases t,
{
    crate::shape::lemma_idxs_finite(t);
    match t {
        Shape::Nil => {
            assert(t.idxs() =~= Set::<int>::empty());
        },
        Shape::Node { i, l, r, .. } => {
            lemma_size_is_card(*l, nodes, i);
            lemma_size_is_card(*r, nodes, i);
            vstd::set_lib::lemma_set_disjoint_lens(l.idxs(), r.idxs());
            assert(t.idxs() =~= l.idxs().union(r.idxs()).insert(i));
            assert(!l.idxs().union(r.idxs()).contains(i));
        },
    }
}

/// Black height never exceeds the node count.
pub proof fn lemma_bh_le_size(t: Shape)
    ensures
        t.bh() <= t.size(),
    decreases t,
{
    match t {
        Shape::Nil => {},
        Shape::Node { l, .. } => {
            lemma_bh_le_size(*l);
        },
    }
}

/// Every index of a realised shape is a live slot: positive and in bounds.
pub proof fn lemma_idx_positive(t: Shape, nodes: Seq<Node>, parent: int, j: int)
    requires
        shape_inv(t, nodes, parent),
        t.idxs().contains(j),
    ensures
        0 < j < nodes.len(),
    decreases t,
{
    match t {
        Shape::Nil => {},
        Shape::Node { i, l, r, .. } => {
            if j == i {
            } else if l.idxs().contains(j) {
                lemma_idx_positive(*l, nodes, i, j);
            } else {
                lemma_idx_positive(*r, nodes, i, j);
            }
        },
    }
}

/// At any index `x` of a realised shape, the slot's fields agree with the
/// subtree of the shape rooted there.
pub proof fn lemma_subtree_fields(t: Shape, nodes: Seq<Node>, parent: int, x: int)
    requires
        shape_inv(t, nodes, parent),
        t.idxs().contains(x),
    ensures
        t.subtree_at(x) is Node,
        t.subtree_at(x).root_idx() == x,
        0 < x < nodes.len(),
        nodes[x].key == t.subtree_at(x).key(),
        nodes[x].red == (t.subtree_at(x) matches Shape::Node { red, .. } && red),
        nodes[x].kid(0) == t.subtree_at(x).left().root_idx(),
        nodes[x].kid(1) == t.subtree_at(x).right().root_idx(),
        t.subtree_at(x).left().idxs().subset_of(t.idxs()),
        t.subtree_at(x).right().idxs().subset_of(t.idxs()),
        shape_inv(t.subtree_at(x), nodes, nodes[x].pi()),
    decreases t,
{
    match t {
        Shape::Nil => {},
        Shape::Node { i, l, r, .. } => {
            if i == x {
                assert(t.subtree_at(x) == t);
            } else if l.idxs().contains(x) {
                lemma_subtree_fields(*l, nodes, i, x);
            } else {
                lemma_subtree_fields(*r, nodes, i, x);
            }
        },
    }
}

} // verus!
