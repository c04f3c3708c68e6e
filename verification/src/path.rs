//! Ghost contexts ("zippers") over [`crate::shape::Shape`]: a position inside
//! a tree is a sequence of frames from the root down to a hole, each frame
//! recording the node passed through and the subtree on the other side.
//! The iterative tree operations keep such a context while they descend or
//! climb, and the lemmas here relate facts about the whole tree to facts
//! about the context and the subtree in the hole.

use vstd::prelude::*;
use vstd::multiset::Multiset;
use crate::shape::Shape;
use crate::tree::{Node, shape_inv};

verus! {

/// One step of a position: the node passed through (its index, key and
/// color), which side the path continued on (`side`), and the subtree on
/// the other side (`sib`).
pub ghost struct Frame {
    pub side: int,
    pub i: int,
    pub k: u64,
    pub red: bool,
    pub sib: Shape,
}

/// Rebuild one level: put `t` on `f.side` of the frame's node.
pub open spec fn wrap(f: Frame, t: Shape) -> Shape {
    if f.side == 0 {
        Shape::Node { i: f.i, k: f.k, red: f.red, l: Box::new(t), r: Box::new(f.sib) }
    } else {
        Shape::Node { i: f.i, k: f.k, red: f.red, l: Box::new(f.sib), r: Box::new(t) }
    }
}

/// Rebuild the whole tree from a context (outermost frame first) and the
/// subtree in the hole.
pub open spec fn plug(ctx: Seq<Frame>, t: Shape) -> Shape
    decreases ctx.len(),
{
    if ctx.len() == 0 {
        t
    } else {
        plug(ctx.drop_last(), wrap(ctx.last(), t))
    }
}

/// The parent index seen from the hole: the innermost frame's node, or 0 at
/// the root.
pub open spec fn ctx_parent(ctx: Seq<Frame>) -> int {
    if ctx.len() == 0 {
        0
    } else {
        ctx.last().i
    }
}

/// All indices mentioned by the context: frame nodes and their siblings.
pub open spec fn ctx_idxs(ctx: Seq<Frame>) -> Set<int>
    decreases ctx.len(),
{
    if ctx.len() == 0 {
        Set::empty()
    } else {
        ctx_idxs(ctx.drop_last()).union(ctx.last().sib.idxs()).insert(ctx.last().i)
    }
}

/// All keys held by the context: frame keys and their siblings' keys.
pub open spec fn ctx_keys(ctx: Seq<Frame>) -> Multiset<u64>
    decreases ctx.len(),
{
    if ctx.len() == 0 {
        Multiset::empty()
    } else {
        ctx_keys(ctx.drop_last()).add(ctx.last().sib.keys()).insert(ctx.last().k)
    }
}

/// The arena realises the context around a hole whose root index is `hole`:
/// each frame's node is a live slot pointing at its sibling, at the next
/// frame (or the hole, innermost), and back at the previous frame; all the
/// indices involved are distinct.
pub open spec fn ctx_inv(ctx: Seq<Frame>, nodes: Seq<Node>, hole: int) -> bool
    decreases ctx.len(),
{
    if ctx.len() == 0 {
        true
    } else {
        let f = ctx.last();
        &&& f.side == 0 || f.side == 1
        &&& 0 < f.i < nodes.len()
        &&& nodes[f.i].key == f.k
        &&& nodes[f.i].red == f.red
        &&& nodes[f.i].pi() == ctx_parent(ctx.drop_last())
        &&& nodes[f.i].kid(f.side) == hole
        &&& nodes[f.i].kid(1 - f.side) == f.sib.root_idx()
        &&& shape_inv(f.sib, nodes, f.i)
        &&& !f.sib.idxs().contains(f.i)
        &&& ctx_idxs(ctx.drop_last()).disjoint(f.sib.idxs().insert(f.i))
        &&& ctx_inv(ctx.drop_last(), nodes, f.i)
    }
}

/// Bounds the hole's keys: a key may sit in the hole only if it respects
/// every frame's key on the way down.
pub open spec fn in_hole_range(ctx: Seq<Frame>, q: u64) -> bool
    decreases ctx.len(),
{
    if ctx.len() == 0 {
        true
    } else {
        let f = ctx.last();
        &&& if f.side == 0 {
            q <= f.k
        } else {
            q >= f.k
        }
        &&& in_hole_range(ctx.drop_last(), q)
    }
}

/// The context is in binary-search order on its own: every sibling sits on
/// the correct side of its frame's key, and every frame key and sibling key
/// respects the frames above it.
pub open spec fn ctx_sorted(ctx: Seq<Frame>) -> bool
    decreases ctx.len(),
{
    if ctx.len() == 0 {
        true
    } else {
        let f = ctx.last();
        &&& ctx_sorted(ctx.drop_last())
        &&& f.sib.sorted()
        &&& if f.side == 0 {
            f.sib.key_ge(f.k)
        } else {
            f.sib.key_le(f.k)
        }
        &&& in_hole_range(ctx.drop_last(), f.k)
        &&& (forall|q: u64| f.sib.keys().contains(q) ==> in_hole_range(ctx.drop_last(), q))
    }
}

/// The red-black conditions of a whole tree, seen from a hole that expects a
/// subtree of black height `h` whose root is red exactly when `hole_red`:
/// every sibling is a valid red-black subtree of matching black height, and
/// a red frame has a black sibling and a black occupant below it.
pub open spec fn ctx_rb(ctx: Seq<Frame>, h: nat, hole_red: bool) -> bool
    decreases ctx.len(),
{
    if ctx.len() == 0 {
        true
    } else {
        let f = ctx.last();
        &&& f.sib.rb_ok()
        &&& f.sib.bh() == h
        &&& (f.red ==> !hole_red && f.sib.is_black())
        &&& ctx_rb(
            ctx.drop_last(),
            h + if f.red {
                0nat
            } else {
                1nat
            },
            f.red,
        )
    }
}

/// Like [`ctx_rb`], but the innermost frame tolerates a red occupant below
/// a red node: the one violation the fixup loops carry.
pub open spec fn ctx_rb_almost(ctx: Seq<Frame>, h: nat) -> bool
    decreases ctx.len(),
{
    if ctx.len() == 0 {
        true
    } else {
        let f = ctx.last();
        &&& f.sib.rb_ok()
        &&& f.sib.bh() == h
        &&& (f.red ==> f.sib.is_black())
        &&& ctx_rb(
            ctx.drop_last(),
            h + if f.red {
                0nat
            } else {
                1nat
            },
            f.red,
        )
    }
}

/// Every frame's side is a direction, 0 or 1.
pub open spec fn ctx_sides(ctx: Seq<Frame>) -> bool {
    forall|j: int| 0 <= j < ctx.len() ==> (#[trigger] ctx[j]).side == 0 || ctx[j].side == 1
}

/// Plugging one more frame first is the same as wrapping the subtree.
pub proof fn lemma_plug_push(ctx: Seq<Frame>, f: Frame, t: Shape)
    ensures
        plug(ctx.push(f), t) == plug(ctx, wrap(f, t)),
{
    assert(ctx.push(f).drop_last() =~= ctx);
    assert(ctx.push(f).last() == f);
}

/// Plugging a concatenated context plugs the inner part first.
pub proof fn lemma_plug_append(c1: Seq<Frame>, c2: Seq<Frame>, t: Shape)
    ensures
        plug(c1 + c2, t) == plug(c1, plug(c2, t)),
    decreases c2.len(),
{
    if c2.len() == 0 {
        assert(c1 + c2 =~= c1);
    } else {
        assert((c1 + c2).last() == c2.last());
        assert((c1 + c2).drop_last() =~= c1 + c2.drop_last());
        lemma_plug_append(c1, c2.drop_last(), wrap(c2.last(), t));
    }
}

/// The root of a plugged tree is the outermost frame's node, or the
/// subtree's root for an empty context; the plugged tree is black exactly
/// when that root is.
pub proof fn lemma_plug_root(ctx: Seq<Frame>, t: Shape)
    ensures
        ctx.len() > 0 ==> plug(ctx, t) is Node && plug(ctx, t).root_idx() == ctx.first().i
            && plug(ctx, t).is_black() == !ctx.first().red,
        ctx.len() == 0 ==> plug(ctx, t) == t,
    decreases ctx.len(),
{
    if ctx.len() > 0 {
        lemma_plug_root(ctx.drop_last(), wrap(ctx.last(), t));
        if ctx.len() == 1 {
            assert(ctx.first() == ctx.last());
        } else {
            assert(ctx.drop_last().first() == ctx.first());
        }
    }
}

/// Keys of a plugged tree: the context's keys plus the hole's keys.
pub proof fn lemma_plug_keys(ctx: Seq<Frame>, t: Shape)
    ensures
        plug(ctx, t).keys() == ctx_keys(ctx).add(t.keys()),
    decreases ctx.len(),
{
    if ctx.len() == 0 {
        assert(plug(ctx, t).keys() =~= ctx_keys(ctx).add(t.keys()));
    } else {
        let f = ctx.last();
        lemma_plug_keys(ctx.drop_last(), wrap(f, t));
        assert(wrap(f, t).keys() =~= t.keys().add(f.sib.keys()).insert(f.k));
        assert(ctx_keys(ctx.drop_last()).add(wrap(f, t).keys()) =~= ctx_keys(ctx).add(t.keys()));
    }
}

/// Indices of a plugged tree: the context's indices plus the hole's indices.
pub proof fn lemma_plug_idxs(ctx: Seq<Frame>, t: Shape)
    ensures
        plug(ctx, t).idxs() == ctx_idxs(ctx).union(t.idxs()),
    decreases ctx.len(),
{
    if ctx.len() == 0 {
        assert(plug(ctx, t).idxs() =~= ctx_idxs(ctx).union(t.idxs()));
    } else {
        let f = ctx.last();
        lemma_plug_idxs(ctx.drop_last(), wrap(f, t));
        assert(wrap(f, t).idxs() =~= t.idxs().union(f.sib.idxs()).insert(f.i));
        assert(ctx_idxs(ctx.drop_last()).union(wrap(f, t).idxs()) =~= ctx_idxs(ctx).union(
            t.idxs(),
        ));
    }
}

/// The arena realises the plugged tree exactly when it realises the context
/// around the hole and the subtree in it, with all indices disjoint.
pub proof fn lemma_plug_inv(ctx: Seq<Frame>, t: Shape, nodes: Seq<Node>)
    requires
        ctx_sides(ctx),
    ensures
        shape_inv(plug(ctx, t), nodes, 0) <==> (ctx_inv(ctx, nodes, t.root_idx()) && shape_inv(
            t,
            nodes,
            ctx_parent(ctx),
        ) && ctx_idxs(ctx).disjoint(t.idxs())),
    decreases ctx.len(),
{
    if ctx.len() == 0 {
        assert(ctx_idxs(ctx).disjoint(t.idxs())) by {
            assert(ctx_idxs(ctx) =~= Set::empty());
        }
    } else {
        let f = ctx.last();
        let w = wrap(f, t);
        assert(f == ctx[ctx.len() - 1]);
        assert(f.side == 0 || f.side == 1);
        assert(ctx_sides(ctx.drop_last())) by {
            assert forall|j: int| 0 <= j < ctx.drop_last().len() implies (#[trigger] ctx.drop_last(
            )[j]).side == 0 || ctx.drop_last()[j].side == 1 by {
                assert(ctx.drop_last()[j] == ctx[j]);
            }
        }
        lemma_plug_inv(ctx.drop_last(), w, nodes);
        assert(w.idxs() =~= t.idxs().union(f.sib.idxs()).insert(f.i));
        assert(ctx_idxs(ctx) =~= ctx_idxs(ctx.drop_last()).union(f.sib.idxs()).insert(f.i));
        if shape_inv(plug(ctx, t), nodes, 0) {
            assert(shape_inv(w, nodes, ctx_parent(ctx.drop_last())));
            assert(ctx_idxs(ctx.drop_last()).disjoint(w.idxs()));
            assert(w.root_idx() == f.i);
            if f.side == 0 {
                assert(!t.idxs().contains(f.i));
                assert(t.idxs().disjoint(f.sib.idxs()));
                assert forall|j: int| #[trigger] f.sib.idxs().contains(j) implies !t.idxs().contains(j) by {
                    assert(t.idxs().disjoint(f.sib.idxs()));
                }
            } else {
                assert(!t.idxs().contains(f.i));
                assert(f.sib.idxs().disjoint(t.idxs()));
            }
            assert(ctx_idxs(ctx.drop_last()).disjoint(f.sib.idxs().insert(f.i))) by {
                assert forall|j: int| #[trigger] ctx_idxs(ctx.drop_last()).contains(j) implies !f.sib.idxs(
                ).insert(f.i).contains(j) by {
                    assert(w.idxs().contains(j) == false);
                }
            }
            assert(ctx_idxs(ctx).disjoint(t.idxs())) by {
                assert forall|j: int| ctx_idxs(ctx).contains(j) implies !t.idxs().contains(j) by {
                    if j == f.i {
                    } else if f.sib.idxs().contains(j) {
                    } else {
                        assert(ctx_idxs(ctx.drop_last()).contains(j));
                        assert(!w.idxs().contains(j));
                        assert(w.idxs().contains(j) || !t.idxs().contains(j));
                    }
                }
            }
            assert(ctx_inv(ctx, nodes, t.root_idx()));
            assert(shape_inv(t, nodes, ctx_parent(ctx)));
        }
        if ctx_inv(ctx, nodes, t.root_idx()) && shape_inv(t, nodes, ctx_parent(ctx)) && ctx_idxs(
            ctx,
        ).disjoint(t.idxs()) {
            assert(shape_inv(w, nodes, ctx_parent(ctx.drop_last())));
            assert(ctx_idxs(ctx.drop_last()).disjoint(w.idxs()));
            assert(shape_inv(plug(ctx, t), nodes, 0));
        }
    }
}

/// A plugged tree is sorted exactly when the context is, the hole's subtree
/// is, and every key in the hole respects the frames above it.
pub proof fn lemma_plug_sorted(ctx: Seq<Frame>, t: Shape)
    ensures
        plug(ctx, t).sorted() <==> (ctx_sorted(ctx) && t.sorted() && (forall|q: u64|
            t.keys().contains(q) ==> in_hole_range(ctx, q))),
    decreases ctx.len(),
{
    if ctx.len() == 0 {
    } else {
        let f = ctx.last();
        let w = wrap(f, t);
        lemma_plug_sorted(ctx.drop_last(), w);
        assert forall|q: u64| w.keys().contains(q) implies (q == f.k || f.sib.keys().contains(q)
            || t.keys().contains(q)) by {
            assert(w.keys() =~= t.keys().add(f.sib.keys()).insert(f.k));
        }
        assert forall|q: u64|
            (q == f.k || f.sib.keys().contains(q) || t.keys().contains(q)) implies w.keys(
        ).contains(q) by {
            assert(w.keys() =~= t.keys().add(f.sib.keys()).insert(f.k));
        }
        if plug(ctx, t).sorted() {
            assert(w.sorted());
            assert(forall|q: u64| t.keys().contains(q) ==> w.keys().contains(q));
            assert forall|q: u64| t.keys().contains(q) implies in_hole_range(ctx, q) by {
                assert(in_hole_range(ctx.drop_last(), q));
            }
        }
        if ctx_sorted(ctx) && t.sorted() && (forall|q: u64|
            t.keys().contains(q) ==> in_hole_range(ctx, q)) {
            assert forall|q: u64| t.keys().contains(q) implies (if f.side == 0 {
                q <= f.k
            } else {
                q >= f.k
            }) by {
                assert(in_hole_range(ctx, q));
            }
            assert(w.sorted());
            assert forall|q: u64| w.keys().contains(q) implies in_hole_range(
                ctx.drop_last(),
                q,
            ) by {
                if q == f.k {
                } else if f.sib.keys().contains(q) {
                } else {
                    assert(t.keys().contains(q));
                    assert(in_hole_range(ctx, q));
                }
            }
        }
    }
}

/// A plugged tree satisfies the red-black conditions exactly when the hole's
/// subtree does and the context does, seen from the hole.
pub proof fn lemma_plug_rb(ctx: Seq<Frame>, t: Shape)
    ensures
        plug(ctx, t).rb_ok() <==> (t.rb_ok() && ctx_rb(ctx, t.bh(), !t.is_black())),
    decreases ctx.len(),
{
    if ctx.len() == 0 {
    } else {
        let f = ctx.last();
        let w = wrap(f, t);
        lemma_plug_rb(ctx.drop_last(), w);
        if t.rb_ok() && ctx_rb(ctx, t.bh(), !t.is_black()) {
            assert(w.rb_ok());
            assert(w.bh() == t.bh() + if f.red {
                0nat
            } else {
                1nat
            });
        }
        if plug(ctx, t).rb_ok() {
            assert(w.rb_ok());
            assert(w.bh() == t.bh() + if f.red {
                0nat
            } else {
                1nat
            });
        }
    }
}

/// The internal distinctness a realised context always has: every frame's
/// node and sibling indices are disjoint from all frames above it.
pub open spec fn ctx_distinct(ctx: Seq<Frame>) -> bool
    decreases ctx.len(),
{
    if ctx.len() == 0 {
        true
    } else {
        let f = ctx.last();
        &&& !f.sib.idxs().contains(f.i)
        &&& ctx_idxs(ctx.drop_last()).disjoint(f.sib.idxs().insert(f.i))
        &&& ctx_distinct(ctx.drop_last())
    }
}

/// A realised context is internally distinct.
pub proof fn lemma_ctx_inv_distinct(ctx: Seq<Frame>, nodes: Seq<Node>, hole: int)
    requires
        ctx_inv(ctx, nodes, hole),
    ensures
        ctx_distinct(ctx),
    decreases ctx.len(),
{
    if ctx.len() > 0 {
        lemma_ctx_inv_distinct(ctx.drop_last(), nodes, ctx.last().i);
    }
}

/// The context of the node with arena index `x` inside `t`, outermost frame
/// first; meaningful when `x` is an index of `t`.
pub open spec fn path_to(t: Shape, x: int) -> Seq<Frame>
    decreases t,
{
    match t {
        Shape::Nil => Seq::empty(),
        Shape::Node { i, k, red, l, r } => {
            if i == x {
                Seq::empty()
            } else if l.idxs().contains(x) {
                seq![Frame { side: 0, i, k, red, sib: *r }] + path_to(*l, x)
            } else if r.idxs().contains(x) {
                seq![Frame { side: 1, i, k, red, sib: *l }] + path_to(*r, x)
            } else {
                Seq::empty()
            }
        },
    }
}

/// Sides stay directions under concatenation.
pub proof fn lemma_ctx_sides_concat(c1: Seq<Frame>, c2: Seq<Frame>)
    requires
        ctx_sides(c1),
        ctx_sides(c2),
    ensures
        ctx_sides(c1 + c2),
{
    assert forall|j: int| 0 <= j < (c1 + c2).len() implies (#[trigger] (c1 + c2)[j]).side == 0 || (
    c1 + c2)[j].side == 1 by {
        if j < c1.len() {
            assert((c1 + c2)[j] == c1[j]);
        } else {
            assert((c1 + c2)[j] == c2[j - c1.len()]);
        }
    }
}

/// Plugging the subtree at `x` back into the context of `x` restores `t`.
pub proof fn lemma_path_to(t: Shape, x: int)
    requires
        t.idxs().contains(x),
    ensures
        ctx_sides(path_to(t, x)),
        plug(path_to(t, x), t.subtree_at(x)) == t,
    decreases t,
{
    match t {
        Shape::Nil => {},
        Shape::Node { i, k, red, l, r } => {
            if i == x {
            } else if l.idxs().contains(x) {
                lemma_path_to(*l, x);
                let f = Frame { side: 0, i, k, red, sib: *r };
                lemma_ctx_sides_concat(seq![f], path_to(*l, x));
                lemma_plug_append(seq![f], path_to(*l, x), l.subtree_at(x));
                assert(plug(seq![f], *l) == wrap(f, *l)) by {
                    assert(seq![f] =~= Seq::<Frame>::empty().push(f));
                    lemma_plug_push(Seq::<Frame>::empty(), f, *l);
                }
                assert(wrap(f, *l) == t);
            } else if r.idxs().contains(x) {
                lemma_path_to(*r, x);
                let f = Frame { side: 1, i, k, red, sib: *l };
                lemma_ctx_sides_concat(seq![f], path_to(*r, x));
                lemma_plug_append(seq![f], path_to(*r, x), r.subtree_at(x));
                assert(plug(seq![f], *r) == wrap(f, *r)) by {
                    assert(seq![f] =~= Seq::<Frame>::empty().push(f));
                    lemma_plug_push(Seq::<Frame>::empty(), f, *r);
                }
                assert(wrap(f, *r) == t);
            }
        },
    }
}

/// A shape stays realised if the arena changes only outside its indices.
pub proof fn lemma_shape_inv_frame(t: Shape, n1: Seq<Node>, n2: Seq<Node>, parent: int)
    requires
        shape_inv(t, n1, parent),
        n1.len() <= n2.len(),
        forall|j: int| #[trigger] t.idxs().contains(j) ==> 0 <= j < n2.len() && n2[j] == n1[j],
    ensures
        shape_inv(t, n2, parent),
    decreases t,
{
    match t {
        Shape::Nil => {},
        Shape::Node { i, l, r, .. } => {
            assert forall|j: int| #[trigger] l.idxs().contains(j) implies 0 <= j < n2.len() && n2[j]
                == n1[j] by {
                assert(t.idxs().contains(j));
            }
            assert forall|j: int| #[trigger] r.idxs().contains(j) implies 0 <= j < n2.len() && n2[j]
                == n1[j] by {
                assert(t.idxs().contains(j));
            }
            lemma_shape_inv_frame(*l, n1, n2, i);
            lemma_shape_inv_frame(*r, n1, n2, i);
            assert(t.idxs().contains(i));
        },
    }
}

/// A shape stays realised under a new parent if the arena changes only at
/// its root slot, and there only in the parent field.
pub proof fn lemma_shape_inv_reparent(t: Shape, n1: Seq<Node>, n2: Seq<Node>, p1: int, p2: int)
    requires
        shape_inv(t, n1, p1),
        t is Node,
        n1.len() <= n2.len(),
        forall|j: int|
            #[trigger] t.idxs().contains(j) && j != t.root_idx() ==> 0 <= j < n2.len() && n2[j]
                == n1[j],
        n2[t.root_idx()].key == n1[t.root_idx()].key,
        n2[t.root_idx()].red == n1[t.root_idx()].red,
        n2[t.root_idx()].kid(0) == n1[t.root_idx()].kid(0),
        n2[t.root_idx()].kid(1) == n1[t.root_idx()].kid(1),
        n2[t.root_idx()].pi() == p2,
    ensures
        shape_inv(t, n2, p2),
{
    match t {
        Shape::Nil => {},
        Shape::Node { i, l, r, .. } => {
            assert forall|j: int| #[trigger] l.idxs().contains(j) implies 0 <= j < n2.len() && n2[j]
                == n1[j] by {
                assert(t.idxs().contains(j) && j != t.root_idx());
            }
            assert forall|j: int| #[trigger] r.idxs().contains(j) implies 0 <= j < n2.len() && n2[j]
                == n1[j] by {
                assert(t.idxs().contains(j) && j != t.root_idx());
            }
            lemma_shape_inv_frame(*l, n1, n2, i);
            lemma_shape_inv_frame(*r, n1, n2, i);
        },
    }
}

/// A context stays realised if the arena changes only outside its indices.
pub proof fn lemma_ctx_inv_frame(ctx: Seq<Frame>, n1: Seq<Node>, n2: Seq<Node>, hole: int)
    requires
        ctx_inv(ctx, n1, hole),
        n1.len() <= n2.len(),
        forall|j: int| #[trigger] ctx_idxs(ctx).contains(j) ==> 0 <= j < n2.len() && n2[j] == n1[j],
    ensures
        ctx_inv(ctx, n2, hole),
    decreases ctx.len(),
{
    if ctx.len() > 0 {
        let f = ctx.last();
        assert forall|j: int| #[trigger] ctx_idxs(ctx.drop_last()).contains(j) implies 0 <= j < n2.len()
            && n2[j] == n1[j] by {
            assert(ctx_idxs(ctx).contains(j));
        }
        assert forall|j: int| #[trigger] f.sib.idxs().contains(j) implies 0 <= j < n2.len() && n2[j]
            == n1[j] by {
            assert(ctx_idxs(ctx).contains(j));
        }
        lemma_ctx_inv_frame(ctx.drop_last(), n1, n2, f.i);
        lemma_shape_inv_frame(f.sib, n1, n2, f.i);
        assert(ctx_idxs(ctx).contains(f.i));
    }
}

/// A context stays realised around a new hole if the arena changes only at
/// the innermost frame's slot, and there only in the hole-side child field.
pub proof fn lemma_ctx_inv_update_hole(
    ctx: Seq<Frame>,
    n1: Seq<Node>,
    n2: Seq<Node>,
    h1: int,
    h2: int,
)
    requires
        ctx.len() > 0,
        ctx_inv(ctx, n1, h1),
        n1.len() <= n2.len(),
        forall|j: int|
            #[trigger] ctx_idxs(ctx).contains(j) && j != ctx.last().i ==> 0 <= j < n2.len() && n2[j]
                == n1[j],
        n2[ctx.last().i].key == n1[ctx.last().i].key,
        n2[ctx.last().i].red == n1[ctx.last().i].red,
        n2[ctx.last().i].pi() == n1[ctx.last().i].pi(),
        n2[ctx.last().i].kid(1 - ctx.last().side) == n1[ctx.last().i].kid(1 - ctx.last().side),
        n2[ctx.last().i].kid(ctx.last().side) == h2,
    ensures
        ctx_inv(ctx, n2, h2),
{
    let f = ctx.last();
    assert forall|j: int| #[trigger] ctx_idxs(ctx.drop_last()).contains(j) implies 0 <= j < n2.len() && n2[j]
        == n1[j] by {
        assert(ctx_idxs(ctx).contains(j));
        assert(j != f.i);
    }
    lemma_ctx_inv_frame(ctx.drop_last(), n1, n2, f.i);
    assert forall|j: int| #[trigger] f.sib.idxs().contains(j) implies 0 <= j < n2.len() && n2[j] == n1[j] by {
        assert(ctx_idxs(ctx).contains(j));
        assert(j != f.i);
    }
    lemma_shape_inv_frame(f.sib, n1, n2, f.i);
}

/// Every index a realised context mentions is a live slot.
pub proof fn lemma_ctx_idxs_positive(ctx: Seq<Frame>, nodes: Seq<Node>, hole: int, j: int)
    requires
        ctx_inv(ctx, nodes, hole),
        ctx_idxs(ctx).contains(j),
    ensures
        0 < j < nodes.len(),
    decreases ctx.len(),
{
    if ctx.len() > 0 {
        let f = ctx.last();
        if j == f.i {
        } else if f.sib.idxs().contains(j) {
            crate::tree::lemma_idx_positive(f.sib, nodes, f.i, j);
        } else {
            lemma_ctx_idxs_positive(ctx.drop_last(), nodes, f.i, j);
        }
    }
}

/// The strict red-black context condition is monotone in the hole color and
/// implies the relaxed one.
pub proof fn lemma_ctx_rb_weaken(ctx: Seq<Frame>, h: nat, hole_red: bool)
    requires
        ctx_rb(ctx, h, hole_red),
    ensures
        ctx_rb(ctx, h, false),
        ctx_rb_almost(ctx, h),
{
}

/// A relaxed context whose innermost frame is black is strict.
pub proof fn lemma_ctx_rb_strengthen(ctx: Seq<Frame>, h: nat, hole_red: bool)
    requires
        ctx_rb_almost(ctx, h),
        ctx.len() > 0 ==> !ctx.last().red,
    ensures
        ctx_rb(ctx, h, hole_red),
{
}

/// A relaxed context is strict around a black occupant.
pub proof fn lemma_ctx_rb_almost_black_hole(ctx: Seq<Frame>, h: nat)
    requires
        ctx_rb_almost(ctx, h),
    ensures
        ctx_rb(ctx, h, false),
{
}

/// Key bounds through one more frame.
pub proof fn lemma_hole_range_push(ctx: Seq<Frame>, f: Frame, q: u64)
    ensures
        in_hole_range(ctx.push(f), q) == ((if f.side == 0 {
            q <= f.k
        } else {
            q >= f.k
        }) && in_hole_range(ctx, q)),
{
    assert(ctx.push(f).drop_last() =~= ctx);
    assert(ctx.push(f).last() == f);
}

/// A shape stays realised if the arena changes only at its root slot, and
/// there only in the color field.
pub proof fn lemma_shape_inv_recolor(t: Shape, n1: Seq<Node>, n2: Seq<Node>, parent: int, c: bool)
    requires
        shape_inv(t, n1, parent),
        t is Node,
        n1.len() <= n2.len(),
        forall|j: int|
            #[trigger] t.idxs().contains(j) && j != t.root_idx() ==> 0 <= j < n2.len() && n2[j]
                == n1[j],
        n2[t.root_idx()].key == n1[t.root_idx()].key,
        n2[t.root_idx()].red == c,
        n2[t.root_idx()].kid(0) == n1[t.root_idx()].kid(0),
        n2[t.root_idx()].kid(1) == n1[t.root_idx()].kid(1),
        n2[t.root_idx()].pi() == n1[t.root_idx()].pi(),
    ensures
        shape_inv(t.recolor(c), n2, parent),
        t.recolor(c).idxs() == t.idxs(),
        t.recolor(c).keys() == t.keys(),
        t.recolor(c).root_idx() == t.root_idx(),
        t.sorted() ==> t.recolor(c).sorted(),
{
    match t {
        Shape::Nil => {},
        Shape::Node { i, l, r, .. } => {
            assert forall|j: int| #[trigger] l.idxs().contains(j) implies 0 <= j < n2.len() && n2[j]
                == n1[j] by {
                assert(t.idxs().contains(j) && j != t.root_idx());
            }
            assert forall|j: int| #[trigger] r.idxs().contains(j) implies 0 <= j < n2.len() && n2[j]
                == n1[j] by {
                assert(t.idxs().contains(j) && j != t.root_idx());
            }
            lemma_shape_inv_frame(*l, n1, n2, i);
            lemma_shape_inv_frame(*r, n1, n2, i);
            assert(t.recolor(c).idxs() =~= t.idxs());
            assert(t.recolor(c).keys() =~= t.keys());
        },
    }
}

/// Rotating at an index inside the hole's subtree commutes with plugging.
pub proof fn lemma_rotate_at_plug(ctx: Seq<Frame>, t: Shape, x: int, dir: int)
    requires
        ctx_distinct(ctx),
        ctx_idxs(ctx).disjoint(t.idxs()),
        t.idxs().contains(x),
    ensures
        crate::shape::rotate_at(plug(ctx, t), x, dir) == plug(
            ctx,
            crate::shape::rotate_at(t, x, dir),
        ),
        plug(ctx, t).idxs().contains(x),
        plug(ctx, t).subtree_at(x) == t.subtree_at(x),
    decreases ctx.len(),
{
    lemma_plug_idxs(ctx, t);
    if ctx.len() == 0 {
    } else {
        let f = ctx.last();
        let w = wrap(f, t);
        assert(w.idxs() =~= t.idxs().union(f.sib.idxs()).insert(f.i));
        assert forall|j: int| #[trigger] ctx_idxs(ctx.drop_last()).contains(j) implies !w.idxs().contains(
            j,
        ) by {
            assert(ctx_idxs(ctx).contains(j));
            assert(f.sib.idxs().insert(f.i).contains(j) == false);
        }
        assert(x != f.i && !f.sib.idxs().contains(x)) by {
            assert(ctx_idxs(ctx).contains(f.i));
            assert forall|j: int| #[trigger] f.sib.idxs().contains(j) implies ctx_idxs(ctx).contains(j) by {}
        }
        assert(crate::shape::rotate_at(w, x, dir) == wrap(f, crate::shape::rotate_at(t, x, dir)));
        assert(w.subtree_at(x) == t.subtree_at(x));
        lemma_rotate_at_plug(ctx.drop_last(), w, x, dir);
        assert(plug(ctx, crate::shape::rotate_at(t, x, dir)) == plug(
            ctx.drop_last(),
            wrap(f, crate::shape::rotate_at(t, x, dir)),
        ));
    }
}

} // verus!
