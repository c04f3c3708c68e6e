//! The ghost model of a red-black tree: a recursive shape holding, for every
//! live node, its arena index, key and color.  All contracts of the
//! executable tree are stated over this model.

use vstd::prelude::*;
use vstd::multiset::Multiset;

verus! {

/// Abstract form of one tree: empty (the sentinel) or a node with an arena
/// index, a key, a color (`red` true for red, false for black) and two
/// subtrees, left then right.
pub ghost enum Shape {
    Nil,
    Node { i: int, k: u64, red: bool, l: Box<Shape>, r: Box<Shape> },
}

impl Shape {
    /// Arena index of the shape's root; the sentinel index 0 for an empty shape.
    pub open spec fn root_idx(self) -> int {
        match self {
            Shape::Nil => 0,
            Shape::Node { i, .. } => i,
        }
    }

    /// The set of arena indices of all nodes in the shape.
    pub open spec fn idxs(self) -> Set<int>
        decreases self,
    {
        match self {
            Shape::Nil => Set::empty(),
            Shape::Node { i, l, r, .. } => l.idxs().union(r.idxs()).insert(i),
        }
    }

    /// The multiset of keys held by the shape.
    pub open spec fn keys(self) -> Multiset<u64>
        decreases self,
    {
        match self {
            Shape::Nil => Multiset::empty(),
            Shape::Node { k, l, r, .. } => l.keys().add(r.keys()).insert(k),
        }
    }

    /// Number of nodes in the shape.
    pub open spec fn size(self) -> nat
        decreases self,
    {
        match self {
            Shape::Nil => 0,
            Shape::Node { l, r, .. } => 1 + l.size() + r.size(),
        }
    }

    /// Every key in the shape is at most `b`.
    pub open spec fn key_le(self, b: u64) -> bool {
        forall|q: u64| self.keys().contains(q) ==> q <= b
    }

    /// Every key in the shape is at least `b`.
    pub open spec fn key_ge(self, b: u64) -> bool {
        forall|q: u64| self.keys().contains(q) ==> q >= b
    }

    /// Binary-search order with duplicates: at every node, the left subtree
    /// holds keys at most the node's key and the right subtree holds keys at
    /// least the node's key.
    pub open spec fn sorted(self) -> bool
        decreases self,
    {
        match self {
            Shape::Nil => true,
            Shape::Node { k, l, r, .. } => l.sorted() && r.sorted() && l.key_le(k) && r.key_ge(k),
        }
    }

    /// Black height: the count of black nodes on the path from the root to
    /// the leftmost sentinel, the root included.
    pub open spec fn bh(self) -> nat
        decreases self,
    {
        match self {
            Shape::Nil => 0,
            Shape::Node { red, l, .. } => l.bh() + if red {
                0nat
            } else {
                1nat
            },
        }
    }

    /// The root is black; an empty shape counts as black (the sentinel is black).
    pub open spec fn is_black(self) -> bool {
        match self {
            Shape::Nil => true,
            Shape::Node { red, .. } => !red,
        }
    }

    /// The red-black color conditions within the shape: no red node has a red
    /// child, and at every node both subtrees carry the same black height.
    pub open spec fn rb_ok(self) -> bool
        decreases self,
    {
        match self {
            Shape::Nil => true,
            Shape::Node { red, l, r, .. } => {
                &&& l.rb_ok()
                &&& r.rb_ok()
                &&& l.bh() == r.bh()
                &&& (red ==> l.is_black() && r.is_black())
            },
        }
    }

    /// Both subtrees of the root satisfy the color conditions and agree on
    /// black height; the root's own color is unconstrained.  Blackening the
    /// root of such a shape yields a shape with `rb_ok`.
    pub open spec fn kids_rb(self) -> bool {
        match self {
            Shape::Nil => true,
            Shape::Node { l, r, .. } => l.rb_ok() && r.rb_ok() && l.bh() == r.bh(),
        }
    }

    /// The left subtree, for a node shape.
    pub open spec fn left(self) -> Shape
        recommends self is Node,
    {
        match self {
            Shape::Nil => Shape::Nil,
            Shape::Node { l, .. } => *l,
        }
    }

    /// The right subtree, for a node shape.
    pub open spec fn right(self) -> Shape
        recommends self is Node,
    {
        match self {
            Shape::Nil => Shape::Nil,
            Shape::Node { r, .. } => *r,
        }
    }

    /// The subtree addressed by a direction: 0 is left, 1 is right.
    pub open spec fn child(self, d: int) -> Shape {
        if d == 0 {
            self.left()
        } else {
            self.right()
        }
    }

    /// The key at the root, for a node shape.
    pub open spec fn key(self) -> u64
        recommends self is Node,
    {
        match self {
            Shape::Nil => 0,
            Shape::Node { k, .. } => k,
        }
    }

    /// The same shape with the root's color set to black.
    pub open spec fn blacken(self) -> Shape {
        self.recolor(false)
    }

    /// The same shape with the root's color set to `c` (true for red).
    pub open spec fn recolor(self, c: bool) -> Shape {
        match self {
            Shape::Nil => Shape::Nil,
            Shape::Node { i, k, red, l, r } => Shape::Node { i, k, red: c, l, r },
        }
    }

    /// The subtree of `self` rooted at the node with arena index `x`,
    /// meaningful when `x` is an index of the shape.
    pub open spec fn subtree_at(self, x: int) -> Shape
        decreases self,
    {
        match self {
            Shape::Nil => Shape::Nil,
            Shape::Node { i, l, r, .. } => {
                if i == x {
                    self
                } else if l.idxs().contains(x) {
                    l.subtree_at(x)
                } else if r.idxs().contains(x) {
                    r.subtree_at(x)
                } else {
                    Shape::Nil
                }
            },
        }
    }
}

/// The local effect of one rotation: for `dir == 0` (a left rotation) the
/// right child `y` of the root `x` is promoted, `y`'s left subtree moves
/// under `x`, and `x` becomes `y`'s left child; `dir == 1` is the mirror
/// image.  Colors travel with their nodes.  Meaningful when the promoted
/// child exists.
pub open spec fn local_rot(t: Shape, dir: int) -> Shape {
    match t {
        Shape::Nil => t,
        Shape::Node { i, k, red, l, r } => {
            if dir == 0 {
                match *r {
                    Shape::Nil => t,
                    Shape::Node { i: yi, k: yk, red: yred, l: b, r: c } => Shape::Node {
                        i: yi,
                        k: yk,
                        red: yred,
                        l: Box::new(
                            Shape::Node { i, k, red, l, r: b },
                        ),
                        r: c,
                    },
                }
            } else {
                match *l {
                    Shape::Nil => t,
                    Shape::Node { i: yi, k: yk, red: yred, l: a, r: b } => Shape::Node {
                        i: yi,
                        k: yk,
                        red: yred,
                        l: a,
                        r: Box::new(
                            Shape::Node { i, k, red, l: b, r },
                        ),
                    },
                }
            }
        },
    }
}

/// The whole-shape effect of rotating at the node with arena index `x`:
/// the subtree rooted at `x` is replaced by its local rotation.
pub open spec fn rotate_at(t: Shape, x: int, dir: int) -> Shape
    decreases t,
{
    match t {
        Shape::Nil => t,
        Shape::Node { i, k, red, l, r } => {
            if i == x {
                local_rot(t, dir)
            } else if l.idxs().contains(x) {
                Shape::Node { i, k, red, l: Box::new(rotate_at(*l, x, dir)), r }
            } else if r.idxs().contains(x) {
                Shape::Node { i, k, red, l, r: Box::new(rotate_at(*r, x, dir)) }
            } else {
                t
            }
        },
    }
}

/// A local rotation keeps the keys and indices and preserves binary-search
/// order; the promoted child becomes the root.
pub proof fn lemma_local_rot(t: Shape, dir: int)
    requires
        dir == 0 || dir == 1,
        t is Node,
        t.child(1 - dir) is Node,
    ensures
        local_rot(t, dir).keys() == t.keys(),
        local_rot(t, dir).idxs() == t.idxs(),
        t.sorted() ==> local_rot(t, dir).sorted(),
        local_rot(t, dir) is Node,
        local_rot(t, dir).root_idx() == t.child(1 - dir).root_idx(),
{
    let u = local_rot(t, dir);
    if dir == 0 {
        let a = t.left();
        let y = t.right();
        let b = y.left();
        let c = y.right();
        assert(y.keys() == b.keys().add(c.keys()).insert(y.key()));
        assert(y.idxs() == b.idxs().union(c.idxs()).insert(y.root_idx()));
        assert(u.left().keys() == a.keys().add(b.keys()).insert(t.key()));
        assert(u.left().idxs() == a.idxs().union(b.idxs()).insert(t.root_idx()));
        assert(u.keys() == u.left().keys().add(c.keys()).insert(y.key()));
        assert(u.idxs() == u.left().idxs().union(c.idxs()).insert(y.root_idx()));
        assert(u.keys() =~= t.keys());
        assert(u.idxs() =~= t.idxs());
        if t.sorted() {
            assert forall|q: u64| b.keys().contains(q) implies q >= t.key() by {
                assert(y.keys().contains(q)) by {
                    assert(y.keys() =~= b.keys().add(c.keys()).insert(y.key()));
                }
            }
            assert(u.key() == y.key());
            assert(u.left().keys() =~= a.keys().add(b.keys()).insert(t.key()));
            assert(y.sorted());
            assert(b.key_le(y.key()));
            assert forall|q: u64| u.left().keys().contains(q) implies q <= u.key() by {
                assert(y.keys().contains(y.key()));
                assert(y.key() >= t.key());
                if q == t.key() {
                } else if a.keys().contains(q) {
                    assert(q <= t.key());
                } else {
                    assert(b.keys().contains(q));
                    assert(q <= y.key());
                }
            }
            assert(a.sorted() && b.sorted() && c.sorted());
            assert(a.key_le(t.key()));
            assert(b.key_ge(t.key()));
            assert(u.left().sorted());
            assert(u.left().key_le(u.key()));
            assert(c.key_ge(u.key()));
            assert(u.sorted());
        }
    } else {
        let a = t.right();
        let y = t.left();
        let b = y.right();
        let c = y.left();
        assert(y.keys() == c.keys().add(b.keys()).insert(y.key()));
        assert(y.idxs() == c.idxs().union(b.idxs()).insert(y.root_idx()));
        assert(u.right().keys() == b.keys().add(a.keys()).insert(t.key()));
        assert(u.right().idxs() == b.idxs().union(a.idxs()).insert(t.root_idx()));
        assert(u.keys() == c.keys().add(u.right().keys()).insert(y.key()));
        assert(u.idxs() == c.idxs().union(u.right().idxs()).insert(y.root_idx()));
        assert(u.keys() =~= t.keys());
        assert(u.idxs() =~= t.idxs());
        if t.sorted() {
            assert forall|q: u64| b.keys().contains(q) implies q <= t.key() by {
                assert(y.keys().contains(q)) by {
                    assert(y.keys() =~= c.keys().add(b.keys()).insert(y.key()));
                }
            }
            assert(u.key() == y.key());
            assert(u.right().keys() =~= b.keys().add(a.keys()).insert(t.key()));
            assert(y.sorted());
            assert(b.key_ge(y.key()));
            assert forall|q: u64| u.right().keys().contains(q) implies q >= u.key() by {
                assert(y.keys().contains(y.key()));
                assert(y.key() <= t.key());
                if q == t.key() {
                } else if a.keys().contains(q) {
                    assert(q >= t.key());
                } else {
                    assert(b.keys().contains(q));
                    assert(q >= y.key());
                }
            }
            assert(a.sorted() && b.sorted() && c.sorted());
            assert(a.key_ge(t.key()));
            assert(b.key_le(t.key()));
            assert(u.right().sorted());
            assert(u.right().key_ge(u.key()));
            assert(c.key_le(u.key()));
            assert(u.sorted());
        }
    }
}

/// The set of indices of a shape is finite.
pub proof fn lemma_idxs_finite(t: Shape)
    ensures
        t.idxs().finite(),
    decreases t,
{
    match t {
        Shape::Nil => {},
        Shape::Node { l, r, .. } => {
            lemma_idxs_finite(*l);
            lemma_idxs_finite(*r);
        },
    }
}

/// The key at any index of a shape occurs among the shape's keys.
pub proof fn lemma_key_at_in_keys(t: Shape, x: int)
    requires
        t.idxs().contains(x),
    ensures
        t.keys().contains(t.subtree_at(x).key()),
        t.subtree_at(x) is Node,
        t.subtree_at(x).root_idx() == x,
    decreases t,
{
    match t {
        Shape::Nil => {},
        Shape::Node { i, k, l, r, .. } => {
            if i == x {
            } else if l.idxs().contains(x) {
                lemma_key_at_in_keys(*l, x);
            } else {
                lemma_key_at_in_keys(*r, x);
            }
        },
    }
}

/// Every key of a subtree occurs among the keys of the whole shape.
pub proof fn lemma_subtree_keys(t: Shape, x: int, q: u64)
    requires
        t.idxs().contains(x),
        t.subtree_at(x).keys().contains(q),
    ensures
        t.keys().contains(q),
    decreases t,
{
    match t {
        Shape::Nil => {},
        Shape::Node { i, l, r, .. } => {
            if i == x {
            } else if l.idxs().contains(x) {
                lemma_subtree_keys(*l, x, q);
            } else {
                lemma_subtree_keys(*r, x, q);
            }
        },
    }
}

} // verus!
