use vstd::prelude::*;
use crate::bits::count;
use crate::dynamic_vector::frame::lemma_frame_unique;
use crate::dynamic_vector::grow::lemma_fresh_node;
use crate::dynamic_vector::model::{lemma_child, lemma_frame, lemma_ids_in_range, parent_outside};
use crate::dynamic_vector::retrace::{height_claimed, lemma_stale_framed, retraced};
use crate::dynamic_vector::symmetry::lemma_symmetry;
use crate::dynamic_vector::shape::{lemma_height_nonneg, lemma_node_parts, lemma_proper_height, Shape};
use crate::dynamic_vector::DynamicBitVector;
use crate::node::Node;
use crate::traits::StaticBitVec;

verus! {

impl Shape {
    /// The tree with the node `n`, over the leaf `l` and the leaf `k`, in the place of
    /// the leaf `l`.
    pub open spec fn with_leaf_split(self, l: int, n: int, k: int) -> Shape
        decreases self,
    {
        match self {
            Shape::Node { id, left, right } => Shape::Node {
                id,
                left: Box::new(left.with_leaf_split(l, n, k)),
                right: Box::new(right.with_leaf_split(l, n, k)),
            },
            Shape::Leaf { id } => if id == l {
                Shape::node(n, Shape::Leaf { id: l }, Shape::Leaf { id: k })
            } else {
                self
            },
            Shape::Nil => Shape::Nil,
        }
    }
}

/// What the tree is like in which a new node over a leaf and a new leaf took the place
/// of the leaf: it has the new node and the new leaf besides what it had, and its
/// height before that change was the height of the tree as it was.
pub proof fn lemma_leaf_split_shape(s: Shape, l: int, n: int, k: int)
    requires
        s.proper(),
        s.distinct(),
        s.leaf_ids().contains(l),
        !s.node_ids().contains(n),
        !s.leaf_ids().contains(k),
        forall|i: int| #[trigger] s.node_ids().contains(i) ==> 0 <= i < n,
        0 <= n <= isize::MAX,
    ensures
        s.with_leaf_split(l, n, k).proper(),
        s.with_leaf_split(l, n, k).distinct(),
        s.with_leaf_split(l, n, k) is Node,
        s.with_leaf_split(l, n, k).node_ids() =~= s.node_ids().insert(n),
        s.with_leaf_split(l, n, k).leaf_ids() =~= s.leaf_ids().insert(k),
        s.with_leaf_split(l, n, k).holds_ref(n as isize),
        s is Node ==> s.with_leaf_split(l, n, k).idx() == s.idx(),
        s is Leaf ==> s.with_leaf_split(l, n, k).idx() == n,
        height_claimed(s.with_leaf_split(l, n, k), n as isize, 1) == s.height(),
        s.with_leaf_split(l, n, k).height() >= s.height(),
    decreases s,
{
    let t = s.with_leaf_split(l, n, k);
    match s {
        Shape::Node { id, left, right } => {
            let lt = *left;
            let rt = *right;
            assert(s.node_ids().contains(id));
            assert(s.leaf_ids() =~= lt.leaf_ids().union(rt.leaf_ids()));
            assert(t.lhs() == lt.with_leaf_split(l, n, k));
            assert(t.rhs() == rt.with_leaf_split(l, n, k));
            lemma_node_parts(t);
            assert forall|i: int| #[trigger] lt.node_ids().contains(i) implies 0 <= i < n by {
                assert(s.node_ids().contains(i));
            }
            assert forall|i: int| #[trigger] rt.node_ids().contains(i) implies 0 <= i < n by {
                assert(s.node_ids().contains(i));
            }
            if lt.leaf_ids().contains(l) {
                lemma_leaf_split_shape(lt, l, n, k);
                lemma_unsplit(rt, l, n, k);
            } else {
                lemma_leaf_split_shape(rt, l, n, k);
                lemma_unsplit(lt, l, n, k);
            }
            assert(t.node_ids() =~= t.lhs().node_ids().union(t.rhs().node_ids()).insert(id));
            assert(t.leaf_ids() =~= t.lhs().leaf_ids().union(t.rhs().leaf_ids()));
        },
        Shape::Leaf { id } => {
            assert(s.leaf_ids() =~= Set::<int>::empty().insert(id));
            let sl = Shape::Leaf { id: l };
            let sk = Shape::Leaf { id: k };
            assert(sl.leaf_ids() =~= Set::<int>::empty().insert(l));
            assert(sk.leaf_ids() =~= Set::<int>::empty().insert(k));
            assert(sl.node_ids() =~= Set::<int>::empty());
            assert(sk.node_ids() =~= Set::<int>::empty());
            assert(t == Shape::node(n, sl, sk));
            assert(t.leaf_ids() =~= sl.leaf_ids().union(sk.leaf_ids()));
            assert(t.node_ids() =~= Set::<int>::empty().insert(n));
            assert(sl.proper() && sk.proper() && sl.distinct() && sk.distinct());
            assert(sl.height() == 1 && sk.height() == 1);
            assert(t.height() == 2);
        },
        Shape::Nil => {},
    }
}

/// The parent of a leaf under a laid-out node is a node of that tree.
pub proof fn lemma_leaf_parent_inside(a: &DynamicBitVector, s: Shape, gp: Option<usize>)
    requires
        a.sized(),
        a.linked(s, gp),
        s is Node,
    ensures
        forall|j: int| #[trigger]
            s.leaf_ids().contains(j) ==> s.node_ids().contains(a.leafs[j].parent as int),
    decreases s,
{
    let xu = s.idx() as usize;
    lemma_child(a, s, gp);
    lemma_child(a, s.lhs(), Some(xu));
    lemma_child(a, s.rhs(), Some(xu));
    assert(s.node_ids().contains(s.idx()));
    if s.lhs() is Node {
        lemma_leaf_parent_inside(a, s.lhs(), Some(xu));
    }
    if s.rhs() is Node {
        lemma_leaf_parent_inside(a, s.rhs(), Some(xu));
    }
    assert forall|j: int| #[trigger] s.leaf_ids().contains(j) implies s.node_ids().contains(
        a.leafs[j].parent as int,
    ) by {
        assert(s.lhs().leaf_ids().contains(j) || s.rhs().leaf_ids().contains(j));
        let c = if s.lhs().leaf_ids().contains(j) {
            s.lhs()
        } else {
            s.rhs()
        };
        if c is Node {
            assert(c.node_ids().contains(a.leafs[j].parent as int));
        } else {
            assert(c is Leaf);
            assert(c.idx() == j);
        }
    }
}

/// A tree without the leaf `l` stays as it is.
pub proof fn lemma_unsplit(s: Shape, l: int, n: int, k: int)
    requires
        !s.leaf_ids().contains(l),
    ensures
        s.with_leaf_split(l, n, k) == s,
    decreases s,
{
    match s {
        Shape::Node { left, right, .. } => {
            assert(s.leaf_ids() =~= left.leaf_ids().union(right.leaf_ids()));
            lemma_unsplit(*left, l, n, k);
            lemma_unsplit(*right, l, n, k);
        },
        Shape::Leaf { id } => {
            assert(s.leaf_ids().contains(id));
        },
        Shape::Nil => {},
    }
}

impl DynamicBitVector {
    /// `new` is this vector after the leaf in slot `l` was divided: a new node at the
    /// end of the node arena stands in its place, over the leaf, which keeps its first
    /// 32 bits, and over a new leaf at the end of the leaf arena, which has the others.
    pub open spec fn divides_leaf(&self, new: &DynamicBitVector, l: int) -> bool {
        let p = self.leafs[l].parent as int;
        let n = self.nodes.len() as int;
        let k = self.leafs.len() as int;
        &&& new.root == self.root
        &&& new.nodes.len() == self.nodes.len() + 1
        &&& new.leafs.len() == self.leafs.len() + 1
        &&& forall|i: int|
            0 <= i < self.nodes.len() && i != p ==> #[trigger] new.nodes[i] == self.nodes[i]
        &&& forall|j: int|
            0 <= j < self.leafs.len() && j != l ==> #[trigger] new.leafs[j] == self.leafs[j]
        &&& new.nodes[p] == self.nodes[p].with_child((-l) as isize, n as isize)
        &&& new.nodes[n] == (Node {
            parent: Some(p as usize),
            left: Some((-l) as isize),
            right: Some((-k) as isize),
            nums: 32,
            ones: count(self.leafs[l].bits().take(32), true) as usize,
            rank: 0,
        })
        &&& new.leafs[l].parent == n
        &&& new.leafs[l].wf()
        &&& new.leafs[l].bits() == self.leafs[l].bits().take(32)
        &&& new.leafs[k].parent == n
        &&& new.leafs[k].wf()
        &&& new.leafs[k].bits() == self.leafs[l].bits().skip(32)
    }
}

/// After a leaf of a laid-out balanced tree was divided, the tree with the new node in
/// the place of the leaf is laid out but for the ranks of the nodes above the new
/// node, which do not know of the new level yet; its bits are what they were.
pub proof fn lemma_split_stale(
    a: &DynamicBitVector,
    f: &DynamicBitVector,
    s: Shape,
    gp: Option<usize>,
    l: int,
)
    requires
        a.sized(),
        a.has_room(),
        a.linked(s, gp),
        s.balanced(),
        s.distinct(),
        s.proper(),
        s.leaf_ids().contains(l),
        s is Leaf ==> parent_outside(a, s, gp),
        a.leafs[l].nums >= 32,
        a.divides_leaf(f, l),
    ensures
        f.stale_ranks(
            s.with_leaf_split(l, a.nodes.len() as int, a.leafs.len() as int),
            gp,
            a.nodes.len() as isize,
            1,
        ),
        f.bits_in(s.with_leaf_split(l, a.nodes.len() as int, a.leafs.len() as int)) == a.bits_in(
            s,
        ),
    decreases s,
{
    reveal(DynamicBitVector::stale_ranks);
    let n = a.nodes.len() as int;
    let k = a.leafs.len() as int;
    let t = s.with_leaf_split(l, n, k);
    lemma_ids_in_range(a, s, gp);
    lemma_child(a, s, gp);
    lemma_leaf_split_shape(s, l, n, k);
    match s {
        Shape::Node { id, left, right } => {
            let lt = *left;
            let rt = *right;
            let xu = id as usize;
            lemma_node_parts(s);
            lemma_child(a, lt, Some(xu));
            lemma_child(a, rt, Some(xu));
            lemma_ids_in_range(a, lt, Some(xu));
            lemma_ids_in_range(a, rt, Some(xu));
            crate::dynamic_vector::balance::lemma_children_differ(a, s, gp);
            assert(s.node_ids().contains(id));
            assert(s.leaf_ids() =~= lt.leaf_ids().union(rt.leaf_ids()));
            assert(t.lhs() == lt.with_leaf_split(l, n, k));
            assert(t.rhs() == rt.with_leaf_split(l, n, k));
            let in_left = lt.leaf_ids().contains(l);
            let c = if in_left {
                lt
            } else {
                rt
            };
            let o = if in_left {
                rt
            } else {
                lt
            };
            if c is Leaf {
                assert(c.leaf_ids() =~= Set::<int>::empty().insert(c.idx()));
                assert(c.node_ids() =~= Set::<int>::empty());
            } else {
                assert(c is Node);
                lemma_leaf_parent_inside(a, c, Some(xu));
                assert(c.node_ids().contains(a.leafs[l].parent as int));
                assert(a.leafs[l].parent != id);
            }
            lemma_split_stale(a, f, c, Some(xu), l);
            lemma_unsplit(o, l, n, k);
            lemma_leaf_split_shape(c, l, n, k);
            assert(a.agrees(f, o)) by {
                assert forall|i: int| #[trigger] o.node_ids().contains(i) implies i
                    != a.leafs[l].parent by {
                    assert(!c.node_ids().contains(i));
                }
                assert forall|j: int| #[trigger] o.leaf_ids().contains(j) implies j != l by {}
            }
            lemma_frame(a, f, o, Some(xu));
            lemma_height_nonneg(lt);
            lemma_height_nonneg(rt);
            let c2 = c.with_leaf_split(l, n, k);
            assert(c2.child_ref() is Some);
            assert(f.nodes[id].parent == gp);
            assert(f.nodes[id].nums == a.nodes[id].nums);
            assert(f.nodes[id].rank == a.nodes[id].rank);
            if in_left {
                assert(f.nodes[id].left == c2.child_ref());
                assert(f.nodes[id].right == o.child_ref());
                assert(!rt.holds_ref(n as isize));
            } else {
                assert(f.nodes[id].right == c2.child_ref());
                assert(f.nodes[id].left == o.child_ref());
                assert(!lt.holds_ref(n as isize));
                assert(!t.lhs().holds_ref(n as isize));
            }
            assert(f.bits_in(t) =~= a.bits_in(s));
        },
        Shape::Leaf { id } => {
            let p = a.leafs[l].parent;
            crate::bits::lemma_count_bound(f.leafs[l].bits(), true);
            lemma_fresh_node(a, f, l, p);
            let b = a.leafs[l].bits();
            assert(b.take(32) + b.skip(32) =~= b);
        },
        Shape::Nil => {},
    }
}

/// A vector in which a leaf of a well-formed vector was divided, under a parent with
/// two children, needs nothing but the change in height to be carried upwards from the
/// new node; its bits are those of the well-formed vector.
pub proof fn lemma_split_needs_retrace(a: &DynamicBitVector, f: &DynamicBitVector, l: int)
    requires
        a.wf(),
        a.has_room(),
        1 <= l < a.leafs.len(),
        a.leafs[l].nums >= 32,
        a.nodes[a.leafs[l].parent as int].left is Some,
        a.nodes[a.leafs[l].parent as int].right is Some,
        a.divides_leaf(f, l),
    ensures
        f.needs_retrace(a.nodes.len() as usize, 1),
        f.stale_shape(a.nodes.len() as usize, 1) == a.shape().with_leaf_split(
            l,
            a.nodes.len() as int,
            a.leafs.len() as int,
        ),
        f.bits_in(f.stale_shape(a.nodes.len() as usize, 1)) == a@,
{
    let s = a.shape();
    let n = a.nodes.len() as int;
    let k = a.leafs.len() as int;
    let t = s.with_leaf_split(l, n, k);
    assert(s.leaf_ids().contains(l));
    lemma_node_parts(s);
    lemma_child(a, s, None);
    lemma_child(a, s.lhs(), Some(a.root));
    lemma_child(a, s.rhs(), Some(a.root));
    lemma_ids_in_range(a, s, None);
    assert(s.leaf_ids() =~= s.lhs().leaf_ids().union(s.rhs().leaf_ids()));
    assert(Shape::Nil.leaf_ids() =~= Set::<int>::empty());
    if !s.proper() {
        let kept = if s.lhs() is Nil {
            s.rhs()
        } else {
            s.lhs()
        };
        lemma_proper_height(kept);
        lemma_height_nonneg(kept);
        assert(kept.leaf_ids() =~= Set::<int>::empty().insert(kept.idx()));
        assert(false);
    }
    lemma_split_stale(a, f, s, None, l);
    lemma_leaf_split_shape(s, l, n, k);
    assert(t.node_ids() =~= Set::new(|i: int| 0 <= i < f.nodes.len()));
    assert(t.leaf_ids() =~= Set::new(|i: int| 1 <= i < f.leafs.len()));
    assert(f.stale_tree(t, n as usize, 1));
    let u = f.stale_shape(n as usize, 1);
    lemma_stale_framed(f, t, None, n as isize, 1);
    lemma_stale_framed(f, u, None, n as isize, 1);
    lemma_frame_unique(f, t, None, u, None);
}

impl DynamicBitVector {
    /// Divides the leaf `leaf`, which holds at least 32 bits and stands under a node
    /// with two children: a new node takes its place, the leaf keeps its first 32 bits
    /// as the left child of that node, and a new leaf takes the other bits as the right
    /// child. The new level is then carried upwards, with rebalancing where it is
    /// due. Returns the index of the new node. The bits of the vector are what they
    /// were.
    pub fn split_leaf(&mut self, leaf: isize) -> (new_node: usize)
        requires
            old(self).wf(),
            old(self).has_room(),
            leaf < 0,
            -leaf < old(self).leafs.len(),
            old(self).leafs[-leaf].nums >= 32,
            old(self).nodes[old(self).leafs[-leaf].parent as int].left is Some,
            old(self).nodes[old(self).leafs[-leaf].parent as int].right is Some,
        ensures
            new_node == old(self).nodes.len(),
            final(self).wf(),
            final(self)@ == old(self)@,
            final(self).nodes.len() == old(self).nodes.len() + 1,
            final(self).leafs.len() == old(self).leafs.len() + 1,
            final(self).shape() == retraced(
                old(self).shape().with_leaf_split(
                    -leaf,
                    old(self).nodes.len() as int,
                    old(self).leafs.len() as int,
                ),
                new_node as isize,
                1,
            ),
            final(self).leafs[-leaf].bits() == old(self).leafs[-leaf].bits().take(32),
            final(self).leafs[old(self).leafs.len() as int].bits() == old(self).leafs[-leaf].bits().skip(
                32,
            ),
            forall|j: int|
                0 <= j < old(self).leafs.len() && j != -leaf ==> (#[trigger] final(self).leafs[j]).value
                    == old(self).leafs[j].value && final(self).leafs[j].nums == old(self).leafs[j].nums,
            final(self).leafs[0] == old(self).leafs[0],
    {
        let ghost a = *self;
        proof {
            let s = a.shape();
            assert(s.leaf_ids().contains(-leaf));
            lemma_ids_in_range(&a, s, None);
            lemma_symmetry(&a, s, None);
            assert(a.parent_ok(s, None, Some(a.leafs[-leaf].parent), leaf));
        }
        let new_node = self.divide_leaf(leaf);
        proof {
            lemma_split_needs_retrace(&a, self, -leaf);
        }
        let ghost m = *self;
        self.retrace(new_node, 1);
        proof {
            assert(m.leafs[-leaf].bits() == self.leafs[-leaf].bits());
            assert(m.leafs[a.leafs.len() as int].bits() == self.leafs[a.leafs.len() as int].bits());
        }
        new_node
    }
}

} // verus!
