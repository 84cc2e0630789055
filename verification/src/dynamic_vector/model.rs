use vstd::prelude::*;
use crate::bits::count;
use crate::dynamic_vector::shape::Shape;
use crate::dynamic_vector::DynamicBitVector;
use crate::traits::StaticBitVec;

verus! {

impl DynamicBitVector {
    /// `other` has every node and leaf of `s` as this vector has it.
    pub open spec fn agrees(&self, other: &DynamicBitVector, s: Shape) -> bool {
        &&& forall|i: int| #[trigger]
            s.node_ids().contains(i) ==> 0 <= i < other.nodes.len() && other.nodes[i]
                == self.nodes[i]
        &&& forall|i: int| #[trigger]
            s.leaf_ids().contains(i) ==> 0 <= i < other.leafs.len() && other.leafs[i]
                == self.leafs[i]
    }

    /// Outside the tree `s` and its parent, `new` has every node and leaf of this vector
    /// as this vector has it; it may have more of them at the end of its arenas.
    pub open spec fn same_outside(&self, new: &DynamicBitVector, s: Shape, parent: Option<usize>) -> bool {
        &&& new.nodes.len() >= self.nodes.len()
        &&& new.leafs.len() >= self.leafs.len()
        &&& forall|i: int|
            0 <= i < self.nodes.len() && !s.node_ids().contains(i) && parent != Some(i as usize)
                ==> #[trigger] new.nodes[i] == self.nodes[i]
        &&& forall|i: int|
            0 <= i < self.leafs.len() && !s.leaf_ids().contains(i) ==> #[trigger] new.leafs[i]
                == self.leafs[i]
    }

    /// In `new` the parent of the subtree that was `s` names the root of `s2` in its
    /// place and is otherwise as it was; where there is no parent, the root of `new` is
    /// the root of `s2`.
    pub open spec fn regrafted(&self, new: &DynamicBitVector, s: Shape, s2: Shape, parent: Option<usize>) -> bool {
        match parent {
            Some(p) => {
                &&& new.root == self.root
                &&& p < new.nodes.len()
                &&& s2.child_ref() is Some
                &&& new.nodes[p as int] == self.nodes[p as int].with_child(
                    s.child_ref().unwrap(),
                    s2.child_ref().unwrap(),
                )
            },
            None => new.root == s2.idx(),
        }
    }

    /// The tree `s` is laid out under the child reference `child`.
    pub open spec fn is_subtree(&self, s: Shape, child: isize) -> bool {
        s.child_ref() == Some(child) && exists|p: Option<usize>| #[trigger] self.linked(s, p)
    }

    /// Some tree is laid out under the child reference `child`.
    pub open spec fn has_subtree(&self, child: isize) -> bool {
        exists|s: Shape| #[trigger] self.is_subtree(s, child)
    }

    /// The tree laid out under the child reference `child`.
    pub open spec fn subtree(&self, child: isize) -> Shape {
        choose|s: Shape| #[trigger] self.is_subtree(s, child)
    }
}

/// The parent of a subtree lies outside it and names its root; a subtree without parent
/// is named by the root index of the vector.
pub open spec fn parent_outside(a: &DynamicBitVector, s: Shape, parent: Option<usize>) -> bool {
    match parent {
        Some(p) => {
            &&& p < a.nodes.len()
            &&& !s.node_ids().contains(p as int)
            &&& s.child_ref() is Some
            &&& a.nodes[p as int].has_child(s.child_ref().unwrap())
        },
        None => s is Node && a.root == s.idx(),
    }
}

/// The nodes and leaves of a tree that is laid out lie inside the arenas, its leaves
/// are valid, and the parent of each of its leaves is a node of the tree or the parent
/// of the tree.
pub proof fn lemma_ids_in_range(a: &DynamicBitVector, s: Shape, parent: Option<usize>)
    requires
        a.linked(s, parent),
    ensures
        forall|i: int| #[trigger] s.node_ids().contains(i) ==> 0 <= i < a.nodes.len(),
        forall|i: int|
            #[trigger] s.leaf_ids().contains(i) ==> 1 <= i < a.leafs.len() && a.leafs[i].wf() && (
            s.node_ids().contains(a.leafs[i].parent as int) || Some(a.leafs[i].parent) == parent),
    decreases s,
{
    match s {
        Shape::Node { id, left, right } => {
            lemma_ids_in_range(a, *left, Some(id as usize));
            lemma_ids_in_range(a, *right, Some(id as usize));
            assert forall|i: int| #[trigger] s.node_ids().contains(i) implies 0 <= i
                < a.nodes.len() by {
                assert(i == id || left.node_ids().contains(i) || right.node_ids().contains(i));
            }
            assert forall|i: int| #[trigger] s.leaf_ids().contains(i) implies 1 <= i
                < a.leafs.len() && a.leafs[i].wf() && (s.node_ids().contains(
                a.leafs[i].parent as int,
            ) || Some(a.leafs[i].parent) == parent) by {
                assert(left.leaf_ids().contains(i) || right.leaf_ids().contains(i));
                assert(s.node_ids().contains(id));
                if left.leaf_ids().contains(i) {
                    assert(left.node_ids().contains(a.leafs[i].parent as int) ==> s.node_ids().contains(
                        a.leafs[i].parent as int,
                    ));
                } else {
                    assert(right.node_ids().contains(a.leafs[i].parent as int)
                        ==> s.node_ids().contains(a.leafs[i].parent as int));
                }
            }
        },
        _ => {},
    }
}

/// How the root of a laid-out tree is named, and what stands under that name.
pub proof fn lemma_child(a: &DynamicBitVector, t: Shape, p: Option<usize>)
    requires
        a.sized(),
        a.linked(t, p),
    ensures
        t is Nil <==> t.child_ref() is None,
        t is Nil ==> a.bits_in(t).len() == 0,
        t is Leaf ==> {
            let c = t.child_ref().unwrap();
            &&& c < 0
            &&& -c == t.idx()
            &&& 1 <= -c < a.leafs.len()
            &&& a.leafs[-c].wf()
            &&& p == Some(a.leafs[-c].parent)
            &&& a.bits_in(t) == a.leafs[-c].bits()
        },
        t is Node ==> {
            let c = t.child_ref().unwrap();
            &&& c >= 0
            &&& c == t.idx()
            &&& c < a.nodes.len()
            &&& a.nodes[c as int].parent == p
            &&& a.nodes[c as int].left == t.lhs().child_ref()
            &&& a.nodes[c as int].right == t.rhs().child_ref()
            &&& a.linked(t.lhs(), Some(c as usize))
            &&& a.linked(t.rhs(), Some(c as usize))
            &&& a.bits_in(t) == a.bits_in(t.lhs()) + a.bits_in(t.rhs())
            &&& a.nodes[c as int].nums == a.bits_in(t.lhs()).len()
            &&& a.nodes[c as int].ones == count(a.bits_in(t.lhs()), true)
            &&& a.nodes[c as int].rank == t.rhs().height() - t.lhs().height()
        },
{
}

/// A layout and its bits depend only on the nodes and leaves of the tree.
pub proof fn lemma_frame(
    a: &DynamicBitVector,
    b: &DynamicBitVector,
    s: Shape,
    parent: Option<usize>,
)
    requires
        a.linked(s, parent),
        a.agrees(b, s),
    ensures
        b.linked(s, parent),
        b.bits_in(s) == a.bits_in(s),
    decreases s,
{
    match s {
        Shape::Node { id, left, right } => {
            assert(s.node_ids().contains(id));
            assert forall|i: int| #[trigger] left.node_ids().contains(i) implies s.node_ids().contains(
                i,
            ) by {}
            assert forall|i: int| #[trigger] right.node_ids().contains(i) implies s.node_ids().contains(
                i,
            ) by {}
            assert forall|i: int| #[trigger] left.leaf_ids().contains(i) implies s.leaf_ids().contains(
                i,
            ) by {}
            assert forall|i: int| #[trigger] right.leaf_ids().contains(i) implies s.leaf_ids().contains(
                i,
            ) by {}
            lemma_frame(a, b, *left, Some(id as usize));
            lemma_frame(a, b, *right, Some(id as usize));
        },
        Shape::Leaf { id } => {
            assert(s.leaf_ids().contains(id));
        },
        Shape::Nil => {},
    }
}

/// The root of a laid-out tree may be given another parent by changing nothing but the
/// parent field of that root. Only a node can be left without a parent.
pub proof fn lemma_reparent(
    a: &DynamicBitVector,
    b: &DynamicBitVector,
    s: Shape,
    parent: Option<usize>,
    new_parent: Option<usize>,
)
    requires
        a.linked(s, parent),
        s.distinct(),
        match s {
            Shape::Nil => true,
            Shape::Leaf { id } => {
                &&& id < b.leafs.len()
                &&& new_parent is Some
                &&& b.leafs[id] == (crate::leaf::Leaf { parent: new_parent.unwrap(), ..a.leafs[id] })
            },
            Shape::Node { id, left, right } => {
                &&& id < b.nodes.len()
                &&& b.nodes[id] == (crate::node::Node { parent: new_parent, ..a.nodes[id] })
                &&& a.agrees(b, *left)
                &&& a.agrees(b, *right)
            },
        },
    ensures
        b.linked(s, new_parent),
        b.bits_in(s) == a.bits_in(s),
{
    match s {
        Shape::Node { id, left, right } => {
            lemma_frame(a, b, *left, Some(id as usize));
            lemma_frame(a, b, *right, Some(id as usize));
        },
        _ => {},
    }
}

/// The arenas lay out at most one tree under a child reference.
pub proof fn lemma_unique(
    a: &DynamicBitVector,
    s1: Shape,
    p1: Option<usize>,
    s2: Shape,
    p2: Option<usize>,
)
    requires
        a.sized(),
        a.linked(s1, p1),
        a.linked(s2, p2),
        s1.child_ref() == s2.child_ref(),
    ensures
        s1 == s2,
    decreases s1,
{
    match s1 {
        Shape::Node { id, left, right } => {
            match s2 {
                Shape::Node { id: id2, left: left2, right: right2 } => {
                    lemma_unique(a, *left, Some(id as usize), *left2, Some(id2 as usize));
                    lemma_unique(a, *right, Some(id as usize), *right2, Some(id2 as usize));
                },
                _ => {},
            }
        },
        _ => {},
    }
}

/// Whatever tree satisfies the invariant, its bits are the view.
pub proof fn lemma_view(a: &DynamicBitVector, s: Shape)
    requires
        a.tree_inv(s),
    ensures
        a.wf(),
        a.shape() == s,
        a@ == a.bits_in(s),
{
    lemma_unique(a, s, None, a.shape(), None);
}

/// The tree under a child reference is the one that is laid out there.
pub proof fn lemma_subtree(a: &DynamicBitVector, s: Shape, p: Option<usize>)
    requires
        a.sized(),
        a.linked(s, p),
        !(s is Nil),
    ensures
        a.has_subtree(s.child_ref().unwrap()),
        a.subtree(s.child_ref().unwrap()) == s,
{
    let c = s.child_ref().unwrap();
    assert(a.is_subtree(s, c));
    let t = a.subtree(c);
    let q = choose|q: Option<usize>| #[trigger] a.linked(t, q);
    lemma_unique(a, s, p, t, q);
}

} // verus!
