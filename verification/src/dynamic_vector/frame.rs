use vstd::prelude::*;
use crate::dynamic_vector::shape::Shape;
use crate::dynamic_vector::DynamicBitVector;
use crate::traits::StaticBitVec;

verus! {

impl DynamicBitVector {
    /// The arenas hold the tree `s` under `parent` as far as links go: every node and
    /// leaf of `s` exists, every leaf is valid, and parents and children name each
    /// other. Nothing is said of counters and ranks.
    pub open spec fn framed(&self, s: Shape, parent: Option<usize>) -> bool
        decreases s,
    {
        match s {
            Shape::Nil => true,
            Shape::Leaf { id } => {
                &&& 1 <= id < self.leafs.len()
                &&& self.leafs[id].wf()
                &&& parent == Some(self.leafs[id].parent)
            },
            Shape::Node { id, left, right } => {
                &&& 0 <= id < self.nodes.len()
                &&& self.nodes[id].parent == parent
                &&& self.nodes[id].left == left.child_ref()
                &&& self.nodes[id].right == right.child_ref()
                &&& self.framed(*left, Some(id as usize))
                &&& self.framed(*right, Some(id as usize))
            },
        }
    }
}

/// How the root of a held tree is named, and what stands under that name.
pub proof fn lemma_framed_child(a: &DynamicBitVector, t: Shape, p: Option<usize>)
    requires
        a.sized(),
        a.framed(t, p),
    ensures
        t is Nil <==> t.child_ref() is None,
        t is Nil ==> a.bits_in(t).len() == 0,
        t is Leaf ==> {
            let c = t.child_ref().unwrap();
            &&& c < 0
            &&& -c == t.idx()
            &&& 1 <= -c < a.leafs.len()
            &&& a.leafs[-c].wf()
            &&& p == Some(a.leafs[-c].parent)
            &&& a.bits_in(t) == a.leafs[-c].bits()
        },
        t is Node ==> {
            let c = t.child_ref().unwrap();
            &&& c >= 0
            &&& c == t.idx()
            &&& c < a.nodes.len()
            &&& a.nodes[c as int].parent == p
            &&& a.nodes[c as int].left == t.lhs().child_ref()
            &&& a.nodes[c as int].right == t.rhs().child_ref()
            &&& a.framed(t.lhs(), Some(c as usize))
            &&& a.framed(t.rhs(), Some(c as usize))
            &&& a.bits_in(t) == a.bits_in(t.lhs()) + a.bits_in(t.rhs())
        },
{
}

/// The nodes and leaves of a held tree lie inside the arenas.
pub proof fn lemma_framed_range(a: &DynamicBitVector, s: Shape, p: Option<usize>)
    requires
        a.framed(s, p),
    ensures
        forall|i: int| #[trigger] s.node_ids().contains(i) ==> 0 <= i < a.nodes.len(),
        forall|i: int| #[trigger] s.leaf_ids().contains(i) ==> 1 <= i < a.leafs.len(),
    decreases s,
{
    match s {
        Shape::Node { id, left, right } => {
            lemma_framed_range(a, *left, Some(id as usize));
            lemma_framed_range(a, *right, Some(id as usize));
            assert forall|i: int| #[trigger] s.node_ids().contains(i) implies 0 <= i
                < a.nodes.len() by {
                assert(i == id || left.node_ids().contains(i) || right.node_ids().contains(i));
            }
            assert forall|i: int| #[trigger] s.leaf_ids().contains(i) implies 1 <= i
                < a.leafs.len() by {
                assert(left.leaf_ids().contains(i) || right.leaf_ids().contains(i));
            }
        },
        _ => {},
    }
}

/// A tree that is laid out is held.
pub proof fn lemma_linked_framed(a: &DynamicBitVector, s: Shape, p: Option<usize>)
    requires
        a.linked(s, p),
    ensures
        a.framed(s, p),
    decreases s,
{
    match s {
        Shape::Node { id, left, right } => {
            lemma_linked_framed(a, *left, Some(id as usize));
            lemma_linked_framed(a, *right, Some(id as usize));
        },
        _ => {},
    }
}

/// The arenas hold at most one tree under a child reference.
pub proof fn lemma_frame_unique(
    a: &DynamicBitVector,
    s1: Shape,
    p1: Option<usize>,
    s2: Shape,
    p2: Option<usize>,
)
    requires
        a.sized(),
        a.framed(s1, p1),
        a.framed(s2, p2),
        s1.child_ref() == s2.child_ref(),
    ensures
        s1 == s2,
    decreases s1,
{
    match s1 {
        Shape::Node { id, left, right } => {
            match s2 {
                Shape::Node { id: id2, left: left2, right: right2 } => {
                    lemma_frame_unique(a, *left, Some(id as usize), *left2, Some(id2 as usize));
                    lemma_frame_unique(a, *right, Some(id as usize), *right2, Some(id2 as usize));
                },
                _ => {},
            }
        },
        _ => {},
    }
}

/// The two children of a held node have different names.
pub proof fn lemma_framed_children_differ(a: &DynamicBitVector, s: Shape, gp: Option<usize>)
    requires
        a.sized(),
        a.framed(s, gp),
        s.distinct(),
        s is Node,
        !(s.lhs() is Nil) || !(s.rhs() is Nil),
    ensures
        s.lhs().child_ref() != s.rhs().child_ref(),
{
    let xu = s.idx() as usize;
    lemma_framed_child(a, s, gp);
    lemma_framed_child(a, s.lhs(), Some(xu));
    lemma_framed_child(a, s.rhs(), Some(xu));
    if s.lhs() is Node {
        assert(s.lhs().node_ids().contains(s.lhs().idx()));
    }
    if s.rhs() is Node {
        assert(s.rhs().node_ids().contains(s.rhs().idx()));
    }
    if s.lhs() is Leaf {
        assert(s.lhs().leaf_ids().contains(s.lhs().idx()));
    }
    if s.rhs() is Leaf {
        assert(s.rhs().leaf_ids().contains(s.rhs().idx()));
    }
}

} // verus!
