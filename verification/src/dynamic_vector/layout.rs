use vstd::prelude::*;
use crate::dynamic_vector::balance::{subtree_on, with_subtree};
use crate::dynamic_vector::shape::Shape;
use crate::dynamic_vector::DynamicBitVector;

verus! {

/// The node at the root of `s` with `c2` in the place of one of its subtrees, rebalanced
/// where `c2` is higher than that subtree was and the two subtrees now differ in height
/// by two.
pub open spec fn grown_with(s: Shape, right_side: bool, c2: Shape) -> Shape {
    let s2 = with_subtree(s, right_side, c2);
    if c2.height() > subtree_on(s, right_side).height() {
        s2.settled()
    } else {
        s2
    }
}

impl DynamicBitVector {
    /// What stands in the place of the leaf `s` after it was to take one more bit: the
    /// leaf itself where it had room; otherwise a new node, at the end of the node
    /// arena, over the leaf and a new leaf, at the end of the leaf arena.
    pub open spec fn leaf_took(&self, s: Shape) -> Shape {
        if self.leafs[s.idx()].nums < 64 {
            s
        } else {
            Shape::node(self.nodes.len() as int, s, Shape::Leaf { id: self.leafs.len() as int })
        }
    }

    /// The tree `s` after a bit was appended under it: the last leaf took it, and each
    /// node on the way back was rebalanced where that was due.
    pub open spec fn push_shape(&self, s: Shape) -> Shape
        decreases s,
    {
        match s {
            Shape::Node { right, .. } => grown_with(s, true, self.push_shape(*right)),
            Shape::Leaf { .. } => self.leaf_took(s),
            Shape::Nil => s,
        }
    }

    /// The tree `s` after a bit was inserted at position `index` under it: the leaf in
    /// which the way down ends took it, and each node on the way back was rebalanced
    /// where that was due. The way down goes right at a node where the position is
    /// not below the number of bits on its left.
    pub open spec fn insert_shape(&self, s: Shape, index: int) -> Shape
        decreases s,
    {
        match s {
            Shape::Node { id, left, right } => if self.nodes[id].nums <= index {
                grown_with(s, true, self.insert_shape(*right, index - self.nodes[id].nums))
            } else {
                grown_with(s, false, self.insert_shape(*left, index))
            },
            Shape::Leaf { .. } => self.leaf_took(s),
            Shape::Nil => s,
        }
    }

    /// The tree after a bit was added to a vector whose root has at most one child:
    /// an only leaf with room takes the bit where it is; otherwise the only leaf, if
    /// there is one, is the left child of the root, and a new leaf at the end of the
    /// leaf arena is the right child.
    pub open spec fn grown_root(&self) -> Shape {
        let s = self.shape();
        let only = if s.lhs() is Nil {
            s.rhs()
        } else {
            s.lhs()
        };
        if only is Leaf && self.leafs[only.idx()].nums < 64 {
            s
        } else {
            Shape::node(s.idx(), only, Shape::Leaf { id: self.leafs.len() as int })
        }
    }

    /// The tree of the vector after a bit was appended.
    pub open spec fn pushed_tree(&self) -> Shape {
        if self.shape().lhs() is Nil || self.shape().rhs() is Nil {
            self.grown_root()
        } else {
            self.push_shape(self.shape())
        }
    }

    /// The tree of the vector after a bit was inserted at position `index`.
    pub open spec fn inserted_tree(&self, index: int) -> Shape {
        if self.shape().lhs() is Nil || self.shape().rhs() is Nil {
            self.grown_root()
        } else {
            self.insert_shape(self.shape(), index)
        }
    }
}

/// One level of the tree after an insertion: the node over what its subtree on the way
/// down has become.
pub proof fn lemma_insert_level(a: &DynamicBitVector, s: Shape, index: int)
    requires
        s is Node,
    ensures
        a.insert_shape(s, index) == (if a.nodes[s.idx()].nums <= index {
            grown_with(s, true, a.insert_shape(s.rhs(), index - a.nodes[s.idx()].nums))
        } else {
            grown_with(s, false, a.insert_shape(s.lhs(), index))
        }),
        forall|l: Shape| l is Leaf ==> #[trigger] a.insert_shape(l, index) == a.leaf_took(l),
{
}

} // verus!
