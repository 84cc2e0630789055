use vstd::prelude::*;
use crate::bits::count;
use crate::leaf::Leaf;
use crate::node::Node;
use crate::traits::StaticBitVec;

/// Counting anew what lies under left children.
pub mod aggregate;
/// Rebalancing after a change in height.
pub mod balance;
/// Removing a bit.
pub mod delete;
/// Descending to a position with functions of the caller.
pub mod descend;
/// Inverting a bit.
pub mod flip;
/// The tree after a bit was added.
pub mod layout;
/// The tree after a bit was removed.
pub mod removal;
/// Trees as far as links go.
pub mod frame;
/// New nodes and leaves.
pub mod grow;
/// Inserting a bit.
pub mod insert;
/// What holds of every well-formed vector.
pub mod laws;
/// Joining leaves and moving bits between them.
pub mod merge;
/// Mending a small leaf.
pub mod merge_away;
/// What it means that the arenas lay out a tree.
pub mod model;
/// The leaf next to a leaf.
pub mod neighbor;
/// Dividing a full leaf.
pub mod overflow;
/// The division of the bits among the leaves.
pub mod partition;
/// The nodes above a node or leaf.
pub mod path;
/// Appending a bit.
pub mod push;
/// Construction and queries.
pub mod query;
/// Carrying a change in height upwards.
pub mod retrace;
/// Rotations.
pub mod rotate;
/// Trees as mathematical values.
pub mod shape;
/// Removing entries from the arenas.
pub mod swap;
/// Parents and children name each other.
pub mod symmetry;
/// Walking over the tree to test the counters.
pub mod validate;
/// The vector as a bit container, and the words of its leaves.
pub mod values;

use shape::Shape;

verus! {

/// A bit vector that grows and shrinks at any position, kept as a balanced binary tree
/// whose nodes and leaves live in two arenas and name each other by index.
#[derive(Debug, PartialEq, Eq, Clone, Default, Hash)]
pub struct DynamicBitVector {
    /// index of the root node
    pub root: usize,
    /// the nodes; children name them by index
    pub nodes: Vec<Node>,
    /// the leaves; children name them by negated index, and slot 0 is never named
    pub leafs: Vec<Leaf>,
}

impl DynamicBitVector {
    /// Both arenas are small enough for every index to be written as a signed child
    /// reference, and the leaf arena has its unused slot 0.
    pub open spec fn sized(&self) -> bool {
        &&& self.nodes.len() <= isize::MAX
        &&& 1 <= self.leafs.len() <= isize::MAX
    }

    /// The bits under the tree `s`, from the leftmost leaf to the rightmost.
    pub open spec fn bits_in(&self, s: Shape) -> Seq<bool>
        decreases s,
    {
        match s {
            Shape::Nil => Seq::empty(),
            Shape::Leaf { id } => self.leafs[id].bits(),
            Shape::Node { left, right, .. } => self.bits_in(*left) + self.bits_in(*right),
        }
    }

    /// The arenas lay out the tree `s` under the parent `parent`: every node and leaf of
    /// `s` exists, every leaf is valid, parents and children name each other, and every
    /// node holds the number of bits and of one-bits under its left child and the
    /// difference in height between its right and left subtree.
    pub open spec fn linked(&self, s: Shape, parent: Option<usize>) -> bool
        decreases s,
    {
        match s {
            Shape::Nil => true,
            Shape::Leaf { id } => {
                &&& 1 <= id < self.leafs.len()
                &&& self.leafs[id].wf()
                &&& parent == Some(self.leafs[id].parent)
            },
            Shape::Node { id, left, right } => {
                &&& 0 <= id < self.nodes.len()
                &&& self.nodes[id].parent == parent
                &&& self.nodes[id].left == left.child_ref()
                &&& self.nodes[id].right == right.child_ref()
                &&& self.nodes[id].nums == self.bits_in(*left).len()
                &&& self.nodes[id].ones == count(self.bits_in(*left), true)
                &&& self.nodes[id].rank == right.height() - left.height()
                &&& self.linked(*left, Some(id as usize))
                &&& self.linked(*right, Some(id as usize))
            },
        }
    }

    /// The tree `s` is the whole content: it is laid out from the root, balanced, without
    /// repetition, and uses every node and every leaf but the unused slot 0.
    pub open spec fn tree_inv(&self, s: Shape) -> bool {
        &&& self.sized()
        &&& s is Node
        &&& s.idx() == self.root
        &&& self.linked(s, None)
        &&& s.balanced()
        &&& s.distinct()
        &&& s.rooted()
        &&& s.node_ids() =~= Set::new(|i: int| 0 <= i < self.nodes.len())
        &&& s.leaf_ids() =~= Set::new(|i: int| 1 <= i < self.leafs.len())
        &&& self.bits_in(s).len() <= usize::MAX
    }

    /// The arenas lay out a balanced tree.
    pub open spec fn wf(&self) -> bool {
        exists|s: Shape| self.tree_inv(s)
    }

    /// The tree that the arenas lay out.
    pub open spec fn shape(&self) -> Shape {
        choose|s: Shape| self.tree_inv(s)
    }
}

impl View for DynamicBitVector {
    type V = Seq<bool>;

    /// The bits held, position 0 first.
    open spec fn view(&self) -> Seq<bool> {
        self.bits_in(self.shape())
    }
}

} // verus!
