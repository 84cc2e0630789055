use vstd::prelude::*;

verus! {

/// Inner node of the tree. Children are named by signed index: a value of zero or more is
/// the index of a node, a negative value is the negated index of a leaf.
#[derive(Debug, Clone, Copy, PartialEq, Eq, Default, Hash)]
pub struct Node {
    /// index of the parent node; `None` for the root
    pub parent: Option<usize>,
    /// left child
    pub left: Option<isize>,
    /// right child
    pub right: Option<isize>,
    /// number of bits stored under the left child
    pub nums: usize,
    /// number of one-bits stored under the left child
    pub ones: usize,
    /// height of the right subtree minus height of the left subtree
    pub rank: i8,
}

impl Node {
    /// A node without parent or children.
    pub fn new() -> (r: Self)
        ensures
            r == (Node { parent: None, left: None, right: None, nums: 0, ones: 0, rank: 0 }),
    {
        Node { parent: None, left: None, right: None, nums: 0, ones: 0, rank: 0 }
    }

    /// A node with the given fields.
    pub fn create(
        parent: Option<usize>,
        left: Option<isize>,
        right: Option<isize>,
        nums: usize,
        ones: usize,
        rank: i8,
    ) -> (r: Self)
        ensures
            r == (Node { parent, left, right, nums, ones, rank }),
    {
        Node { parent, left, right, nums, ones, rank }
    }

    /// Whether `child` is the left or the right child.
    pub open spec fn has_child(&self, child: isize) -> bool {
        self.left == Some(child) || self.right == Some(child)
    }

    /// The node with `new_child` where `child` was: on the left if `child` was the left
    /// child, otherwise on the right.
    pub open spec fn with_child(self, child: isize, new_child: isize) -> Node {
        if self.left == Some(child) {
            Node { left: Some(new_child), ..self }
        } else {
            Node { right: Some(new_child), ..self }
        }
    }

    /// The node with the child reference `to` wherever it had the child reference
    /// `from`.
    pub open spec fn with_child_renamed(self, from: isize, to: isize) -> Node {
        Node {
            left: if self.left == Some(from) {
                Some(to)
            } else {
                self.left
            },
            right: if self.right == Some(from) {
                Some(to)
            } else {
                self.right
            },
            ..self
        }
    }

    /// The node with the index `to` wherever it named the node `from` as its parent or
    /// as a child.
    pub open spec fn with_node_renamed(self, from: usize, to: usize) -> Node {
        Node {
            parent: if self.parent == Some(from) {
                Some(to)
            } else {
                self.parent
            },
            ..self.with_child_renamed(from as isize, to as isize)
        }
    }

    /// Puts `new_child` where `child` was: on the left if `child` was the left child,
    /// otherwise on the right.
    pub fn replace_child_with(&mut self, child: isize, new_child: isize)
        requires
            old(self).has_child(child),
        ensures
            *final(self) == old(self).with_child(child, new_child),
    {
        if let Some(l) = self.left {
            if l == child {
                self.left = Some(new_child);
                return;
            }
        }
        self.right = Some(new_child);
    }
}

} // verus!
