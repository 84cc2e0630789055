use vstd::prelude::*;
use crate::dynamic_vector::balance::{subtree_on, with_subtree};
use crate::dynamic_vector::shape::Shape;
use crate::dynamic_vector::DynamicBitVector;

verus! {

/// The node at the root of `s` with `c2` in the place of one of its subtrees, rebalanced
/// where `c2` is lower than that subtree was and the two subtrees now differ in height
/// by two.
pub open spec fn shrunk_with(s: Shape, right_side: bool, c2: Shape) -> Shape {
    let s2 = with_subtree(s, right_side, c2);
    if c2.height() < subtree_on(s, right_side).height() {
        s2.settled()
    } else {
        s2
    }
}

/// The tree `s` after the leaf and the node named by `gone` left arenas of the given
/// lengths: the last leaf has the slot of the leaf that left, and the last node the
/// index of the node that left.
pub open spec fn closed_up(s: Shape, gone: Option<(usize, usize)>, nodes: int, leafs: int) -> Shape {
    match gone {
        Some(g) => s.rename_leaf(leafs - 1, g.0 as int).rename_node(nodes - 1, g.1 as int),
        None => s,
    }
}

impl DynamicBitVector {
    /// Whether the leaf child of the node `s` on the side `right_side` gets small by
    /// losing a bit: it is then left with at most 16 bits.
    pub open spec fn gets_small(&self, s: Shape, right_side: bool) -> bool {
        self.leafs[subtree_on(s, right_side).idx()].nums <= 17
    }

    /// Whether a small leaf child of the node `s` on the side `right_side` joins the
    /// leaf next to it: that leaf holds at most 48 bits.
    pub open spec fn joins(&self, s: Shape, right_side: bool) -> bool {
        self.leafs[Self::neighbor_of(s, right_side)].nums <= 48
    }

    /// What stands in the place of the node `s` after its small leaf child on the side
    /// `right_side` was mended: the other subtree where the leaf joined the leaf next
    /// to it, otherwise the node as it was.
    pub open spec fn mend_shape(&self, s: Shape, right_side: bool) -> Shape {
        if self.joins(s, right_side) {
            subtree_on(s, !right_side)
        } else {
            s
        }
    }

    /// The leaf and the node that left the tree when the small leaf child of the node
    /// `s` on the side `right_side` was mended: the leaf and `s`, where the leaf
    /// joined the leaf next to it.
    pub open spec fn mend_gone(&self, s: Shape, right_side: bool) -> Option<(usize, usize)> {
        if self.joins(s, right_side) {
            Some((subtree_on(s, right_side).idx() as usize, s.idx() as usize))
        } else {
            None
        }
    }

    /// What stands in the place of the node `s` after its leaf child on the side
    /// `right_side` lost a bit.
    pub open spec fn under_shape(&self, s: Shape, right_side: bool) -> Shape {
        if self.gets_small(s, right_side) {
            self.mend_shape(s, right_side)
        } else {
            s
        }
    }

    /// The leaf and the node that left the tree when the leaf child of the node `s` on
    /// the side `right_side` lost a bit.
    pub open spec fn under_gone(&self, s: Shape, right_side: bool) -> Option<(usize, usize)> {
        if self.gets_small(s, right_side) {
            self.mend_gone(s, right_side)
        } else {
            None
        }
    }

    /// The tree `s` after the bit at position `index` under it was removed, before the
    /// arenas close up: the leaf in which the way down ends lost the bit and was
    /// mended where it got small, and each node on the way back was rebalanced where
    /// that was due.
    pub open spec fn delete_shape(&self, s: Shape, index: int) -> Shape
        decreases s,
    {
        match s {
            Shape::Node { id, left, right } => if self.nodes[id].nums <= index {
                if *right is Node {
                    shrunk_with(s, true, self.delete_shape(*right, index - self.nodes[id].nums))
                } else {
                    self.under_shape(s, true)
                }
            } else {
                if *left is Node {
                    shrunk_with(s, false, self.delete_shape(*left, index))
                } else {
                    self.under_shape(s, false)
                }
            },
            _ => s,
        }
    }

    /// The leaf and the node that left the tree `s` when the bit at position `index`
    /// under it was removed.
    pub open spec fn delete_gone(&self, s: Shape, index: int) -> Option<(usize, usize)>
        decreases s,
    {
        match s {
            Shape::Node { id, left, right } => if self.nodes[id].nums <= index {
                if *right is Node {
                    self.delete_gone(*right, index - self.nodes[id].nums)
                } else {
                    self.under_gone(s, true)
                }
            } else {
                if *left is Node {
                    self.delete_gone(*left, index)
                } else {
                    self.under_gone(s, false)
                }
            },
            _ => None,
        }
    }

    /// The tree `s` after the small leaf named by `t` under it was mended, before the
    /// arenas close up: the parent of the leaf gave way to its other subtree where the
    /// leaf joined the leaf next to it, and each node on the way back was rebalanced
    /// where that was due.
    pub open spec fn merged_shape(&self, s: Shape, t: isize) -> Shape
        decreases s,
    {
        match s {
            Shape::Node { id, left, right } => if left.holds_ref(t) {
                if *left is Node {
                    shrunk_with(s, false, self.merged_shape(*left, t))
                } else {
                    self.mend_shape(s, false)
                }
            } else {
                if *right is Node {
                    shrunk_with(s, true, self.merged_shape(*right, t))
                } else {
                    self.mend_shape(s, true)
                }
            },
            _ => s,
        }
    }

    /// The leaf and the node that left the tree `s` when the small leaf named by `t`
    /// under it was mended.
    pub open spec fn merged_gone(&self, s: Shape, t: isize) -> Option<(usize, usize)>
        decreases s,
    {
        match s {
            Shape::Node { id, left, right } => if left.holds_ref(t) {
                if *left is Node {
                    self.merged_gone(*left, t)
                } else {
                    self.mend_gone(s, false)
                }
            } else {
                if *right is Node {
                    self.merged_gone(*right, t)
                } else {
                    self.mend_gone(s, true)
                }
            },
            _ => None,
        }
    }

    /// The tree of the vector after the small leaf named by `leaf` was mended.
    pub open spec fn merged_tree(&self, leaf: isize) -> Shape {
        let s = self.shape();
        let right_side = s.rhs().idx() == -leaf;
        if s.lhs() is Nil || s.rhs() is Nil {
            s
        } else if s.lhs() is Leaf && s.rhs() is Leaf {
            if self.joins(s, right_side) {
                self.joined_root(right_side)
            } else {
                s
            }
        } else {
            closed_up(
                self.merged_shape(s, leaf),
                self.merged_gone(s, leaf),
                self.nodes.len() as int,
                self.leafs.len() as int,
            )
        }
    }

    /// The tree of a vector whose root has two leaves after the leaf on the side
    /// `right_side` joined the other one: the other leaf is the only child of the
    /// root, on its own side, and the last leaf of the arena has the slot of the leaf
    /// that left.
    pub open spec fn joined_root(&self, right_side: bool) -> Shape {
        let s = self.shape();
        let kept = subtree_on(s, !right_side);
        (if right_side {
            Shape::node(s.idx(), kept, Shape::Nil)
        } else {
            Shape::node(s.idx(), Shape::Nil, kept)
        }).rename_leaf(self.leafs.len() - 1, subtree_on(s, right_side).idx())
    }

    /// The tree of the vector after the bit at position `index` was removed.
    pub open spec fn deleted_tree(&self, index: int) -> Shape {
        let s = self.shape();
        let right_side = self.nodes[s.idx()].nums <= index;
        if s.lhs() is Nil || s.rhs() is Nil {
            s
        } else if s.lhs() is Leaf && s.rhs() is Leaf {
            if self.gets_small(s, right_side) && self.joins(s, right_side) {
                self.joined_root(right_side)
            } else {
                s
            }
        } else {
            closed_up(
                self.delete_shape(s, index),
                self.delete_gone(s, index),
                self.nodes.len() as int,
                self.leafs.len() as int,
            )
        }
    }
}

/// One level of the tree after a removal: the node over what its subtree on the way
/// down has become, or what the loss of a bit in its leaf child makes of it.
pub proof fn lemma_delete_level(a: &DynamicBitVector, s: Shape, index: int)
    requires
        s is Node,
    ensures
        a.delete_shape(s, index) == (if a.nodes[s.idx()].nums <= index {
            if s.rhs() is Node {
                shrunk_with(s, true, a.delete_shape(s.rhs(), index - a.nodes[s.idx()].nums))
            } else {
                a.under_shape(s, true)
            }
        } else {
            if s.lhs() is Node {
                shrunk_with(s, false, a.delete_shape(s.lhs(), index))
            } else {
                a.under_shape(s, false)
            }
        }),
        a.delete_gone(s, index) == (if a.nodes[s.idx()].nums <= index {
            if s.rhs() is Node {
                a.delete_gone(s.rhs(), index - a.nodes[s.idx()].nums)
            } else {
                a.under_gone(s, true)
            }
        } else {
            if s.lhs() is Node {
                a.delete_gone(s.lhs(), index)
            } else {
                a.under_gone(s, false)
            }
        }),
{
}

/// One level of the tree after a small leaf was mended.
pub proof fn lemma_merge_level(a: &DynamicBitVector, s: Shape, t: isize)
    requires
        s is Node,
    ensures
        a.merged_shape(s, t) == (if s.lhs().holds_ref(t) {
            if s.lhs() is Node {
                shrunk_with(s, false, a.merged_shape(s.lhs(), t))
            } else {
                a.mend_shape(s, false)
            }
        } else {
            if s.rhs() is Node {
                shrunk_with(s, true, a.merged_shape(s.rhs(), t))
            } else {
                a.mend_shape(s, true)
            }
        }),
        a.merged_gone(s, t) == (if s.lhs().holds_ref(t) {
            if s.lhs() is Node {
                a.merged_gone(s.lhs(), t)
            } else {
                a.mend_gone(s, false)
            }
        } else {
            if s.rhs() is Node {
                a.merged_gone(s.rhs(), t)
            } else {
                a.mend_gone(s, true)
            }
        }),
{
}

} // verus!
