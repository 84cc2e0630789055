use vstd::prelude::*;
use crate::dynamic_vector::frame::{
    lemma_framed_child, lemma_framed_children_differ, lemma_framed_range, lemma_linked_framed,
};
use crate::dynamic_vector::model::{lemma_child, lemma_frame, lemma_ids_in_range, parent_outside};
use crate::dynamic_vector::rotate::{
    lemma_can_rotate_left, lemma_can_rotate_right, lemma_rotate_left, lemma_rotate_right,
};
use crate::dynamic_vector::shape::{lemma_node_parts, lemma_proper_height, lemma_rebalanced, Shape};
use crate::dynamic_vector::DynamicBitVector;

verus! {

/// The node at the root of `s` after one of its subtrees, `c`, was replaced by `c2`: the
/// tree it stands over.
pub open spec fn with_subtree(s: Shape, right_side: bool, c2: Shape) -> Shape {
    if right_side {
        Shape::node(s.idx(), s.lhs(), c2)
    } else {
        Shape::node(s.idx(), c2, s.rhs())
    }
}

/// One of two subtrees of the node at the root of `s`.
pub open spec fn subtree_on(s: Shape, right_side: bool) -> Shape {
    if right_side {
        s.rhs()
    } else {
        s.lhs()
    }
}

/// The two children of a laid-out node have different names.
pub proof fn lemma_children_differ(a: &DynamicBitVector, s: Shape, gp: Option<usize>)
    requires
        a.sized(),
        a.linked(s, gp),
        s.distinct(),
        s is Node,
        !(s.lhs() is Nil) || !(s.rhs() is Nil),
    ensures
        s.lhs().child_ref() != s.rhs().child_ref(),
{
    let xu = s.idx() as usize;
    lemma_child(a, s, gp);
    lemma_child(a, s.lhs(), Some(xu));
    lemma_child(a, s.rhs(), Some(xu));
    if s.lhs() is Node {
        assert(s.lhs().node_ids().contains(s.lhs().idx()));
    }
    if s.rhs() is Node {
        assert(s.rhs().node_ids().contains(s.rhs().idx()));
    }
    if s.lhs() is Leaf {
        assert(s.lhs().leaf_ids().contains(s.lhs().idx()));
    }
    if s.rhs() is Leaf {
        assert(s.rhs().leaf_ids().contains(s.rhs().idx()));
    }
}

/// When the subtree on one side of a held node was replaced by a laid-out tree made of
/// its own nodes and leaves and of new ones, while the subtree on the other side is laid
/// out, and the node then got the counters and the rank that belong to its new subtrees,
/// the node is laid out over its new subtrees, and nothing outside it has changed.
#[verifier::rlimit(40)]
pub proof fn lemma_child_replaced(
    a: &DynamicBitVector,
    m: &DynamicBitVector,
    f: &DynamicBitVector,
    s: Shape,
    gp: Option<usize>,
    right_side: bool,
    c2: Shape,
)
    requires
        a.sized(),
        m.sized(),
        a.framed(s, gp),
        a.linked(subtree_on(s, !right_side), Some(s.idx() as usize)),
        s.distinct(),
        s is Node,
        parent_outside(a, s, gp),
        !(subtree_on(s, right_side) is Nil),
        !(c2 is Nil),
        m.linked(c2, Some(s.idx() as usize)),
        c2.distinct(),
        forall|i: int| #[trigger]
            c2.node_ids().contains(i) ==> subtree_on(s, right_side).node_ids().contains(i) || i
                >= a.nodes.len(),
        forall|i: int| #[trigger]
            c2.leaf_ids().contains(i) ==> subtree_on(s, right_side).leaf_ids().contains(i) || i
                >= a.leafs.len(),
        a.same_outside(m, subtree_on(s, right_side), Some(s.idx() as usize)),
        a.regrafted(m, subtree_on(s, right_side), c2, Some(s.idx() as usize)),
        f.root == m.root,
        f.leafs@ == m.leafs@,
        f.nodes.len() == m.nodes.len(),
        forall|i: int|
            0 <= i < m.nodes.len() && i != s.idx() ==> #[trigger] f.nodes[i] == m.nodes[i],
        f.nodes[s.idx()].parent == m.nodes[s.idx()].parent,
        f.nodes[s.idx()].left == m.nodes[s.idx()].left,
        f.nodes[s.idx()].right == m.nodes[s.idx()].right,
        f.nodes[s.idx()].rank == with_subtree(s, right_side, c2).rhs().height() - with_subtree(
            s,
            right_side,
            c2,
        ).lhs().height(),
        right_side ==> f.nodes[s.idx()].nums == a.bits_in(s.lhs()).len() && f.nodes[s.idx()].ones
            == crate::bits::count(a.bits_in(s.lhs()), true),
        !right_side ==> f.nodes[s.idx()].nums == m.bits_in(c2).len() && f.nodes[s.idx()].ones
            == crate::bits::count(m.bits_in(c2), true),
    ensures
        f.sized(),
        f.linked(with_subtree(s, right_side, c2), gp),
        with_subtree(s, right_side, c2).distinct(),
        right_side ==> f.bits_in(with_subtree(s, right_side, c2)) == a.bits_in(s.lhs())
            + m.bits_in(c2),
        !right_side ==> f.bits_in(with_subtree(s, right_side, c2)) == m.bits_in(c2) + a.bits_in(
            s.rhs(),
        ),
        a.bits_in(s) == a.bits_in(s.lhs()) + a.bits_in(s.rhs()),
        f.bits_in(c2) == m.bits_in(c2),
        parent_outside(f, with_subtree(s, right_side, c2), gp),
        a.same_outside(f, s, gp),
        a.regrafted(f, s, with_subtree(s, right_side, c2), gp),
        forall|i: int| #[trigger]
            with_subtree(s, right_side, c2).node_ids().contains(i) ==> s.node_ids().contains(i)
                || i >= a.nodes.len(),
        forall|i: int| #[trigger]
            with_subtree(s, right_side, c2).leaf_ids().contains(i) ==> s.leaf_ids().contains(i)
                || i >= a.leafs.len(),
{
    let x = s.idx();
    let xu = x as usize;
    let c = subtree_on(s, right_side);
    let o = subtree_on(s, !right_side);
    let s2 = with_subtree(s, right_side, c2);
    lemma_framed_child(a, s, gp);
    lemma_framed_child(a, c, Some(xu));
    lemma_child(a, o, Some(xu));
    lemma_child(m, c2, Some(xu));
    lemma_ids_in_range(a, o, Some(xu));
    lemma_framed_range(a, s, gp);
    lemma_ids_in_range(m, c2, Some(xu));
    assert(s.node_ids().contains(x));
    assert(forall|i: int| c.node_ids().contains(i) ==> s.node_ids().contains(i));
    assert(forall|i: int| o.node_ids().contains(i) ==> s.node_ids().contains(i));
    assert(forall|i: int| c.leaf_ids().contains(i) ==> s.leaf_ids().contains(i));
    assert(forall|i: int| o.leaf_ids().contains(i) ==> s.leaf_ids().contains(i));
    assert(a.agrees(f, o)) by {
        assert forall|i: int| #[trigger] o.node_ids().contains(i) implies !c.node_ids().contains(i)
            && i != x by {}
        assert forall|i: int| #[trigger] o.leaf_ids().contains(i) implies !c.leaf_ids().contains(
            i,
        ) by {}
    }
    lemma_frame(a, f, o, Some(xu));
    assert(m.agrees(f, c2)) by {
        assert forall|i: int| #[trigger] c2.node_ids().contains(i) implies i != x by {}
    }
    lemma_frame(m, f, c2, Some(xu));
    lemma_framed_children_differ(a, s, gp);
    assert(f.linked(o, Some(xu)));
    assert(f.linked(c2, Some(xu)));
    assert(f.nodes[x].parent == gp);
    assert(f.nodes[x].left == s2.lhs().child_ref());
    assert(f.nodes[x].right == s2.rhs().child_ref());
    assert(f.linked(s2, gp));
    assert(s2.node_ids() =~= s2.lhs().node_ids().union(s2.rhs().node_ids()).insert(x));
    assert(s2.leaf_ids() =~= s2.lhs().leaf_ids().union(s2.rhs().leaf_ids()));
    assert(s2.distinct()) by {
        assert forall|i: int| #[trigger] c2.node_ids().contains(i) implies !o.node_ids().contains(i)
            && i != x by {}
        assert forall|i: int| #[trigger] c2.leaf_ids().contains(i) implies !o.leaf_ids().contains(
            i,
        ) by {}
    }
    assert(a.same_outside(f, s, gp));
    assert(a.regrafted(f, s, s2, gp));
}

/// When the subtree on one side of a node was replaced by a tree made of its own nodes
/// and leaves and of new ones, and the node then got the counters and the rank that
/// belong to its new subtrees, the node is laid out over its new subtrees, and nothing
/// outside it has changed.
pub proof fn lemma_child_changed(
    a: &DynamicBitVector,
    m: &DynamicBitVector,
    f: &DynamicBitVector,
    s: Shape,
    gp: Option<usize>,
    right_side: bool,
    c2: Shape,
)
    requires
        a.sized(),
        m.sized(),
        a.linked(s, gp),
        s.distinct(),
        s is Node,
        parent_outside(a, s, gp),
        !(subtree_on(s, right_side) is Nil),
        !(c2 is Nil),
        m.linked(c2, Some(s.idx() as usize)),
        c2.distinct(),
        forall|i: int| #[trigger]
            c2.node_ids().contains(i) ==> subtree_on(s, right_side).node_ids().contains(i) || i
                >= a.nodes.len(),
        forall|i: int| #[trigger]
            c2.leaf_ids().contains(i) ==> subtree_on(s, right_side).leaf_ids().contains(i) || i
                >= a.leafs.len(),
        a.same_outside(m, subtree_on(s, right_side), Some(s.idx() as usize)),
        a.regrafted(m, subtree_on(s, right_side), c2, Some(s.idx() as usize)),
        f.root == m.root,
        f.leafs@ == m.leafs@,
        f.nodes.len() == m.nodes.len(),
        forall|i: int|
            0 <= i < m.nodes.len() && i != s.idx() ==> #[trigger] f.nodes[i] == m.nodes[i],
        f.nodes[s.idx()].parent == m.nodes[s.idx()].parent,
        f.nodes[s.idx()].left == m.nodes[s.idx()].left,
        f.nodes[s.idx()].right == m.nodes[s.idx()].right,
        f.nodes[s.idx()].rank == with_subtree(s, right_side, c2).rhs().height() - with_subtree(
            s,
            right_side,
            c2,
        ).lhs().height(),
        right_side ==> f.nodes[s.idx()].nums == a.nodes[s.idx()].nums && f.nodes[s.idx()].ones
            == a.nodes[s.idx()].ones,
        !right_side ==> f.nodes[s.idx()].nums == m.bits_in(c2).len() && f.nodes[s.idx()].ones
            == crate::bits::count(m.bits_in(c2), true),
    ensures
        f.sized(),
        f.linked(with_subtree(s, right_side, c2), gp),
        with_subtree(s, right_side, c2).distinct(),
        right_side ==> f.bits_in(with_subtree(s, right_side, c2)) == a.bits_in(s.lhs())
            + m.bits_in(c2),
        !right_side ==> f.bits_in(with_subtree(s, right_side, c2)) == m.bits_in(c2) + a.bits_in(
            s.rhs(),
        ),
        a.bits_in(s) == a.bits_in(s.lhs()) + a.bits_in(s.rhs()),
        f.bits_in(c2) == m.bits_in(c2),
        parent_outside(f, with_subtree(s, right_side, c2), gp),
        a.same_outside(f, s, gp),
        a.regrafted(f, s, with_subtree(s, right_side, c2), gp),
        forall|i: int| #[trigger]
            with_subtree(s, right_side, c2).node_ids().contains(i) ==> s.node_ids().contains(i)
                || i >= a.nodes.len(),
        forall|i: int| #[trigger]
            with_subtree(s, right_side, c2).leaf_ids().contains(i) ==> s.leaf_ids().contains(i)
                || i >= a.leafs.len(),
{
    lemma_linked_framed(a, s, gp);
    lemma_child(a, s, gp);
    lemma_child_replaced(a, m, f, s, gp, right_side, c2);
}

impl DynamicBitVector {
    /// Mends a difference in height of two at the node `parent`, whose higher child is
    /// `node`, by one rotation or by two.
    #[verifier::rlimit(40)]
    pub(crate) fn rebalance_in(
        &mut self,
        node: usize,
        parent: usize,
        Ghost(s): Ghost<Shape>,
        Ghost(gp): Ghost<Option<usize>>,
    )
        requires
            old(self).sized(),
            old(self).linked(s, gp),
            s.distinct(),
            s.proper(),
            s is Node,
            s.idx() == parent,
            parent_outside(old(self), s, gp),
            old(self).bits_in(s).len() <= usize::MAX,
            s.lhs().balanced(),
            s.rhs().balanced(),
            (s.rhs().height() - s.lhs().height() == 2 && node == s.rhs().idx()) || (
            s.rhs().height() - s.lhs().height() == -2 && node == s.lhs().idx()),
        ensures
            final(self).sized(),
            final(self).nodes.len() == old(self).nodes.len(),
            final(self).leafs.len() == old(self).leafs.len(),
            final(self).linked(s.rebalanced(), gp),
            final(self).bits_in(s.rebalanced()) == old(self).bits_in(s),
            s.rebalanced().distinct(),
            s.rebalanced().node_ids() == s.node_ids(),
            s.rebalanced().leaf_ids() == s.leaf_ids(),
            old(self).same_outside(final(self), s, gp),
            old(self).regrafted(final(self), s, s.rebalanced(), gp),
            parent_outside(final(self), s.rebalanced(), gp),
            old(self).same_contents(final(self)),
    {
        let ghost a = *self;
        proof {
            lemma_rebalanced(s);
            lemma_node_parts(s);
            lemma_child(&a, s, gp);
            lemma_child(&a, s.lhs(), Some(parent));
            lemma_child(&a, s.rhs(), Some(parent));
            assert(s.node_ids().contains(s.idx()));
        }
        let right = self.nodes[parent].right;
        if right == Some(node as isize) {
            let ghost z = s.rhs();
            proof {
                lemma_node_parts(z);
                lemma_child(&a, z.lhs(), Some(node));
                lemma_child(&a, z.rhs(), Some(node));
                lemma_proper_height(z.lhs());
                lemma_proper_height(z.rhs());
            }
            if self.nodes[node].rank >= 0 {
                proof {
                    lemma_can_rotate_left(&a, s, gp);
                }
                self.rotate_left(node, parent);
                proof {
                    lemma_rotate_left(&a, self, s, gp);
                }
            } else {
                let y = self.nodes[node].left.unwrap() as usize;
                proof {
                    let sy = z.lhs();
                    lemma_node_parts(sy);
                    lemma_proper_height(sy.lhs());
                    lemma_proper_height(sy.rhs());
                    assert(z.distinct());
                    assert(forall|i: int| z.node_ids().contains(i) ==> s.node_ids().contains(i));
                    lemma_can_rotate_right(&a, z, Some(parent));
                }
                self.rotate_right(y, node);
                let ghost m = *self;
                proof {
                    lemma_rotate_right(&a, &m, z, Some(parent));
                    lemma_node_parts(z.rotated_right());
                    lemma_node_parts(z.rotated_right().rhs());
                    lemma_child_changed(&a, &m, &m, s, gp, true, z.rotated_right());
                    let s2 = Shape::node(s.idx(), s.lhs(), z.rotated_right());
                    lemma_node_parts(s2);
                    lemma_can_rotate_left(&m, s2, gp);
                }
                self.rotate_left(y, parent);
                proof {
                    let s2 = Shape::node(s.idx(), s.lhs(), z.rotated_right());
                    lemma_rotate_left(&m, self, s2, gp);
                }
            }
        } else {
            let ghost z = s.lhs();
            proof {
                lemma_node_parts(z);
                lemma_child(&a, z.lhs(), Some(node));
                lemma_child(&a, z.rhs(), Some(node));
                lemma_proper_height(z.lhs());
                lemma_proper_height(z.rhs());
            }
            if self.nodes[node].rank <= 0 {
                proof {
                    lemma_can_rotate_right(&a, s, gp);
                }
                self.rotate_right(node, parent);
                proof {
                    lemma_rotate_right(&a, self, s, gp);
                }
            } else {
                let y = self.nodes[node].right.unwrap() as usize;
                proof {
                    let sy = z.rhs();
                    lemma_node_parts(sy);
                    lemma_proper_height(sy.lhs());
                    lemma_proper_height(sy.rhs());
                    assert(z.distinct());
                    assert(forall|i: int| z.node_ids().contains(i) ==> s.node_ids().contains(i));
                    lemma_can_rotate_left(&a, z, Some(parent));
                }
                self.rotate_left(y, node);
                let ghost m = *self;
                proof {
                    lemma_rotate_left(&a, &m, z, Some(parent));
                    lemma_node_parts(z.rotated_left());
                    lemma_node_parts(z.rotated_left().lhs());
                    lemma_child_changed(&a, &m, &m, s, gp, false, z.rotated_left());
                    let s2 = Shape::node(s.idx(), z.rotated_left(), s.rhs());
                    lemma_node_parts(s2);
                    lemma_can_rotate_right(&m, s2, gp);
                }
                self.rotate_right(y, parent);
                proof {
                    let s2 = Shape::node(s.idx(), z.rotated_left(), s.rhs());
                    lemma_rotate_right(&m, self, s2, gp);
                }
            }
        }
    }

    /// Mends a difference in height of two at the node `parent`: finds the higher child
    /// and rebalances with it.
    pub(crate) fn rebalance_no_child_in(
        &mut self,
        parent: usize,
        Ghost(s): Ghost<Shape>,
        Ghost(gp): Ghost<Option<usize>>,
    )
        requires
            old(self).sized(),
            old(self).linked(s, gp),
            s.distinct(),
            s.proper(),
            s is Node,
            s.idx() == parent,
            parent_outside(old(self), s, gp),
            old(self).bits_in(s).len() <= usize::MAX,
            s.lhs().balanced(),
            s.rhs().balanced(),
            s.rhs().height() - s.lhs().height() == 2 || s.rhs().height() - s.lhs().height() == -2,
        ensures
            final(self).sized(),
            final(self).nodes.len() == old(self).nodes.len(),
            final(self).leafs.len() == old(self).leafs.len(),
            final(self).linked(s.rebalanced(), gp),
            final(self).bits_in(s.rebalanced()) == old(self).bits_in(s),
            s.rebalanced().distinct(),
            s.rebalanced().node_ids() == s.node_ids(),
            s.rebalanced().leaf_ids() == s.leaf_ids(),
            old(self).same_outside(final(self), s, gp),
            old(self).regrafted(final(self), s, s.rebalanced(), gp),
            parent_outside(final(self), s.rebalanced(), gp),
            old(self).same_contents(final(self)),
    {
        proof {
            lemma_rebalanced(s);
            lemma_child(self, s, gp);
            lemma_child(self, s.lhs(), Some(parent));
            lemma_child(self, s.rhs(), Some(parent));
        }
        let n = self.nodes[parent];
        if n.rank > 0 {
            let heavy = n.right.unwrap() as usize;
            self.rebalance_in(heavy, parent, Ghost(s), Ghost(gp));
        } else {
            let heavy = n.left.unwrap() as usize;
            self.rebalance_in(heavy, parent, Ghost(s), Ghost(gp));
        }
    }

    /// Looks at the rank of `parent` after the height of one of its subtrees changed by
    /// `depth_change` and the rank was adjusted: rebalances where the rank is two or
    /// minus two. Returns by how much the height of the subtree of `parent` differs
    /// from what it was before the change: by nothing or by `depth_change`.
    pub(crate) fn check_rebalance(
        &mut self,
        parent: usize,
        depth_change: i8,
        Ghost(s): Ghost<Shape>,
        Ghost(gp): Ghost<Option<usize>>,
    ) -> (r: (i8, Ghost<Shape>))
        requires
            old(self).sized(),
            old(self).linked(s, gp),
            s.distinct(),
            s.proper(),
            s is Node,
            s.idx() == parent,
            parent_outside(old(self), s, gp),
            old(self).bits_in(s).len() <= usize::MAX,
            s.lhs().balanced(),
            s.rhs().balanced(),
            -2 <= s.rhs().height() - s.lhs().height() <= 2,
            depth_change == 1 || depth_change == -1,
        ensures
            final(self).sized(),
            final(self).nodes.len() == old(self).nodes.len(),
            final(self).leafs.len() == old(self).leafs.len(),
            final(self).linked(r.1@, gp),
            r.1@ is Node,
            r.1@.balanced(),
            r.1@.distinct(),
            r.1@.proper(),
            final(self).bits_in(r.1@) == old(self).bits_in(s),
            r.1@.node_ids() == s.node_ids(),
            r.1@.leaf_ids() == s.leaf_ids(),
            old(self).same_outside(final(self), s, gp),
            old(self).regrafted(final(self), s, r.1@, gp),
            parent_outside(final(self), r.1@, gp),
            r.0 == 0 || r.0 == depth_change,
            r.1@.height() == height_before(s, depth_change as int) + r.0,
            old(self).same_contents(final(self)),
            r.1@.leaf_order() == s.leaf_order(),
            r.1@ == s.settled(),
    {
        proof {
            lemma_node_parts(s);
            lemma_child(self, s, gp);
            lemma_child(self, s.lhs(), Some(parent));
            lemma_child(self, s.rhs(), Some(parent));
        }
        let n = self.nodes[parent];
        if n.rank == 2 || n.rank == -2 {
            proof {
                lemma_rebalanced(s);
            }
            let heavy = if n.rank > 0 {
                n.right.unwrap() as usize
            } else {
                n.left.unwrap() as usize
            };
            let even = self.nodes[heavy].rank == 0;
            proof {
                crate::dynamic_vector::partition::lemma_rebalanced_order(s);
            }
            self.rebalance_no_child_in(parent, Ghost(s), Ghost(gp));
            let out: i8 = if depth_change > 0 {
                if even {
                    1
                } else {
                    0
                }
            } else {
                if even {
                    0
                } else {
                    -1
                }
            };
            (out, Ghost(s.rebalanced()))
        } else {
            proof {
                assert(self.regrafted(self, s, s, gp));
            }
            if n.rank == 0 {
                (
                    if depth_change > 0 {
                        0
                    } else {
                        -1
                    },
                    Ghost(s),
                )
            } else {
                (
                    if depth_change > 0 {
                        1
                    } else {
                        0
                    },
                    Ghost(s),
                )
            }
        }
    }
}

impl DynamicBitVector {
    /// What rebalancing at the node `parent` needs: the subtree under `parent` is laid
    /// out as a proper tree without repetition, its parent names it, the two subtrees
    /// of `parent` are balanced, and their heights differ by two.
    pub open spec fn needs_rebalance(&self, parent: usize) -> bool {
        let s = self.subtree(parent as isize);
        &&& self.sized()
        &&& parent < self.nodes.len()
        &&& self.has_subtree(parent as isize)
        &&& s.distinct()
        &&& s.proper()
        &&& s.lhs().balanced()
        &&& s.rhs().balanced()
        &&& (s.rhs().height() - s.lhs().height() == 2 || s.rhs().height() - s.lhs().height()
            == -2)
        &&& parent_outside(self, s, self.nodes[parent as int].parent)
        &&& self.bits_in(s).len() <= usize::MAX
    }

    /// `new` is this vector after rebalancing at the node `parent`: the rebalanced tree
    /// is laid out in the place of the subtree of `parent`, balanced, with the same
    /// nodes, leaves and bits, every leaf holds the word and the number of bits that it
    /// held, and nothing outside has changed but the name by which the parent calls the
    /// subtree.
    pub open spec fn rebalanced_to(&self, new: &DynamicBitVector, parent: usize) -> bool {
        let s = self.subtree(parent as isize);
        let gp = self.nodes[parent as int].parent;
        &&& new.sized()
        &&& new.nodes.len() == self.nodes.len()
        &&& new.leafs.len() == self.leafs.len()
        &&& new.linked(s.rebalanced(), gp)
        &&& s.rebalanced().balanced()
        &&& s.rebalanced().proper()
        &&& s.rebalanced().distinct()
        &&& s.rebalanced().node_ids() == s.node_ids()
        &&& s.rebalanced().leaf_ids() == s.leaf_ids()
        &&& new.bits_in(s.rebalanced()) == self.bits_in(s)
        &&& s.rebalanced().height() == (if s.heavy_child_even() {
            s.height()
        } else {
            s.height() - 1
        })
        &&& self.same_outside(new, s, gp)
        &&& self.regrafted(new, s, s.rebalanced(), gp)
        &&& self.same_contents(new)
    }

    /// Rebalances at the node `parent`, whose subtrees differ in height by two and
    /// whose higher child is `node`: by one rotation towards the lower side where the
    /// outer grandchild under `node` is at least as high as the inner one, otherwise by
    /// a rotation of `node` away from `parent` followed by that rotation.
    pub fn rebalance(&mut self, node: usize, parent: usize)
        requires
            old(self).needs_rebalance(parent),
            node < old(self).nodes.len(),
            old(self).nodes[parent as int].rank > 0 ==> old(self).nodes[parent as int].right
                == Some(node as isize),
            old(self).nodes[parent as int].rank < 0 ==> old(self).nodes[parent as int].left
                == Some(node as isize),
        ensures
            old(self).rebalanced_to(final(self), parent),
    {
        let ghost s = self.subtree(parent as isize);
        let ghost gp = self.nodes[parent as int].parent;
        proof {
            let p = choose|p: Option<usize>| #[trigger] self.linked(s, p);
            lemma_child(self, s, p);
            lemma_child(self, s.lhs(), Some(parent));
            lemma_child(self, s.rhs(), Some(parent));
            lemma_rebalanced(s);
        }
        self.rebalance_in(node, parent, Ghost(s), Ghost(gp));
    }

    /// Rebalances at the node `parent`, whose subtrees differ in height by two: finds
    /// the higher child and rebalances with it.
    pub fn rebalance_no_child(&mut self, parent: usize)
        requires
            old(self).needs_rebalance(parent),
        ensures
            old(self).rebalanced_to(final(self), parent),
    {
        let ghost s = self.subtree(parent as isize);
        let ghost gp = self.nodes[parent as int].parent;
        proof {
            let p = choose|p: Option<usize>| #[trigger] self.linked(s, p);
            lemma_child(self, s, p);
            lemma_rebalanced(s);
        }
        self.rebalance_no_child_in(parent, Ghost(s), Ghost(gp));
    }
}

/// The height that a subtree had before one of its two subtrees changed height by
/// `change`, where both it and its subtrees were balanced before, and `s` is the subtree
/// after the change.
pub open spec fn height_before(s: Shape, change: int) -> int {
    let diff = s.rhs().height() - s.lhs().height();
    if change > 0 {
        if diff == 0 {
            s.height()
        } else {
            s.height() - 1
        }
    } else {
        if diff == 0 {
            s.height() + 1
        } else {
            s.height()
        }
    }
}

} // verus!
