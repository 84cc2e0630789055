use vstd::prelude::*;
use crate::bits::count;
use crate::dynamic_vector::balance::{height_before, lemma_child_replaced, subtree_on, with_subtree};
use crate::dynamic_vector::frame::{
    lemma_framed_child, lemma_framed_children_differ, lemma_linked_framed,
};
use crate::dynamic_vector::model::{lemma_child, lemma_view, parent_outside};
use crate::dynamic_vector::path::lemma_path;
use crate::dynamic_vector::shape::{lemma_height_nonneg, lemma_node_parts, max, Shape};
use crate::dynamic_vector::DynamicBitVector;

verus! {

/// The height that the tree `s` had before the subtree named by `t` changed its height
/// by `change`.
pub open spec fn height_claimed(s: Shape, t: isize, change: int) -> int
    decreases s,
{
    match s {
        Shape::Node { left, right, .. } => {
            if s.child_ref() == Some(t) {
                s.height() - change
            } else if left.holds_ref(t) {
                1 + max(height_claimed(*left, t, change), right.height())
            } else {
                1 + max(left.height(), height_claimed(*right, t, change))
            }
        },
        _ => s.height() - change,
    }
}

/// The tree `s` after a change in height of the subtree named by `t` by `change` was
/// carried upwards: from the parent of `t` to the root of `s`, each node whose subtree
/// on the way has another height than before is rebalanced where its two subtrees
/// then differ in height by two; above the first node whose height is what it was,
/// nothing changes.
pub open spec fn retraced(s: Shape, t: isize, change: int) -> Shape
    decreases s,
{
    match s {
        Shape::Node { id, left, right } => {
            if s.child_ref() == Some(t) {
                s
            } else if left.holds_ref(t) {
                let c2 = retraced(*left, t, change);
                let s2 = Shape::node(id, c2, *right);
                if c2.height() != height_claimed(*left, t, change) {
                    s2.settled()
                } else {
                    s2
                }
            } else {
                let c2 = retraced(*right, t, change);
                let s2 = Shape::node(id, *left, c2);
                if c2.height() != height_claimed(*right, t, change) {
                    s2.settled()
                } else {
                    s2
                }
            }
        },
        _ => s,
    }
}

impl DynamicBitVector {
    /// The arenas lay out the tree `s` under `gp`, balanced, but for the ranks of the
    /// nodes above the subtree named by `t`: they are what they were before that
    /// subtree changed its height by `change`, and were at most one in size then.
    #[verifier::opaque]
    pub open spec fn stale_ranks(&self, s: Shape, gp: Option<usize>, t: isize, change: int) -> bool
        decreases s,
    {
        if s.child_ref() == Some(t) {
            self.linked(s, gp) && s.balanced()
        } else {
            match s {
                Shape::Node { id, left, right } => {
                    let hl = if left.holds_ref(t) {
                        height_claimed(*left, t, change)
                    } else {
                        left.height()
                    };
                    let hr = if left.holds_ref(t) {
                        right.height()
                    } else {
                        height_claimed(*right, t, change)
                    };
                    &&& left.holds_ref(t) || right.holds_ref(t)
                    &&& 0 <= id < self.nodes.len()
                    &&& self.nodes[id].parent == gp
                    &&& self.nodes[id].left == left.child_ref()
                    &&& self.nodes[id].right == right.child_ref()
                    &&& self.nodes[id].nums == self.bits_in(*left).len()
                    &&& self.nodes[id].ones == count(self.bits_in(*left), true)
                    &&& self.nodes[id].rank == hr - hl
                    &&& -1 <= hr - hl <= 1
                    &&& if left.holds_ref(t) {
                        &&& self.stale_ranks(*left, Some(id as usize), t, change)
                        &&& self.linked(*right, Some(id as usize))
                        &&& right.balanced()
                    } else {
                        &&& self.linked(*left, Some(id as usize))
                        &&& left.balanced()
                        &&& self.stale_ranks(*right, Some(id as usize), t, change)
                    }
                },
                _ => false,
            }
        }
    }
}

/// A tree with stale ranks is held, and holds the subtree whose height changed.
pub proof fn lemma_stale_framed(
    a: &DynamicBitVector,
    s: Shape,
    gp: Option<usize>,
    t: isize,
    change: int,
)
    requires
        a.stale_ranks(s, gp, t, change),
        a.sized(),
    ensures
        a.framed(s, gp),
        s.holds_ref(t),
        s is Node || s.child_ref() == Some(t),
        s.child_ref() == Some(t) ==> a.linked(s, gp) && s.balanced(),
    decreases s,
{
    reveal(DynamicBitVector::stale_ranks);
    if s.child_ref() == Some(t) {
        lemma_linked_framed(a, s, gp);
        lemma_child(a, s, gp);
        if s is Node {
            assert(s.node_ids().contains(s.idx()));
        } else if s is Leaf {
            assert(s.leaf_ids().contains(s.idx()));
        }
    } else {
        match s {
            Shape::Node { id, left, right } => {
                if left.holds_ref(t) {
                    lemma_stale_framed(a, *left, Some(id as usize), t, change);
                    lemma_linked_framed(a, *right, Some(id as usize));
                } else {
                    lemma_stale_framed(a, *right, Some(id as usize), t, change);
                    lemma_linked_framed(a, *left, Some(id as usize));
                }
            },
            _ => {},
        }
    }
}

/// The height from which a node came, computed from its new subtrees, is one more than
/// the larger of the heights that its subtrees had, where those differed by at most
/// one and one of them then changed by `d`.
pub proof fn lemma_height_before_numbers(s2: Shape, right_side: bool, old_height: int, d: int)
    requires
        s2 is Node,
        d == 1 || d == -1,
        subtree_on(s2, right_side).height() == old_height + d,
        old_height >= 0,
        -1 <= old_height - subtree_on(s2, !right_side).height() <= 1,
    ensures
        height_before(s2, d) == 1 + max(old_height, subtree_on(s2, !right_side).height()),
        -2 <= s2.rhs().height() - s2.lhs().height() <= 2,
{
    lemma_node_parts(s2);
}

/// The height that a proper tree had before a change by one is not negative.
pub proof fn lemma_claimed_nonneg(s: Shape, t: isize, change: int)
    requires
        s.proper(),
        change == 1 || change == -1,
    ensures
        height_claimed(s, t, change) >= 0,
    decreases s,
{
    crate::dynamic_vector::shape::lemma_proper_height(s);
    match s {
        Shape::Node { left, right, .. } => {
            lemma_claimed_nonneg(*left, t, change);
            lemma_claimed_nonneg(*right, t, change);
            lemma_height_nonneg(*left);
            lemma_height_nonneg(*right);
        },
        _ => {},
    }
}

/// What stale ranks say of the node at the root of a tree that holds the changed
/// subtree below its root: the subtree on the side of the change has stale ranks in
/// its turn, the other subtree is laid out and balanced, and the node has the right
/// links and counters and a rank that belongs to the former heights.
#[verifier::rlimit(40)]
pub proof fn lemma_stale_level(
    a: &DynamicBitVector,
    s: Shape,
    gp: Option<usize>,
    t: isize,
    change: int,
)
    requires
        a.sized(),
        a.stale_ranks(s, gp, t, change),
        s.child_ref() != Some(t),
        s.distinct(),
        s.proper(),
        parent_outside(a, s, gp),
        change == 1 || change == -1,
    ensures
        s is Node,
        0 <= s.idx() < a.nodes.len(),
        a.framed(s, gp),
        s.toward(t) == subtree_on(s, !s.lhs().holds_ref(t)),
        s.toward(t).holds_ref(t),
        a.stale_ranks(s.toward(t), Some(s.idx() as usize), t, change),
        a.linked(subtree_on(s, s.lhs().holds_ref(t)), Some(s.idx() as usize)),
        subtree_on(s, s.lhs().holds_ref(t)).balanced(),
        subtree_on(s, s.lhs().holds_ref(t)).height() >= 1,
        s.toward(t).proper(),
        s.toward(t).distinct(),
        s.toward(t).child_ref() is Some,
        (a.nodes[s.idx()].right == s.toward(t).child_ref()) == !s.lhs().holds_ref(t),
        parent_outside(a, s.toward(t), Some(s.idx() as usize)),
        a.bits_in(s) == a.bits_in(s.lhs()) + a.bits_in(s.rhs()),
        a.nodes[s.idx()].nums == a.bits_in(s.lhs()).len(),
        a.nodes[s.idx()].ones == count(a.bits_in(s.lhs()), true),
        height_claimed(s.toward(t), t, change) >= 0,
        height_claimed(s, t, change) == 1 + max(
            height_claimed(s.toward(t), t, change),
            subtree_on(s, s.lhs().holds_ref(t)).height(),
        ),
        -1 <= height_claimed(s.toward(t), t, change) - subtree_on(
            s,
            s.lhs().holds_ref(t),
        ).height() <= 1,
        a.nodes[s.idx()].rank == (if s.lhs().holds_ref(t) {
            subtree_on(s, true).height() - height_claimed(s.toward(t), t, change)
        } else {
            height_claimed(s.toward(t), t, change) - subtree_on(s, false).height()
        }),
        s.path_to(t).len() > 0,
        s.path_to(t).last() == s.idx(),
        s.path_to(t).drop_last() == s.toward(t).path_to(t),
        s.toward(t).path_to(t).len() == 0 <==> s.toward(t).child_ref() == Some(t),
        s.toward(t).path_to(t).len() > 0 ==> s.toward(t).path_to(t).last() == s.toward(t).idx(),
        forall|i: int| s.toward(t).node_ids().contains(i) ==> s.node_ids().contains(i),
{
    reveal(DynamicBitVector::stale_ranks);
    let c = s.toward(t);
    let o = subtree_on(s, s.lhs().holds_ref(t));
    let xu = s.idx() as usize;
    lemma_stale_framed(a, s, gp, t, change);
    lemma_path(a, s, gp, t);
    lemma_node_parts(s);
    lemma_framed_child(a, s, gp);
    lemma_framed_child(a, c, Some(xu));
    lemma_child(a, o, Some(xu));
    lemma_framed_children_differ(a, s, gp);
    lemma_stale_framed(a, c, Some(xu), t, change);
    lemma_path(a, c, Some(xu), t);
    lemma_claimed_nonneg(c, t, change);
    crate::dynamic_vector::shape::lemma_proper_height(o);
    assert(s.node_ids().contains(s.idx()));
    assert(forall|i: int| c.node_ids().contains(i) ==> s.node_ids().contains(i));
}

impl DynamicBitVector {
    /// Carries a change in height of the subtree named by `t` up through the nodes
    /// `path[0..=k]` above it: adjusts the rank of each node by what arrives from
    /// below, rebalances where a rank gets to two in size, and stops adjusting where
    /// the change is taken up. Returns the change in height that is left over at
    /// `path[k]`.
    #[verifier::rlimit(40)]
    fn retrace_path(
        &mut self,
        path: &Vec<usize>,
        k: usize,
        t: isize,
        depth_change: i8,
        Ghost(s): Ghost<Shape>,
        Ghost(gp): Ghost<Option<usize>>,
    ) -> (r: (i8, Ghost<Shape>))
        requires
            old(self).sized(),
            k < path@.len(),
            path@.take(k + 1) == s.path_to(t),
            old(self).stale_ranks(s, gp, t, depth_change as int),
            s.distinct(),
            s.proper(),
            parent_outside(old(self), s, gp),
            old(self).bits_in(s).len() <= usize::MAX,
            depth_change == 1 || depth_change == -1,
        ensures
            final(self).sized(),
            final(self).nodes.len() == old(self).nodes.len(),
            final(self).leafs.len() == old(self).leafs.len(),
            final(self).linked(r.1@, gp),
            r.1@ is Node,
            r.1@.balanced(),
            r.1@.distinct(),
            r.1@.proper(),
            final(self).bits_in(r.1@) == old(self).bits_in(s),
            r.1@.node_ids() == s.node_ids(),
            r.1@.leaf_ids() == s.leaf_ids(),
            old(self).same_outside(final(self), s, gp),
            old(self).regrafted(final(self), s, r.1@, gp),
            parent_outside(final(self), r.1@, gp),
            r.0 == 0 || r.0 == depth_change,
            r.1@.height() == height_claimed(s, t, depth_change as int) + r.0,
            r.1@ == retraced(s, t, depth_change as int),
            old(self).same_contents(final(self)),
        decreases k,
    {
        let ghost a = *self;
        let ghost change = depth_change as int;
        let ghost c = s.toward(t);
        let ghost o = subtree_on(s, s.lhs().holds_ref(t));
        proof {
            assert(s.path_to(t).len() == k + 1);
            assert(s.path_to(t).last() == path@[k as int]);
            if s.child_ref() == Some(t) {
                lemma_stale_framed(&a, s, gp, t, change);
                lemma_path(&a, s, gp, t);
            }
            lemma_stale_level(&a, s, gp, t, change);
            assert(c.path_to(t) =~= path@.take(k as int));
            if k > 0 {
                assert(c.path_to(t).last() == path@[k - 1]);
            }
        }
        let cur = path[k];
        let below: isize = if k == 0 {
            t
        } else {
            path[k - 1] as isize
        };
        let right_side = match self.nodes[cur].right {
            Some(r) => r == below,
            None => false,
        };
        let (d, Ghost(c2)) = if k == 0 {
            (depth_change, Ghost(c))
        } else {
            self.retrace_path(path, k - 1, t, depth_change, Ghost(c), Ghost(Some(cur)))
        };
        let ghost m = *self;
        let ghost s2 = with_subtree(s, right_side, c2);
        let ghost hc = height_claimed(c, t, change);
        proof {
            if k == 0 {
                lemma_stale_framed(&a, c, Some(cur), t, change);
                assert(a.same_outside(&m, c, Some(cur)));
                assert(a.regrafted(&m, c, c, Some(cur)));
                lemma_child(&a, c, Some(cur));
            }
            lemma_node_parts(s2);
            crate::dynamic_vector::shape::lemma_proper_height(c2);
            assert(c2.height() == hc + d);
            assert(c2 == retraced(c, t, change));
            assert(a.same_contents(&m));
        }
        if d != 0 {
            let mut n = self.nodes[cur];
            if right_side {
                n.rank = n.rank + d;
            } else {
                n.rank = n.rank - d;
            }
            self.nodes[cur] = n;
            proof {
                lemma_child_replaced(&a, &m, self, s, gp, right_side, c2);
                lemma_height_before_numbers(s2, right_side, hc, d as int);
            }
            let ghost f = *self;
            let (d2, Ghost(s3)) = self.check_rebalance(cur, d, Ghost(s2), Ghost(gp));
            proof {
                assert(s2.node_ids() =~= s2.lhs().node_ids().union(s2.rhs().node_ids()).insert(
                    s2.idx(),
                ));
                assert(s.node_ids() =~= s.lhs().node_ids().union(s.rhs().node_ids()).insert(
                    s.idx(),
                ));
                assert(s2.leaf_ids() =~= s2.lhs().leaf_ids().union(s2.rhs().leaf_ids()));
                assert(s.leaf_ids() =~= s.lhs().leaf_ids().union(s.rhs().leaf_ids()));
                assert(a.same_outside(self, s, gp));
                assert(a.regrafted(self, s, s3, gp));
            }
            (d2, Ghost(s3))
        } else {
            proof {
                lemma_child_replaced(&a, &m, &m, s, gp, right_side, c2);
                assert(s2.node_ids() =~= s2.lhs().node_ids().union(s2.rhs().node_ids()).insert(
                    s2.idx(),
                ));
                assert(s.node_ids() =~= s.lhs().node_ids().union(s.rhs().node_ids()).insert(
                    s.idx(),
                ));
                assert(s2.leaf_ids() =~= s2.lhs().leaf_ids().union(s2.rhs().leaf_ids()));
                assert(s.leaf_ids() =~= s.lhs().leaf_ids().union(s.rhs().leaf_ids()));
            }
            (0, Ghost(s2))
        }
    }

    /// The tree `s` is the whole content, laid out from the root as a proper tree that
    /// uses every node and leaf, but for the ranks of the nodes above `node`, which are
    /// what they were before the subtree of `node` changed its height by `change`.
    pub open spec fn stale_tree(&self, s: Shape, node: usize, change: int) -> bool {
        &&& self.sized()
        &&& s is Node
        &&& s.idx() == self.root
        &&& node < self.nodes.len()
        &&& self.stale_ranks(s, None, node as isize, change)
        &&& s.distinct()
        &&& s.proper()
        &&& s.node_ids() =~= Set::new(|i: int| 0 <= i < self.nodes.len())
        &&& s.leaf_ids() =~= Set::new(|i: int| 1 <= i < self.leafs.len())
        &&& self.bits_in(s).len() <= usize::MAX
    }

    /// Some tree is the whole content but for the ranks above `node`.
    pub open spec fn needs_retrace(&self, node: usize, change: int) -> bool {
        exists|s: Shape| self.stale_tree(s, node, change)
    }

    /// The tree that is the whole content but for the ranks above `node`.
    pub open spec fn stale_shape(&self, node: usize, change: int) -> Shape {
        choose|s: Shape| self.stale_tree(s, node, change)
    }

    /// Carries a change in height of the subtree of `node` by `depth_change`, one up or
    /// one down, to the nodes above it: the rank of the parent goes up or down by the
    /// change, according to the side of `node`; where it gets to two in size the
    /// parent is rebalanced; where the height of the parent has changed in the end,
    /// the same is done one level up, and so on to the root. The ranks of `node` and
    /// of everything under it are taken as they are. The tree that results is stated
    /// exactly, and with it every node: a well-formed vector is given by its tree and
    /// the contents of its leaves, and every leaf keeps its word and its number of
    /// bits.
    pub fn retrace(&mut self, node: usize, depth_change: i8)
        requires
            depth_change == 1 || depth_change == -1,
            old(self).needs_retrace(node, depth_change as int),
        ensures
            final(self).wf(),
            final(self)@ == old(self).bits_in(old(self).stale_shape(node, depth_change as int)),
            final(self).nodes.len() == old(self).nodes.len(),
            final(self).leafs.len() == old(self).leafs.len(),
            final(self).shape() == retraced(
                old(self).stale_shape(node, depth_change as int),
                node as isize,
                depth_change as int,
            ),
            old(self).same_contents(final(self)),
            final(self).leafs[0] == old(self).leafs[0],
    {
        let ghost s = self.stale_shape(node, depth_change as int);
        let ghost a = *self;
        proof {
            lemma_stale_framed(&a, s, None, node as isize, depth_change as int);
        }
        let path = self.ancestors(node as isize, Ghost(s));
        if path.len() > 0 {
            proof {
                assert(path@.take(path@.len() as int) =~= path@);
            }
            let (d, Ghost(s2)) = self.retrace_path(
                &path,
                path.len() - 1,
                node as isize,
                depth_change,
                Ghost(s),
                Ghost(None),
            );
            proof {
                lemma_node_parts(s2);
                assert(self.tree_inv(s2));
                lemma_view(self, s2);
            }
        } else {
            proof {
                lemma_path(&a, s, None, node as isize);
                lemma_stale_framed(&a, s, None, node as isize, depth_change as int);
                lemma_node_parts(s);
                assert(self.tree_inv(s));
                lemma_view(self, s);
            }
        }
    }
}

} // verus!
