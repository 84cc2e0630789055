use vstd::prelude::*;
use crate::bits::{count, lemma_count_bound, lemma_count_remove};
use crate::dynamic_vector::balance::{
    height_before, lemma_child_changed, lemma_children_differ, subtree_on, with_subtree,
};
use crate::dynamic_vector::model::{lemma_child, lemma_ids_in_range, lemma_view, parent_outside};
use crate::dynamic_vector::removal::closed_up;
use crate::dynamic_vector::partition::{
    deleted, leaf_index, lemma_deleted_left, lemma_deleted_right, lemma_flags,
    lemma_leaf_index_concat, lemma_lengths_extreme, lemma_lengths_frame, lemma_lengths_parts,
    lemma_lengths_step, lemma_lengths_total, mended,
};
use crate::dynamic_vector::shape::{lemma_extremes, lemma_node_parts, lemma_proper_height, Shape};
use crate::dynamic_vector::swap::{
    leaves_but, lemma_can_swap_leaf, lemma_can_swap_node, lemma_leaf_swapped, lemma_node_swapped,
    nodes_but,
};
use crate::dynamic_vector::DynamicBitVector;
use crate::error::BitVecError;
use crate::traits::{DynBitVec, StaticBitVec};

verus! {

/// After a subtree of a balanced node became lower by one level, the height that
/// `height_before` computes from the node over its new subtrees is the height that the
/// node had.
pub proof fn lemma_height_before_shrink(s: Shape, right_side: bool, c2: Shape)
    requires
        s is Node,
        s.balanced(),
        c2.height() == subtree_on(s, right_side).height() - 1,
    ensures
        height_before(with_subtree(s, right_side, c2), -1) == s.height(),
        -2 <= with_subtree(s, right_side, c2).rhs().height() - with_subtree(
            s,
            right_side,
            c2,
        ).lhs().height() <= 2,
{
    lemma_node_parts(s);
    lemma_node_parts(with_subtree(s, right_side, c2));
}

/// The chain of changes on the way back from a subtree that gave up a bit: the subtree
/// on one side of the node changed (`a` to `f`, the counters of the node included), and
/// the node was rebalanced where needed (`f` to `g`). What `shrunk` asks of the whole
/// follows from what each step gives.
pub proof fn lemma_shrunk_compose(
    a: &DynamicBitVector,
    f: &DynamicBitVector,
    g: &DynamicBitVector,
    s: Shape,
    right_side: bool,
    c2: Shape,
    s3: Shape,
    gp: Option<usize>,
    gone: Option<(usize, usize)>,
)
    requires
        a.sized(),
        s is Node,
        s.distinct(),
        a.linked(s, gp),
        parent_outside(a, s, gp),
        f.nodes.len() == a.nodes.len(),
        f.leafs.len() == a.leafs.len(),
        g.nodes.len() == a.nodes.len(),
        g.leafs.len() == a.leafs.len(),
        g.sized(),
        match gone {
            Some(x) => {
                &&& subtree_on(s, right_side).leaf_ids().contains(x.0 as int)
                &&& subtree_on(s, right_side).node_ids().contains(x.1 as int)
                &&& c2.leaf_ids() =~= subtree_on(s, right_side).leaf_ids().remove(x.0 as int)
                &&& c2.node_ids() =~= subtree_on(s, right_side).node_ids().remove(x.1 as int)
            },
            None => c2.leaf_ids() =~= subtree_on(s, right_side).leaf_ids() && c2.node_ids()
                =~= subtree_on(s, right_side).node_ids(),
        },
        a.same_outside(f, s, gp),
        a.regrafted(f, s, with_subtree(s, right_side, c2), gp),
        f.same_outside(g, with_subtree(s, right_side, c2), gp),
        f.regrafted(g, with_subtree(s, right_side, c2), s3, gp),
        s3.node_ids() == with_subtree(s, right_side, c2).node_ids(),
        s3.leaf_ids() == with_subtree(s, right_side, c2).leaf_ids(),
        g.linked(s3, gp),
        s3.balanced(),
        s3.distinct(),
        s3.proper(),
        parent_outside(g, s3, gp),
    ensures
        forall|delta: int|
            s3.height() == s.height() + delta && (delta == 0 || delta == -1) ==> #[trigger] a.shrunk(
                g,
                s,
                s3,
                gp,
                delta,
                gone,
            ),
{
    let s2 = with_subtree(s, right_side, c2);
    let c = subtree_on(s, right_side);
    let o = subtree_on(s, !right_side);
    lemma_ids_in_range(a, s, gp);
    assert(s.node_ids() =~= s.lhs().node_ids().union(s.rhs().node_ids()).insert(s.idx()));
    assert(s2.node_ids() =~= s2.lhs().node_ids().union(s2.rhs().node_ids()).insert(s2.idx()));
    assert(s.leaf_ids() =~= s.lhs().leaf_ids().union(s.rhs().leaf_ids()));
    assert(s2.leaf_ids() =~= s2.lhs().leaf_ids().union(s2.rhs().leaf_ids()));
    match gone {
        Some(x) => {
            assert(!o.node_ids().contains(x.1 as int));
            assert(!o.leaf_ids().contains(x.0 as int));
            assert(x.1 != s.idx());
            assert(s3.node_ids() =~= s.node_ids().remove(x.1 as int));
            assert(s3.leaf_ids() =~= s.leaf_ids().remove(x.0 as int));
        },
        None => {
            assert(s3.node_ids() =~= s.node_ids());
            assert(s3.leaf_ids() =~= s.leaf_ids());
        },
    }
    assert(a.same_outside(g, s, gp));
    assert(a.regrafted(g, s, s3, gp));
}

/// Two joined sequences after the position `at` of the one on the side `right_side` was
/// removed.
pub open spec fn with_removed(l: Seq<bool>, r: Seq<bool>, right_side: bool, at: int) -> Seq<bool> {
    if right_side {
        l + r.remove(at)
    } else {
        l.remove(at) + r
    }
}

/// Where only the leaf child of a node got another length, the lengths under the node
/// are as before but for the place of that leaf.
proof fn lemma_delete_leaf_lengths(
    a: &DynamicBitVector,
    f: &DynamicBitVector,
    s: Shape,
    right_side: bool,
)
    requires
        s is Node,
        s.proper(),
        s.distinct(),
        subtree_on(s, right_side) is Leaf,
        forall|j: int|
            #[trigger] s.leaf_ids().contains(j) && j != subtree_on(s, right_side).idx()
                ==> f.leafs[j].nums == a.leafs[j].nums,
    ensures
        f.lengths_in(s) == a.lengths_in(s).update(
            leaf_place(a.lengths_in(s), right_side),
            f.leafs[subtree_on(s, right_side).idx()].nums as nat,
        ),
{
    let sl = subtree_on(s, right_side);
    let o = subtree_on(s, !right_side);
    lemma_node_parts(s);
    lemma_lengths_parts(a, s);
    lemma_lengths_parts(a, sl);
    lemma_lengths_parts(a, o);
    lemma_lengths_parts(f, s);
    lemma_lengths_parts(f, sl);
    lemma_lengths_parts(f, o);
    assert(sl.leaf_ids().contains(sl.idx()));
    assert(s.leaf_ids() =~= s.lhs().leaf_ids().union(s.rhs().leaf_ids()));
    assert forall|j: int| #[trigger] o.leaf_ids().contains(j) implies f.leafs[j].nums
        == a.leafs[j].nums by {
        assert(s.leaf_ids().contains(j));
    }
    lemma_lengths_frame(a, f, o);
    assert(f.lengths_in(s) =~= a.lengths_in(s).update(
        leaf_place(a.lengths_in(s), right_side),
        f.leafs[sl.idx()].nums as nat,
    ));
}

/// The position of the leaf child of a node among the leaves under the node.
pub open spec fn leaf_place(p: Seq<nat>, right_side: bool) -> int {
    if right_side {
        p.len() - 1
    } else {
        0
    }
}

/// What the mending of a small leaf child of a node makes of the lengths under the
/// node. Here `f` is the vector after the mending, `merged` says whether the neighbour
/// took the leaf in, and `t` is the tree that stands in the place of the node then.
pub proof fn lemma_mended_lengths(
    a: &DynamicBitVector,
    f: &DynamicBitVector,
    s: Shape,
    right_side: bool,
    merged: bool,
    t: Shape,
)
    requires
        s is Node,
        s.proper(),
        s.distinct(),
        subtree_on(s, right_side) is Leaf,
        merged == (a.leafs[DynamicBitVector::neighbor_of(s, right_side)].nums <= 48),
        t == (if merged {
            subtree_on(s, !right_side)
        } else {
            s
        }),
        ({
            let l = subtree_on(s, right_side).idx();
            let nb = DynamicBitVector::neighbor_of(s, right_side);
            let ln = a.leafs[l].nums;
            let nn = a.leafs[nb].nums;
            &&& forall|j: int| #[trigger]
                s.leaf_ids().contains(j) && j != l && j != nb ==> f.leafs[j].nums
                    == a.leafs[j].nums
            &&& merged ==> f.leafs[nb].nums == nn + ln
            &&& !merged && right_side ==> f.leafs[nb].nums == 32 && f.leafs[l].nums == ln + nn - 32
            &&& !merged && !right_side ==> f.leafs[nb].nums == nn - 32 && f.leafs[l].nums == ln
                + 32
        }),
    ensures
        a.lengths_in(s).len() >= 2,
        f.lengths_in(t) == mended(
            a.lengths_in(s),
            leaf_place(a.lengths_in(s), right_side),
            right_side,
        ),
{
    let sl = subtree_on(s, right_side);
    let o = subtree_on(s, !right_side);
    let l = sl.idx();
    let nb = DynamicBitVector::neighbor_of(s, right_side);
    let p = a.lengths_in(s);
    let po = a.lengths_in(o);
    lemma_node_parts(s);
    lemma_extremes(o);
    lemma_flags(o, false);
    lemma_lengths_parts(a, s);
    lemma_lengths_parts(a, sl);
    lemma_lengths_parts(a, o);
    lemma_lengths_parts(f, s);
    lemma_lengths_parts(f, sl);
    lemma_lengths_parts(f, o);
    assert(sl.leaf_ids().contains(l));
    assert(s.leaf_ids() =~= s.lhs().leaf_ids().union(s.rhs().leaf_ids()));
    assert(nb != l);
    assert forall|j: int| #[trigger] o.leaf_ids().contains(j) && j != nb implies f.leafs[j].nums
        == a.leafs[j].nums by {
        assert(s.leaf_ids().contains(j));
    }
    lemma_lengths_extreme(a, f, o, !right_side);
    if right_side {
        let k = po.len() as int;
        assert(p =~= po + seq![a.leafs[l].nums as nat]);
        if merged {
            assert(f.lengths_in(o) =~= mended(p, k, true));
        } else {
            assert(f.lengths_in(s) =~= mended(p, k, true));
        }
    } else {
        assert(p =~= seq![a.leafs[l].nums as nat] + po);
        if merged {
            assert(f.lengths_in(o) =~= mended(p, 0, false));
        } else {
            assert(f.lengths_in(s) =~= mended(p, 0, false));
        }
    }
}

/// The lengths under a node after a bit was removed under one of its subtrees, which
/// is a node, and after the rebalancing that may follow, are what the removal makes of
/// the lengths under the node.
proof fn lemma_delete_lengths(
    a: &DynamicBitVector,
    m: &DynamicBitVector,
    f: &DynamicBitVector,
    g: &DynamicBitVector,
    s: Shape,
    gp: Option<usize>,
    right_side: bool,
    c2: Shape,
    s3: Shape,
    index: int,
)
    requires
        a.sized(),
        m.sized(),
        a.linked(s, gp),
        s is Node,
        s.distinct(),
        s.proper(),
        subtree_on(s, right_side) is Node,
        m.linked(c2, Some(s.idx() as usize)),
        a.same_outside(m, subtree_on(s, right_side), Some(s.idx() as usize)),
        f.leafs@ == m.leafs@,
        f.same_contents(g),
        s3.leaf_order() == with_subtree(s, right_side, c2).leaf_order(),
        right_side == (a.bits_in(s.lhs()).len() <= index),
        0 <= index < a.bits_in(s).len(),
        m.lengths_in(c2) == deleted(
            a.lengths_in(subtree_on(s, right_side)),
            subtree_on(s, right_side).right_flags(false),
            if right_side {
                index - a.bits_in(s.lhs()).len()
            } else {
                index
            },
        ),
    ensures
        g.lengths_in(s3) == deleted(a.lengths_in(s), s.right_flags(false), index),
{
    let x = s.idx() as usize;
    lemma_node_parts(s);
    lemma_child(a, s, gp);
    lemma_ids_in_range(m, c2, Some(x));
    lemma_lengths_step(a, m, f, g, s, gp, right_side, c2, s3);
    lemma_lengths_total(a, s.lhs(), Some(x));
    lemma_flags(s, false);
    lemma_flags(s.lhs(), false);
    lemma_flags(s.rhs(), true);
    lemma_flags(s.lhs(), true);
    lemma_flags(s.rhs(), false);
    lemma_lengths_parts(a, s.lhs());
    lemma_lengths_parts(a, s.rhs());
    if right_side {
        lemma_deleted_right(
            a.lengths_in(s.lhs()),
            s.lhs().right_flags(false),
            a.lengths_in(s.rhs()),
            s.rhs().right_flags(true),
            index,
        );
    } else {
        lemma_deleted_left(
            a.lengths_in(s.lhs()),
            s.lhs().right_flags(false),
            a.lengths_in(s.rhs()),
            s.rhs().right_flags(true),
            index,
        );
    }
}

/// What the removal of a bit from the leaf child of a node makes of the lengths under
/// the node, where `q` are the lengths after the leaf gave up the bit.
proof fn lemma_delete_under_lengths(
    a: &DynamicBitVector,
    s: Shape,
    gp: Option<usize>,
    right_side: bool,
    at: int,
)
    requires
        a.sized(),
        a.linked(s, gp),
        s is Node,
        s.proper(),
        subtree_on(s, right_side) is Leaf,
        0 <= at < a.leafs[subtree_on(s, right_side).idx()].nums,
    ensures
        ({
            let p = a.lengths_in(s);
            let k = leaf_place(p, right_side);
            let index = if right_side {
                a.bits_in(s.lhs()).len() + at
            } else {
                at
            };
            &&& p.len() >= 2
            &&& leaf_index(p, index) == k
            &&& p[k] == a.leafs[subtree_on(s, right_side).idx()].nums
            &&& s.right_flags(false)[k] == right_side
        }),
{
    let x = s.idx() as usize;
    let sl = subtree_on(s, right_side);
    let o = subtree_on(s, !right_side);
    lemma_node_parts(s);
    lemma_child(a, s, gp);
    lemma_flags(s, false);
    lemma_flags(s.lhs(), false);
    lemma_flags(s.rhs(), true);
    lemma_lengths_parts(a, s);
    lemma_lengths_parts(a, s.lhs());
    lemma_lengths_parts(a, s.rhs());
    lemma_lengths_total(a, s.lhs(), Some(x));
    let p = a.lengths_in(s);
    if right_side {
        lemma_leaf_index_concat(a.lengths_in(o), a.lengths_in(sl), a.bits_in(s.lhs()).len() + at);
    } else {
        assert(leaf_index(p, at) == 0);
    }
}

impl DynamicBitVector {
    /// Removes the bit at position `index` of the leaf `leaf` and returns it.
    #[inline]
    fn delete_leaf(&mut self, leaf: isize, index: usize) -> (r: bool)
        requires
            old(self).sized(),
            leaf < 0,
            -leaf < old(self).leafs.len(),
            old(self).leafs[-leaf].wf(),
            index < old(self).leafs[-leaf].nums,
        ensures
            final(self).root == old(self).root,
            final(self).nodes@ == old(self).nodes@,
            final(self).leafs.len() == old(self).leafs.len(),
            forall|j: int|
                0 <= j < old(self).leafs.len() && j != -leaf ==> #[trigger] final(self).leafs[j]
                    == old(self).leafs[j],
            final(self).leafs[-leaf].wf(),
            final(self).leafs[-leaf].parent == old(self).leafs[-leaf].parent,
            final(self).leafs[-leaf].nums == old(self).leafs[-leaf].nums - 1,
            final(self).leafs[-leaf].bits() == old(self).leafs[-leaf].bits().remove(index as int),
            r == old(self).leafs[-leaf].bits()[index as int],
    {
        let li = (-leaf) as usize;
        let mut l = self.leafs[li];
        let bit = l.access(index);
        l.delete_unchecked(index);
        self.leafs[li] = l;
        bit
    }

    /// Mends a leaf that holds at most 16 bits, the child of `parent` on the side
    /// `right_side`, with the help of the leaf next to it: where that neighbour holds
    /// at most 48 bits it takes in the bits of the small leaf, which leaves the tree
    /// together with `parent`; otherwise the small leaf takes bits from the neighbour.
    /// The bits of the subtree stay as they are. Returns by how much the height of the
    /// subtree changed, and the leaf and node that left the tree.
    #[verifier::rlimit(40)]
    pub(crate) fn merge_away_in(
        &mut self,
        parent: usize,
        right_side: bool,
        Ghost(s): Ghost<Shape>,
        Ghost(gp): Ghost<Option<usize>>,
    ) -> (r: (i8, Option<(usize, usize)>, Ghost<Shape>))
        requires
            old(self).sized(),
            old(self).linked(s, gp),
            s.balanced(),
            s.distinct(),
            s.proper(),
            s is Node,
            s.idx() == parent,
            parent_outside(old(self), s, gp),
            subtree_on(s, right_side) is Leaf,
            gp is None ==> subtree_on(s, !right_side) is Node,
            old(self).leafs[subtree_on(s, right_side).idx()].nums <= 16,
            old(self).bits_in(s).len() <= usize::MAX,
        ensures
            old(self).shrunk(final(self), s, r.2@, gp, r.0 as int, r.1),
            final(self).bits_in(r.2@) == old(self).bits_in(s),
            final(self).lengths_in(r.2@) == mended(
                old(self).lengths_in(s),
                leaf_place(old(self).lengths_in(s), right_side),
                right_side,
            ),
            r.2@ == old(self).mend_shape(s, right_side),
            r.1 == old(self).mend_gone(s, right_side),
    {
        let ghost a = *self;
        let ghost o = subtree_on(s, !right_side);
        proof {
            lemma_node_parts(s);
            lemma_child(&a, s, gp);
            lemma_child(&a, s.lhs(), Some(parent));
            lemma_child(&a, s.rhs(), Some(parent));
            lemma_extremes(o);
            lemma_ids_in_range(&a, o, Some(parent));
        }
        let n0 = self.nodes[parent];
        let nb = if right_side {
            self.descend_rightmost(n0.left.unwrap(), Ghost(o), Ghost(Some(parent)))
        } else {
            self.descend_leftmost(n0.right.unwrap(), Ghost(o), Ghost(Some(parent)))
        };
        if self.leafs[(-nb) as usize].nums <= 48 {
            let gone = if right_side {
                self.merge_into_previous(parent, nb, Ghost(s), Ghost(gp))
            } else {
                self.merge_into_next(parent, nb, Ghost(s), Ghost(gp))
            };
            proof {
                lemma_ids_in_range(&a, s, gp);
                lemma_mended_lengths(&a, self, s, right_side, true, o);
            }
            (-1, Some(gone), Ghost(o))
        } else {
            if right_side {
                self.steal_from_previous(parent, nb, Ghost(s), Ghost(gp));
            } else {
                self.steal_from_next(parent, nb, Ghost(s), Ghost(gp));
            }
            proof {
                assert(a.same_outside(self, s, gp));
                assert(a.regrafted(self, s, s, gp));
                assert(parent_outside(self, s, gp));
                lemma_ids_in_range(&a, s, gp);
                lemma_mended_lengths(&a, self, s, right_side, false, s);
            }
            (0, None, Ghost(s))
        }
    }

    /// Removes the bit at position `index` under the node `node`: goes down to the leaf
    /// that holds the position, mends that leaf where it got small, and mends counters,
    /// ranks and balance on the way back. Returns by how much the height of the subtree
    /// changed, the bit that was removed, and the leaf and node that left the tree.
    #[verifier::rlimit(40)]
    fn delete_node(
        &mut self,
        node: usize,
        index: usize,
        Ghost(s): Ghost<Shape>,
        Ghost(gp): Ghost<Option<usize>>,
    ) -> (r: (i8, bool, Option<(usize, usize)>, Ghost<Shape>))
        requires
            old(self).sized(),
            old(self).linked(s, gp),
            s.balanced(),
            s.distinct(),
            s.proper(),
            s is Node,
            s.idx() == node,
            parent_outside(old(self), s, gp),
            index < old(self).bits_in(s).len(),
            old(self).bits_in(s).len() <= usize::MAX,
            gp is None ==> !(s.lhs() is Leaf && s.rhs() is Leaf),
        ensures
            old(self).shrunk(final(self), s, r.3@, gp, r.0 as int, r.2),
            final(self).bits_in(r.3@) == old(self).bits_in(s).remove(index as int),
            r.1 == old(self).bits_in(s)[index as int],
            final(self).lengths_in(r.3@) == deleted(
                old(self).lengths_in(s),
                s.right_flags(false),
                index as int,
            ),
            r.3@ == old(self).delete_shape(s, index as int),
            r.2 == old(self).delete_gone(s, index as int),
        decreases s,
    {
        let ghost a = *self;
        proof {
            lemma_node_parts(s);
            lemma_child(&a, s, gp);
            lemma_child(&a, s.lhs(), Some(node));
            lemma_child(&a, s.rhs(), Some(node));
            lemma_children_differ(&a, s, gp);
            lemma_count_bound(a.bits_in(s.lhs()), true);
            lemma_ids_in_range(&a, s, gp);
            assert(s.node_ids().contains(s.idx()));
        }
        let n0 = self.nodes[node];
        let right_side = n0.nums <= index;
        let ghost c = subtree_on(s, right_side);
        let child = if right_side {
            n0.right.unwrap()
        } else {
            n0.left.unwrap()
        };
        let at = if right_side {
            index - n0.nums
        } else {
            index
        };
        proof {
            let l = a.bits_in(s.lhs());
            let r = a.bits_in(s.rhs());
            if right_side {
                assert(l + r.remove(at as int) =~= (l + r).remove(index as int));
            } else {
                assert(l.remove(at as int) + r =~= (l + r).remove(index as int));
                lemma_count_remove(l, at as int, true);
                lemma_count_bound(l.remove(at as int), true);
            }
            assert(forall|i: int| c.node_ids().contains(i) ==> s.node_ids().contains(i));
            assert(forall|i: int| c.leaf_ids().contains(i) ==> s.leaf_ids().contains(i));
        }
        if child >= 0 {
            let (d, bit, gone, Ghost(c2)) = self.delete_node(
                child as usize,
                at,
                Ghost(c),
                Ghost(Some(node)),
            );
            let ghost m = *self;
            let ghost s2 = with_subtree(s, right_side, c2);
            proof {
                crate::dynamic_vector::removal::lemma_delete_level(&a, s, index as int);
                assert(c2 == a.delete_shape(c, at as int));
                assert((d == -1) == (c2.height() < c.height()));
            }
            let mut n = self.nodes[node];
            if !right_side {
                n.nums = n.nums - 1;
                if bit {
                    n.ones = n.ones - 1;
                }
            }
            if d == -1 {
                if right_side {
                    n.rank = n.rank - 1;
                } else {
                    n.rank = n.rank + 1;
                }
            }
            self.nodes[node] = n;
            proof {
                lemma_proper_height(c2);
                lemma_node_parts(s2);
                lemma_child_changed(&a, &m, self, s, gp, right_side, c2);
            }
            let ghost f = *self;
            if d == -1 {
                proof {
                    lemma_height_before_shrink(s, right_side, c2);
                }
                let (d2, Ghost(s3)) = self.check_rebalance(node, -1, Ghost(s2), Ghost(gp));
                proof {
                    lemma_shrunk_compose(&a, &f, self, s, right_side, c2, s3, gp, gone);
                    lemma_delete_lengths(&a, &m, &f, self, s, gp, right_side, c2, s3, index as int);
                }
                (d2, bit, gone, Ghost(s3))
            } else {
                proof {
                    assert(f.regrafted(&f, s2, s2, gp));
                    lemma_shrunk_compose(&a, &f, &f, s, right_side, c2, s2, gp, gone);
                    lemma_delete_lengths(&a, &m, &f, &f, s, gp, right_side, c2, s2, index as int);
                }
                (0, bit, gone, Ghost(s2))
            }
        } else {
            proof {
                crate::dynamic_vector::removal::lemma_delete_level(&a, s, index as int);
            }
            self.delete_under(node, right_side, at, Ghost(s), Ghost(gp))
        }
    }

    /// Removes the bit at position `at` of the leaf that is the child of `node` on the
    /// side `right_side`, adjusts the counters of `node`, and mends the leaf where it
    /// got small. Returns what `delete_node` returns.
    #[verifier::rlimit(40)]
    fn delete_under(
        &mut self,
        node: usize,
        right_side: bool,
        at: usize,
        Ghost(s): Ghost<Shape>,
        Ghost(gp): Ghost<Option<usize>>,
    ) -> (r: (i8, bool, Option<(usize, usize)>, Ghost<Shape>))
        requires
            old(self).sized(),
            old(self).linked(s, gp),
            s.balanced(),
            s.distinct(),
            s.proper(),
            s is Node,
            s.idx() == node,
            parent_outside(old(self), s, gp),
            subtree_on(s, right_side) is Leaf,
            at < old(self).bits_in(subtree_on(s, right_side)).len(),
            old(self).bits_in(s).len() <= usize::MAX,
            gp is None ==> !(s.lhs() is Leaf && s.rhs() is Leaf),
        ensures
            old(self).shrunk(final(self), s, r.3@, gp, r.0 as int, r.2),
            final(self).bits_in(r.3@) == with_removed(
                old(self).bits_in(s.lhs()),
                old(self).bits_in(s.rhs()),
                right_side,
                at as int,
            ),
            r.1 == old(self).bits_in(subtree_on(s, right_side))[at as int],
            final(self).lengths_in(r.3@) == deleted(
                old(self).lengths_in(s),
                s.right_flags(false),
                if right_side {
                    old(self).bits_in(s.lhs()).len() + at
                } else {
                    at as int
                },
            ),
            r.3@ == old(self).under_shape(s, right_side),
            r.2 == old(self).under_gone(s, right_side),
    {
        let ghost a = *self;
        let ghost c = subtree_on(s, right_side);
        proof {
            lemma_node_parts(s);
            lemma_child(&a, s, gp);
            lemma_child(&a, s.lhs(), Some(node));
            lemma_child(&a, s.rhs(), Some(node));
            lemma_children_differ(&a, s, gp);
            lemma_count_bound(a.bits_in(s.lhs()), true);
            lemma_ids_in_range(&a, s, gp);
            assert(s.node_ids().contains(s.idx()));
            assert(c.leaf_ids().contains(c.idx()));
            assert(c.node_ids() =~= Set::<int>::empty());
            assert(forall|i: int| c.leaf_ids().contains(i) ==> s.leaf_ids().contains(i));
            if !right_side {
                lemma_count_remove(a.bits_in(s.lhs()), at as int, true);
                lemma_count_bound(a.bits_in(s.lhs()).remove(at as int), true);
            }
        }
        let n0 = self.nodes[node];
        let child = if right_side {
            n0.right.unwrap()
        } else {
            n0.left.unwrap()
        };
        let bit = self.delete_leaf(child, at);
        let ghost m = *self;
        if !right_side {
            let mut n = self.nodes[node];
            n.nums = n.nums - 1;
            if bit {
                n.ones = n.ones - 1;
            }
            self.nodes[node] = n;
        }
        proof {
            assert(m.linked(c, Some(node)));
            assert(a.same_outside(&m, c, Some(node)));
            assert(a.regrafted(&m, c, c, Some(node)));
            lemma_child_changed(&a, &m, self, s, gp, right_side, c);
        }
        let ghost f = *self;
        proof {
            lemma_delete_under_lengths(&a, s, gp, right_side, at as int);
            lemma_ids_in_range(&a, s, gp);
            assert forall|j: int| #[trigger] s.leaf_ids().contains(j) && j != c.idx() implies f.leafs[j].nums
                == a.leafs[j].nums by {}
            lemma_delete_leaf_lengths(&a, &f, s, right_side);
        }
        proof {
            let o = subtree_on(s, !right_side);
            lemma_extremes(o);
            let nb = DynamicBitVector::neighbor_of(s, right_side);
            assert(o.leaf_ids().contains(nb));
            assert(s.leaf_ids().contains(nb) && nb != c.idx());
            assert(f.leafs[nb].nums == a.leafs[nb].nums);
            assert(f.joins(s, right_side) == a.joins(s, right_side));
        }
        if self.leafs[(-child) as usize].nums <= 16 {
            let (d, gone, Ghost(s2)) = self.merge_away_in(node, right_side, Ghost(s), Ghost(gp));
            proof {
                assert(a.same_outside(self, s, gp));
                assert(a.regrafted(self, s, s2, gp));
            }
            (d, bit, gone, Ghost(s2))
        } else {
            (0, bit, None, Ghost(s))
        }
    }

    /// Removes the bit at position `index` where the only child of the root is a leaf.
    fn delete_root_leaf(&mut self, index: usize, Ghost(s): Ghost<Shape>)
        requires
            old(self).tree_inv(s),
            index < old(self).bits_in(s).len(),
            old(self).nodes[old(self).root as int].left is None != old(self).nodes[old(
                self,
            ).root as int].right is None,
        ensures
            final(self).wf(),
            final(self)@ == old(self).bits_in(s).remove(index as int),
            final(self).lengths() == seq![(old(self).bits_in(s).len() - 1) as nat],
            final(self).leafs[0] == old(self).leafs[0],
            final(self).shape() == s,
    {
        let ghost a = *self;
        let root = self.root;
        proof {
            lemma_node_parts(s);
            lemma_child(&a, s, None);
            lemma_child(&a, s.lhs(), Some(root));
            lemma_child(&a, s.rhs(), Some(root));
            if s.lhs().proper() {
                lemma_proper_height(s.lhs());
            }
            if s.rhs().proper() {
                lemma_proper_height(s.rhs());
            }
            assert(a.bits_in(Shape::Nil) =~= Seq::<bool>::empty());
        }
        let mut n = self.nodes[root];
        let on_left = n.left.is_some();
        let leaf = if on_left {
            n.left.unwrap()
        } else {
            n.right.unwrap()
        };
        let ghost old_bits = a.leafs[-leaf].bits();
        proof {
            assert(a.bits_in(s) =~= old_bits);
        }
        let bit = self.delete_leaf(leaf, index);
        if on_left {
            let l = &self.leafs[(-leaf) as usize];
            n.nums = l.nums();
            n.ones = l.ones();
            self.nodes[root] = n;
        }
        proof {
            let sl = Shape::Leaf { id: -leaf };
            lemma_count_bound(self.leafs[-leaf].bits(), true);
            assert(self.linked(sl, Some(root)));
            assert(self.linked(Shape::Nil, Some(root)));
            assert(self.bits_in(sl) == old_bits.remove(index as int));
            assert(self.bits_in(Shape::Nil) =~= Seq::<bool>::empty());
            if on_left {
                assert(s.lhs() == sl && s.rhs() == Shape::Nil);
            } else {
                assert(s.rhs() == sl && s.lhs() == Shape::Nil);
            }
            assert(self.bits_in(s) == self.bits_in(s.lhs()) + self.bits_in(s.rhs()));
            assert(self.bits_in(s) =~= old_bits.remove(index as int));
            assert(self.linked(s, None));
            assert(self.tree_inv(s));
            lemma_view(self, s);
            lemma_lengths_parts(self, s);
            lemma_lengths_parts(self, s.lhs());
            lemma_lengths_parts(self, s.rhs());
            assert(self.lengths_in(s) =~= seq![(a.bits_in(s).len() - 1) as nat]);
        }
    }

    /// Joins the two leaves under the root, of which the one on the side `right_side`
    /// holds at most 16 bits and the other at most 48: the other leaf takes in the bits
    /// of the small one and stays as the only child of the root, and the small leaf
    /// leaves the arena.
    #[verifier::rlimit(40)]
    pub(crate) fn merge_root_leaves(&mut self, right_side: bool, Ghost(s): Ghost<Shape>)
        requires
            old(self).tree_inv(s),
            s.lhs() is Leaf,
            s.rhs() is Leaf,
            old(self).leafs[s.lhs().idx()].nums + old(self).leafs[s.rhs().idx()].nums <= 64,
        ensures
            final(self).wf(),
            final(self)@ == old(self).bits_in(s),
            final(self).lengths() == seq![old(self).bits_in(s).len() as nat],
            final(self).leafs[0] == old(self).leafs[0],
            final(self).shape() == (if right_side {
                Shape::node(s.idx(), s.lhs(), Shape::Nil)
            } else {
                Shape::node(s.idx(), Shape::Nil, s.rhs())
            }).rename_leaf(old(self).leafs.len() - 1, subtree_on(s, right_side).idx()),
    {
        let ghost a = *self;
        let root = self.root;
        proof {
            lemma_node_parts(s);
            lemma_child(&a, s, None);
            lemma_child(&a, s.lhs(), Some(root));
            lemma_child(&a, s.rhs(), Some(root));
            lemma_children_differ(&a, s, None);
            assert(s.lhs().leaf_ids() =~= Set::<int>::empty().insert(s.lhs().idx()));
            assert(s.rhs().leaf_ids() =~= Set::<int>::empty().insert(s.rhs().idx()));
            assert(s.lhs().node_ids() =~= Set::<int>::empty());
            assert(s.rhs().node_ids() =~= Set::<int>::empty());
            assert(s.leaf_ids() =~= s.lhs().leaf_ids().union(s.rhs().leaf_ids()));
            assert(s.node_ids() =~= Set::<int>::empty().insert(root as int));
            assert(s.leaf_ids().contains(s.lhs().idx()));
            assert(s.leaf_ids().contains(s.rhs().idx()));
        }
        let mut n = self.nodes[root];
        let left = n.left.unwrap();
        let right = n.right.unwrap();
        let mut l = self.leafs[(-left) as usize];
        let mut r = self.leafs[(-right) as usize];
        let ghost lb = l.bits();
        let ghost rb = r.bits();
        let gone = if right_side {
            l.extend_from(&r);
            self.leafs[(-left) as usize] = l;
            n.right = None;
            n.rank = n.rank - 1;
            n.nums = l.nums();
            n.ones = l.ones();
            right
        } else {
            r.prepend(&l);
            self.leafs[(-right) as usize] = r;
            n.left = None;
            n.rank = n.rank + 1;
            n.nums = 0;
            n.ones = 0;
            left
        };
        self.nodes[root] = n;
        let ghost m = *self;
        let ghost kept = if right_side {
            s.lhs()
        } else {
            s.rhs()
        };
        let ghost s2 = if right_side {
            Shape::node(root as int, kept, Shape::Nil)
        } else {
            Shape::node(root as int, Shape::Nil, kept)
        };
        proof {
            lemma_count_bound(lb + rb, true);
            assert(Shape::Nil.node_ids() =~= Set::<int>::empty());
            assert(Shape::Nil.leaf_ids() =~= Set::<int>::empty());
            assert(Shape::Nil.height() == 0);
            assert(m.bits_in(Shape::Nil) =~= Seq::<bool>::empty());
            assert(crate::bits::count(Seq::<bool>::empty(), true) == 0);
            assert(m.linked(Shape::Nil, Some(root)));
            assert(m.linked(kept, Some(root)));
            assert(m.bits_in(kept) == lb + rb);
            assert(m.bits_in(s2) == m.bits_in(s2.lhs()) + m.bits_in(s2.rhs()));
            assert(m.bits_in(s2) =~= lb + rb);
            assert(a.bits_in(s) == lb + rb);
            assert(kept.height() == 1);
            assert(m.linked(s2, None));
            assert(s2.node_ids() =~= s.node_ids());
            assert(s2.leaf_ids() =~= kept.leaf_ids());
            assert(kept.balanced() && kept.distinct() && kept.proper());
            assert(Shape::Nil.balanced() && Shape::Nil.distinct());
            assert(s2.balanced());
            assert(s2.distinct());
            assert(s2.rooted());
            assert forall|j: int| 1 <= j < m.leafs.len() && j != -gone implies s2.leaf_ids().contains(
                j,
            ) by {
                assert(s.leaf_ids().contains(j));
                assert(s.lhs().leaf_ids().contains(j) || s.rhs().leaf_ids().contains(j));
            }
            assert forall|j: int| s2.leaf_ids().contains(j) implies 1 <= j < m.leafs.len() && j
                != -gone by {
                assert(s.leaf_ids().contains(j));
            }
            assert(leaves_but(&m, s2, -gone));
            lemma_can_swap_leaf(&m, s2, -gone);
        }
        self.swap_remove_leaf(gone);
        proof {
            lemma_leaf_swapped(&m, self, s2, -gone);
            let s3 = s2.rename_leaf(m.leafs.len() - 1, -gone);
            assert(self.tree_inv(s3));
            lemma_view(self, s3);
            lemma_lengths_parts(&m, s2);
            lemma_lengths_parts(&m, s2.lhs());
            lemma_lengths_parts(&m, s2.rhs());
            assert(m.lengths_in(s2) =~= seq![a.bits_in(s).len() as nat]);
        }
    }

    /// Removes the bit at position `index` where both children of the root are leaves.
    /// A leaf that is left with at most 16 bits is joined with the other one, or takes
    /// bits from it.
    #[verifier::rlimit(40)]
    fn delete_root_leaves(&mut self, index: usize, Ghost(s): Ghost<Shape>)
        requires
            old(self).tree_inv(s),
            s.lhs() is Leaf,
            s.rhs() is Leaf,
            index < old(self).bits_in(s).len(),
        ensures
            final(self).wf(),
            final(self)@ == old(self).bits_in(s).remove(index as int),
            final(self).lengths() == deleted(
                old(self).lengths_in(s),
                s.right_flags(false),
                index as int,
            ),
            final(self).leafs[0] == old(self).leafs[0],
            final(self).shape() == (if old(self).gets_small(s, old(self).nodes[s.idx()].nums <= index)
                && old(self).joins(s, old(self).nodes[s.idx()].nums <= index) {
                (if old(self).nodes[s.idx()].nums <= index {
                    Shape::node(s.idx(), s.lhs(), Shape::Nil)
                } else {
                    Shape::node(s.idx(), Shape::Nil, s.rhs())
                }).rename_leaf(
                    old(self).leafs.len() - 1,
                    subtree_on(s, old(self).nodes[s.idx()].nums <= index).idx(),
                )
            } else {
                s
            }),
    {
        let ghost a = *self;
        let root = self.root;
        proof {
            lemma_node_parts(s);
            lemma_child(&a, s, None);
            lemma_child(&a, s.lhs(), Some(root));
            lemma_child(&a, s.rhs(), Some(root));
            lemma_children_differ(&a, s, None);
            lemma_count_bound(a.bits_in(s.lhs()), true);
            assert(s.node_ids().contains(s.idx()));
            assert(s.lhs().leaf_ids().contains(s.lhs().idx()));
            assert(s.rhs().leaf_ids().contains(s.rhs().idx()));
            assert(s.lhs().node_ids() =~= Set::<int>::empty());
            assert(s.rhs().node_ids() =~= Set::<int>::empty());
        }
        let n0 = self.nodes[root];
        let right_side = n0.nums <= index;
        let ghost c = subtree_on(s, right_side);
        let child = if right_side {
            n0.right.unwrap()
        } else {
            n0.left.unwrap()
        };
        let other = if right_side {
            n0.left.unwrap()
        } else {
            n0.right.unwrap()
        };
        let at = if right_side {
            index - n0.nums
        } else {
            index
        };
        proof {
            let l = a.bits_in(s.lhs());
            let r = a.bits_in(s.rhs());
            if right_side {
                assert(l + r.remove(at as int) =~= (l + r).remove(index as int));
            } else {
                assert(l.remove(at as int) + r =~= (l + r).remove(index as int));
                lemma_count_remove(l, at as int, true);
                lemma_count_bound(l.remove(at as int), true);
            }
        }
        let bit = self.delete_leaf(child, at);
        let ghost m = *self;
        if !right_side {
            let mut n = self.nodes[root];
            n.nums = n.nums - 1;
            if bit {
                n.ones = n.ones - 1;
            }
            self.nodes[root] = n;
        }
        proof {
            assert(m.linked(c, Some(root)));
            assert(a.same_outside(&m, c, Some(root)));
            assert(a.regrafted(&m, c, c, Some(root)));
            lemma_child_changed(&a, &m, self, s, None, right_side, c);
            assert(with_subtree(s, right_side, c) == s);
            assert(self.tree_inv(s));
        }
        let ghost f = *self;
        proof {
            lemma_delete_under_lengths(&a, s, None, right_side, at as int);
            lemma_ids_in_range(&a, s, None);
            assert forall|j: int| #[trigger] s.leaf_ids().contains(j) && j != c.idx() implies f.leafs[j].nums
                == a.leafs[j].nums by {}
            lemma_delete_leaf_lengths(&a, &f, s, right_side);
            lemma_lengths_parts(&f, s);
            lemma_lengths_parts(&f, s.lhs());
            lemma_lengths_parts(&f, s.rhs());
            lemma_extremes(s.lhs());
            lemma_extremes(s.rhs());
        }
        if self.leafs[(-child) as usize].nums <= 16 {
            if self.leafs[(-other) as usize].nums <= 48 {
                proof {
                    let q = f.lengths_in(s);
                    assert(q =~= seq![f.leafs[s.lhs().idx()].nums as nat, f.leafs[s.rhs().idx()].nums as nat]);
                    assert(mended(q, leaf_place(q, right_side), right_side) =~= seq![
                        (q[0] + q[1]) as nat,
                    ]);
                    assert(f.bits_in(s).len() == q[0] + q[1]);
                }
                self.merge_root_leaves(right_side, Ghost(s));
            } else {
                if right_side {
                    self.steal_from_previous(root, other, Ghost(s), Ghost(None));
                } else {
                    self.steal_from_next(root, other, Ghost(s), Ghost(None));
                }
                proof {
                    assert(self.tree_inv(s));
                    lemma_view(self, s);
                    lemma_mended_lengths(&f, self, s, right_side, false, s);
                }
            }
        } else {
            proof {
                lemma_view(self, s);
            }
        }
    }

    /// Removes the bit at position `index` from a tree whose root has two children that
    /// are not both leaves, and removes from the arenas the leaf and the node that left
    /// the tree.
    fn delete_proper(&mut self, index: usize, Ghost(s): Ghost<Shape>)
        requires
            old(self).tree_inv(s),
            s.proper(),
            !(s.lhs() is Leaf && s.rhs() is Leaf),
            index < old(self).bits_in(s).len(),
        ensures
            final(self).wf(),
            final(self)@ == old(self).bits_in(s).remove(index as int),
            final(self).lengths() == deleted(
                old(self).lengths_in(s),
                s.right_flags(false),
                index as int,
            ),
            final(self).leafs[0] == old(self).leafs[0],
            final(self).shape() == closed_up(
                old(self).delete_shape(s, index as int),
                old(self).delete_gone(s, index as int),
                old(self).nodes.len() as int,
                old(self).leafs.len() as int,
            ),
    {
        let ghost a = *self;
        let root = self.root;
        proof {
            lemma_node_parts(s);
            lemma_proper_height(s.lhs());
            lemma_proper_height(s.rhs());
        }
        let (_, _, gone, Ghost(s2)) = self.delete_node(root, index, Ghost(s), Ghost(None));
        let ghost m = *self;
        proof {
            lemma_proper_height(s2);
            lemma_node_parts(s2);
        }
        self.finish_removal(gone, Ghost(s2));
    }

    /// Removes from the arenas the leaf and the node that left the tree, if any did.
    pub(crate) fn finish_removal(&mut self, gone: Option<(usize, usize)>, Ghost(s2): Ghost<Shape>)
        requires
            old(self).sized(),
            s2 is Node,
            s2.idx() == old(self).root,
            old(self).linked(s2, None),
            s2.balanced(),
            s2.distinct(),
            s2.proper(),
            old(self).bits_in(s2).len() <= usize::MAX,
            match gone {
                Some(g) => leaves_but(old(self), s2, g.0 as int) && nodes_but(
                    old(self),
                    s2,
                    g.1 as int,
                ),
                None => s2.node_ids() =~= Set::new(|i: int| 0 <= i < old(self).nodes.len())
                    && s2.leaf_ids() =~= Set::new(|i: int| 1 <= i < old(self).leafs.len()),
            },
        ensures
            final(self).wf(),
            final(self)@ == old(self).bits_in(s2),
            final(self).lengths() == old(self).lengths_in(s2),
            final(self).leafs[0] == old(self).leafs[0],
            final(self).shape() == closed_up(
                s2,
                gone,
                old(self).nodes.len() as int,
                old(self).leafs.len() as int,
            ),
    {
        let ghost m = *self;
        proof {
            lemma_node_parts(s2);
        }
        match gone {
            Some(g) => {
                proof {
                    lemma_can_swap_leaf(&m, s2, g.0 as int);
                }
                self.swap_remove_leaf(-(g.0 as isize));
                let ghost b = *self;
                let ghost s3 = s2.rename_leaf(m.leafs.len() - 1, g.0 as int);
                proof {
                    assert(b.leafs[0] == m.leafs[0]);
                    lemma_leaf_swapped(&m, &b, s2, g.0 as int);
                    assert(b.nodes.len() == m.nodes.len());
                    assert(nodes_but(&b, s3, g.1 as int));
                    lemma_can_swap_node(&b, s3, g.1 as int);
                }
                self.swap_remove_node(g.1);
                proof {
                    lemma_node_swapped(&b, self, s3, g.1 as int);
                    let s4 = s3.rename_node(b.nodes.len() - 1, g.1 as int);
                    assert(self.tree_inv(s4));
                    lemma_view(self, s4);
                }
            },
            None => {
                proof {
                    assert(self.tree_inv(s2));
                    lemma_view(self, s2);
                }
            },
        }
    }

    /// Removes the bit at position `index`; the bits after it move down by one. A leaf
    /// that is left with at most 16 bits, and is not the only leaf, is mended with the
    /// help of the leaf next to it under its parent: a neighbour of at most 48 bits
    /// takes in its bits, a larger one gives it bits. Fails with `OutOfBounds`, and
    /// changes nothing, where `index` is not below the length. The tree that results
    /// is `deleted_tree`: where a leaf and its parent left the tree, the last leaf and
    /// the last node of the arenas have their places.
    pub fn delete(&mut self, index: usize) -> (r: Result<(), BitVecError>)
        requires
            old(self).wf(),
        ensures
            index < old(self)@.len() ==> r is Ok && final(self).wf() && final(self)@ == old(
                self,
            )@.remove(index as int) && final(self).lengths() == deleted(
                old(self).lengths(),
                old(self).shape().right_flags(false),
                index as int,
            ),
            index < old(self)@.len() ==> final(self).shape() == old(self).deleted_tree(index as int),
            final(self).leafs[0] == old(self).leafs[0],
            index >= old(self)@.len() ==> r == Err::<(), BitVecError>(BitVecError::OutOfBounds)
                && *final(self) == *old(self),
    {
        let ghost a = *self;
        let ghost s = self.shape();
        if index >= self.len() {
            return Err(BitVecError::OutOfBounds);
        }
        let root = self.root;
        let n = self.nodes[root];
        proof {
            lemma_node_parts(s);
            lemma_child(&a, s, None);
            lemma_child(&a, s.lhs(), Some(root));
            lemma_child(&a, s.rhs(), Some(root));
            assert(a.bits_in(Shape::Nil) =~= Seq::<bool>::empty());
        }
        if n.left.is_some() && n.right.is_some() {
            if n.left.unwrap() < 0 && n.right.unwrap() < 0 {
                self.delete_root_leaves(index, Ghost(s));
            } else {
                self.delete_proper(index, Ghost(s));
            }
        } else {
            proof {
                if s.lhs().proper() {
                    lemma_proper_height(s.lhs());
                }
                if s.rhs().proper() {
                    lemma_proper_height(s.rhs());
                }
                lemma_lengths_parts(&a, s);
                lemma_lengths_parts(&a, s.lhs());
                lemma_lengths_parts(&a, s.rhs());
                let p = a.lengths_in(s);
                assert(p.len() == 1);
                assert(p[0] == a.bits_in(s).len());
                assert(seq![(a.bits_in(s).len() - 1) as nat] =~= deleted(
                    p,
                    s.right_flags(false),
                    index as int,
                ));
            }
            self.delete_root_leaf(index, Ghost(s));
        }
        Ok(())
    }
}

} // verus!
