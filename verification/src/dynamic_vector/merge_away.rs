use vstd::prelude::*;
use crate::dynamic_vector::balance::{
    lemma_child_changed, lemma_children_differ, subtree_on, with_subtree,
};
use crate::dynamic_vector::delete::{lemma_height_before_shrink, lemma_shrunk_compose};
use crate::dynamic_vector::frame::lemma_linked_framed;
use crate::dynamic_vector::model::{lemma_child, lemma_ids_in_range, lemma_view, parent_outside};
use crate::dynamic_vector::path::lemma_path;
use crate::dynamic_vector::delete::leaf_place;
use crate::dynamic_vector::partition::{
    lemma_flags, lemma_lengths_parts, lemma_lengths_step, lemma_mended_left, lemma_mended_right,
    lemma_place, mended,
};
use crate::dynamic_vector::shape::{lemma_node_parts, lemma_proper_height, Shape};
use crate::dynamic_vector::swap::{leaves_but, nodes_but};
use crate::dynamic_vector::DynamicBitVector;

verus! {

/// Mending a leaf under a subtree of a node, which is a node itself, is the mending of
/// that leaf under the node.
proof fn lemma_merge_lifted(a: &DynamicBitVector, s: Shape, right_side: bool, id: int)
    requires
        s is Node,
        s.proper(),
        s.distinct(),
        subtree_on(s, right_side) is Node,
        subtree_on(s, right_side).leaf_ids().contains(id),
    ensures
        right_side ==> mended(
            a.lengths_in(s),
            s.place_of(id),
            s.right_flags(false)[s.place_of(id)],
        ) == a.lengths_in(s.lhs()) + mended(
            a.lengths_in(s.rhs()),
            s.rhs().place_of(id),
            s.rhs().right_flags(false)[s.rhs().place_of(id)],
        ),
        !right_side ==> mended(
            a.lengths_in(s),
            s.place_of(id),
            s.right_flags(false)[s.place_of(id)],
        ) == mended(
            a.lengths_in(s.lhs()),
            s.lhs().place_of(id),
            s.lhs().right_flags(false)[s.lhs().place_of(id)],
        ) + a.lengths_in(s.rhs()),
{
    let c = subtree_on(s, right_side);
    lemma_node_parts(s);
    assert(s.leaf_ids() =~= s.lhs().leaf_ids().union(s.rhs().leaf_ids()));
    lemma_place(s, id, false);
    lemma_place(c, id, right_side);
    lemma_place(c, id, false);
    lemma_flags(c, false);
    lemma_flags(c, true);
    lemma_lengths_parts(a, s);
    lemma_lengths_parts(a, s.lhs());
    lemma_lengths_parts(a, s.rhs());
    if right_side {
        assert(!s.lhs().leaf_ids().contains(id));
        lemma_mended_right(
            a.lengths_in(s.lhs()),
            a.lengths_in(s.rhs()),
            c.place_of(id),
            c.right_flags(false)[c.place_of(id)],
        );
    } else {
        lemma_mended_left(
            a.lengths_in(s.lhs()),
            a.lengths_in(s.rhs()),
            c.place_of(id),
            c.right_flags(false)[c.place_of(id)],
        );
    }
}

impl DynamicBitVector {
    /// Mends the small leaf named by `leaf` with the help of its neighbour, and carries
    /// the change in height that this may bring up through the nodes `path[0..=k]`
    /// above the leaf. Returns by how much the height of the subtree of `path[k]`
    /// changed, and the leaf and node that left the tree.
    #[verifier::rlimit(40)]
    fn merge_path(
        &mut self,
        path: &Vec<usize>,
        k: usize,
        leaf: isize,
        Ghost(s): Ghost<Shape>,
        Ghost(gp): Ghost<Option<usize>>,
    ) -> (r: (i8, Option<(usize, usize)>, Ghost<Shape>))
        requires
            old(self).sized(),
            k < path@.len(),
            path@.take(k + 1) == s.path_to(leaf),
            leaf < 0,
            s.holds_ref(leaf),
            old(self).linked(s, gp),
            s.balanced(),
            s.distinct(),
            s.proper(),
            parent_outside(old(self), s, gp),
            old(self).leafs[-leaf].nums <= 16,
            old(self).bits_in(s).len() <= usize::MAX,
            gp is None ==> !(s.lhs() is Leaf && s.rhs() is Leaf),
        ensures
            old(self).shrunk(final(self), s, r.2@, gp, r.0 as int, r.1),
            final(self).bits_in(r.2@) == old(self).bits_in(s),
            final(self).lengths_in(r.2@) == mended(
                old(self).lengths_in(s),
                s.place_of(-leaf),
                s.right_flags(false)[s.place_of(-leaf)],
            ),
            r.2@ == old(self).merged_shape(s, leaf),
            r.1 == old(self).merged_gone(s, leaf),
        decreases k,
    {
        let ghost a = *self;
        let ghost c = s.toward(leaf);
        let cur = path[k];
        proof {
            lemma_linked_framed(&a, s, gp);
            lemma_path(&a, s, gp, leaf);
            assert(s.path_to(leaf).len() == k + 1);
            assert(s.path_to(leaf).last() == path@[k as int]);
            lemma_node_parts(s);
            lemma_child(&a, s, gp);
            lemma_child(&a, s.lhs(), Some(cur));
            lemma_child(&a, s.rhs(), Some(cur));
            lemma_children_differ(&a, s, gp);
            lemma_linked_framed(&a, c, Some(cur));
            lemma_path(&a, c, Some(cur), leaf);
            assert(s.node_ids().contains(s.idx()));
            assert(c.path_to(leaf) =~= path@.take(k as int));
            assert(forall|i: int| c.node_ids().contains(i) ==> s.node_ids().contains(i));
            assert(forall|i: int| c.leaf_ids().contains(i) ==> s.leaf_ids().contains(i));
            if k > 0 {
                assert(c.path_to(leaf).last() == path@[k - 1]);
            }
        }
        let below: isize = if k == 0 {
            leaf
        } else {
            path[k - 1] as isize
        };
        let right_side = match self.nodes[cur].right {
            Some(r) => r == below,
            None => false,
        };
        proof {
            lemma_place(s, -leaf, false);
            lemma_flags(s, false);
            lemma_flags(s.lhs(), false);
            lemma_flags(s.rhs(), true);
            lemma_lengths_parts(&a, s);
            lemma_lengths_parts(&a, s.lhs());
            lemma_lengths_parts(&a, s.rhs());
            if c is Leaf {
                assert(c.leaf_ids().contains(c.idx()));
            }
            crate::dynamic_vector::removal::lemma_merge_level(&a, s, leaf);
            assert(right_side == !s.lhs().holds_ref(leaf));
            assert((k == 0) == !(c is Node));
        }
        if k == 0 {
            proof {
                assert(c.leaf_ids() =~= Set::<int>::empty().insert(-leaf));
                assert(s.place_of(-leaf) == leaf_place(a.lengths_in(s), right_side));
            }
            self.merge_away_in(cur, right_side, Ghost(s), Ghost(gp))
        } else {
            let (d, gone, Ghost(c2)) = self.merge_path(
                path,
                k - 1,
                leaf,
                Ghost(c),
                Ghost(Some(cur)),
            );
            let ghost m = *self;
            let ghost s2 = with_subtree(s, right_side, c2);
            proof {
                assert((d == -1) == (c2.height() < c.height()));
            }
            if d == -1 {
                let mut n = self.nodes[cur];
                if right_side {
                    n.rank = n.rank - 1;
                } else {
                    n.rank = n.rank + 1;
                }
                self.nodes[cur] = n;
            }
            proof {
                lemma_proper_height(c2);
                lemma_node_parts(s2);
                lemma_child_changed(&a, &m, self, s, gp, right_side, c2);
            }
            let ghost f = *self;
            if d == -1 {
                proof {
                    lemma_height_before_shrink(s, right_side, c2);
                }
                let (d2, Ghost(s3)) = self.check_rebalance(cur, -1, Ghost(s2), Ghost(gp));
                proof {
                    lemma_shrunk_compose(&a, &f, self, s, right_side, c2, s3, gp, gone);
                    lemma_ids_in_range(&m, c2, Some(cur));
                    lemma_lengths_step(&a, &m, &f, self, s, gp, right_side, c2, s3);
                    lemma_merge_lifted(&a, s, right_side, -leaf);
                }
                (d2, gone, Ghost(s3))
            } else {
                proof {
                    assert(f.regrafted(&f, s2, s2, gp));
                    lemma_shrunk_compose(&a, &f, &f, s, right_side, c2, s2, gp, gone);
                    lemma_ids_in_range(&m, c2, Some(cur));
                    lemma_lengths_step(&a, &m, &f, &f, s, gp, right_side, c2, s2);
                    lemma_merge_lifted(&a, s, right_side, -leaf);
                }
                (0, gone, Ghost(s2))
            }
        }
    }

    /// Mends the leaf `leaf`, which holds at most 16 bits, with the help of the leaf
    /// next to it in the order of the bits: where that neighbour holds at most 48 bits
    /// it takes in the bits of `leaf`, which then leaves the tree and the arena together
    /// with its parent, and the tree is rebalanced; otherwise `leaf` takes 32 bits from
    /// the neighbour that follows it, or all but 32 from the one before it. A leaf
    /// without a neighbour stays as it is. The bits of the vector stay as they are.
    /// The tree that results is `merged_tree`.
    #[verifier::rlimit(40)]
    pub fn merge_away(&mut self, leaf: isize)
        requires
            old(self).wf(),
            leaf < 0,
            -leaf < old(self).leafs.len(),
            old(self).leafs[-leaf].nums <= 16,
        ensures
            final(self).wf(),
            final(self)@ == old(self)@,
            old(self).lengths().len() <= 1 ==> final(self).lengths() == old(self).lengths(),
            old(self).lengths().len() >= 2 ==> final(self).lengths() == mended(
                old(self).lengths(),
                old(self).shape().place_of(-leaf),
                old(self).shape().right_flags(false)[old(self).shape().place_of(-leaf)],
            ),
            final(self).leafs[0] == old(self).leafs[0],
            final(self).shape() == old(self).merged_tree(leaf),
    {
        let ghost a = *self;
        let ghost s = self.shape();
        let root = self.root;
        let n = self.nodes[root];
        proof {
            lemma_node_parts(s);
            lemma_child(&a, s, None);
            lemma_child(&a, s.lhs(), Some(root));
            lemma_child(&a, s.rhs(), Some(root));
            lemma_ids_in_range(&a, s, None);
            assert(s.leaf_ids().contains(-leaf));
            assert(s.leaf_ids() =~= s.lhs().leaf_ids().union(s.rhs().leaf_ids()));
            assert(Shape::Nil.leaf_ids() =~= Set::<int>::empty());
        }
        proof {
            lemma_lengths_parts(&a, s);
            lemma_lengths_parts(&a, s.lhs());
            lemma_lengths_parts(&a, s.rhs());
            if s.lhs().proper() {
                lemma_flags(s.lhs(), false);
            }
            if s.rhs().proper() {
                lemma_flags(s.rhs(), true);
            }
        }
        if n.left.is_none() || n.right.is_none() {
            proof {
                if s.lhs().proper() {
                    lemma_proper_height(s.lhs());
                }
                if s.rhs().proper() {
                    lemma_proper_height(s.rhs());
                }
            }
            return ;
        }
        let left = n.left.unwrap();
        let right = n.right.unwrap();
        if left < 0 && right < 0 {
            proof {
                assert(s.lhs().leaf_ids() =~= Set::<int>::empty().insert(s.lhs().idx()));
                assert(s.rhs().leaf_ids() =~= Set::<int>::empty().insert(s.rhs().idx()));
            }
            let right_side = right == leaf;
            let other = if right_side {
                left
            } else {
                right
            };
            proof {
                lemma_place(s, -leaf, false);
                crate::dynamic_vector::shape::lemma_extremes(s.lhs());
                crate::dynamic_vector::shape::lemma_extremes(s.rhs());
                let q = a.lengths_in(s);
                assert(q =~= seq![a.leafs[s.lhs().idx()].nums as nat, a.leafs[s.rhs().idx()].nums as nat]);
                assert(s.place_of(-leaf) == leaf_place(q, right_side));
                assert(s.right_flags(false)[s.place_of(-leaf)] == right_side);
            }
            if self.leafs[(-other) as usize].nums <= 48 {
                proof {
                    let q = a.lengths_in(s);
                    assert(mended(q, leaf_place(q, right_side), right_side) =~= seq![
                        (q[0] + q[1]) as nat,
                    ]);
                    assert(a.bits_in(s).len() == q[0] + q[1]);
                }
                self.merge_root_leaves(right_side, Ghost(s));
            } else {
                if right_side {
                    self.steal_from_previous(root, other, Ghost(s), Ghost(None));
                } else {
                    self.steal_from_next(root, other, Ghost(s), Ghost(None));
                }
                proof {
                    assert(self.tree_inv(s));
                    lemma_view(self, s);
                    crate::dynamic_vector::delete::lemma_mended_lengths(
                        &a,
                        self,
                        s,
                        right_side,
                        false,
                        s,
                    );
                }
            }
        } else {
            proof {
                lemma_linked_framed(&a, s, None);
                lemma_path(&a, s, None, leaf);
            }
            let path = self.ancestors(leaf, Ghost(s));
            proof {
                assert(path@.take(path@.len() as int) =~= path@);
            }
            let (_, gone, Ghost(s2)) = self.merge_path(
                &path,
                path.len() - 1,
                leaf,
                Ghost(s),
                Ghost(None),
            );
            proof {
                lemma_proper_height(s.lhs());
                lemma_proper_height(s.rhs());
                lemma_proper_height(s2);
                lemma_node_parts(s2);
                match gone {
                    Some(g) => {
                        assert(leaves_but(self, s2, g.0 as int));
                        assert(nodes_but(self, s2, g.1 as int));
                    },
                    None => {},
                }
            }
            self.finish_removal(gone, Ghost(s2));
        }
    }
}

} // verus!
