use vstd::prelude::*;
use crate::bits::count;
use crate::dynamic_vector::balance::{
    height_before, lemma_child_changed, lemma_children_differ, with_subtree,
};
use crate::dynamic_vector::grow::{lemma_fresh_node, lemma_leaf_changed};
use crate::dynamic_vector::layout::grown_with;
use crate::dynamic_vector::model::{
    lemma_child, lemma_frame, lemma_ids_in_range, lemma_view, parent_outside,
};
use crate::dynamic_vector::partition::{
    lemma_lengths_parts, lemma_lengths_step, lemma_order_ids, lemma_pushed_right, pushed,
};
use crate::dynamic_vector::shape::{lemma_node_parts, lemma_proper_height, Shape};
use crate::dynamic_vector::DynamicBitVector;
use crate::traits::{DynBitVec, StaticBitVec};

verus! {

/// After a subtree of a balanced node grew by one level, the height that
/// `height_before` computes from the node over its new subtrees is the height that the
/// node had.
pub proof fn lemma_height_before_growth(s: Shape, right_side: bool, c2: Shape)
    requires
        s is Node,
        s.balanced(),
        c2.height() == (if right_side {
            s.rhs()
        } else {
            s.lhs()
        }).height() + 1,
    ensures
        height_before(with_subtree(s, right_side, c2), 1) == s.height(),
        -2 <= with_subtree(s, right_side, c2).rhs().height() - with_subtree(
            s,
            right_side,
            c2,
        ).lhs().height() <= 2,
{
    lemma_node_parts(s);
    lemma_node_parts(with_subtree(s, right_side, c2));
}

impl DynamicBitVector {
    /// Appends `bit` to the leaf `leaf`, a child of the node `p`. A full leaf stays as
    /// it is: a new node takes its place, with the full leaf as its left child and a
    /// new leaf, which takes the bit, as its right child.
    fn push_leaf(&mut self, leaf: isize, bit: bool, Ghost(p): Ghost<usize>) -> (r: (
        bool,
        Ghost<Shape>,
    ))
        requires
            old(self).sized(),
            old(self).has_room(),
            leaf < 0,
            old(self).linked(Shape::Leaf { id: -leaf }, Some(p)),
            parent_outside(old(self), Shape::Leaf { id: -leaf }, Some(p)),
        ensures
            old(self).grown(final(self), Shape::Leaf { id: -leaf }, r.1@, Some(p), r.0),
            final(self).bits_in(r.1@) == old(self).bits_in(Shape::Leaf { id: -leaf }).push(bit),
            final(self).lengths_in(r.1@) == pushed(old(self).lengths_in(Shape::Leaf { id: -leaf })),
            r.1@ == old(self).leaf_took(Shape::Leaf { id: -leaf }),
    {
        let ghost a = *self;
        let ghost s = Shape::Leaf { id: -leaf };
        proof {
            lemma_child(&a, s, Some(p));
            lemma_lengths_parts(&a, s);
        }
        let li = (-leaf) as usize;
        let mut l = self.leafs[li];
        match l.push(bit) {
            Ok(()) => {
                self.leafs[li] = l;
                proof {
                    lemma_leaf_changed(&a, self, -leaf, p);
                    lemma_lengths_parts(self, s);
                    assert(self.leafs[-leaf].nums == a.leafs[-leaf].nums + 1);
                    assert(a.lengths_in(s).last() == a.leafs[-leaf].nums);
                    assert(self.lengths_in(s) =~= pushed(a.lengths_in(s)));
                }
                (false, Ghost(s))
            },
            Err(_) => {
                let new_node = self.insert_node_at_leaf(leaf);
                let leaf2 = self.create_right_leaf(new_node);
                let ki = (-leaf2) as usize;
                let mut l2 = self.leafs[ki];
                l2.push_unchecked(bit);
                self.leafs[ki] = l2;
                proof {
                    lemma_fresh_node(&a, self, -leaf, p);
                    assert(self.leafs[-leaf].bits() == a.leafs[-leaf].bits());
                    assert(self.leafs[ki as int].bits() =~= Seq::<bool>::empty().push(bit));
                    assert(a.leafs[-leaf].bits() + Seq::<bool>::empty().push(bit)
                        =~= a.leafs[-leaf].bits().push(bit));
                    let sk = Shape::Leaf { id: a.leafs.len() as int };
                    let s2 = Shape::node(a.nodes.len() as int, s, sk);
                    lemma_lengths_parts(self, s2);
                    lemma_lengths_parts(self, s);
                    lemma_lengths_parts(self, sk);
                    assert(self.lengths_in(s2) =~= pushed(a.lengths_in(s)));
                }
                (
                    true,
                    Ghost(
                        Shape::node(
                            a.nodes.len() as int,
                            Shape::Leaf { id: -leaf },
                            Shape::Leaf { id: a.leafs.len() as int },
                        ),
                    ),
                )
            },
        }
    }

    /// Appends `bit` behind the last bit under the node `node`, going down by right
    /// children and mending ranks and balance on the way back. Returns whether the
    /// subtree is now higher.
    #[verifier::rlimit(40)]
    fn push_node(&mut self, node: usize, bit: bool, Ghost(s): Ghost<Shape>, Ghost(gp): Ghost<
        Option<usize>,
    >) -> (r: (bool, Ghost<Shape>))
        requires
            old(self).sized(),
            old(self).has_room(),
            old(self).linked(s, gp),
            s.balanced(),
            s.distinct(),
            s.proper(),
            s is Node,
            s.idx() == node,
            parent_outside(old(self), s, gp),
            old(self).bits_in(s).len() < usize::MAX,
        ensures
            old(self).grown(final(self), s, r.1@, gp, r.0),
            final(self).bits_in(r.1@) == old(self).bits_in(s).push(bit),
            final(self).lengths_in(r.1@) == pushed(old(self).lengths_in(s)),
            r.1@ == old(self).push_shape(s),
        decreases s,
    {
        let ghost a = *self;
        let ghost c = s.rhs();
        proof {
            lemma_node_parts(s);
            lemma_child(&a, s, gp);
            lemma_child(&a, s.lhs(), Some(node));
            lemma_child(&a, c, Some(node));
            lemma_children_differ(&a, s, gp);
            assert(s.node_ids().contains(s.idx()));
        }
        let right = self.nodes[node].right.unwrap();
        let (grew, Ghost(c2)) = if right >= 0 {
            self.push_node(right as usize, bit, Ghost(c), Ghost(Some(node)))
        } else {
            self.push_leaf(right, bit, Ghost(node))
        };
        let ghost m = *self;
        let ghost s2 = with_subtree(s, true, c2);
        proof {
            if c is Leaf {
                assert(c == Shape::Leaf { id: -right });
            }
            assert(c2 == a.push_shape(c));
            assert(a.push_shape(s) == grown_with(s, true, c2));
            assert(grew == (c2.height() > c.height()));
            lemma_proper_height(c2);
            lemma_node_parts(s2);
            assert(a.bits_in(s.lhs()) + a.bits_in(c).push(bit) =~= (a.bits_in(s.lhs()) + a.bits_in(
                c,
            )).push(bit));
        }
        if grew {
            let mut n = self.nodes[node];
            n.rank = n.rank + 1;
            self.nodes[node] = n;
            proof {
                lemma_child_changed(&a, &m, self, s, gp, true, c2);
                lemma_height_before_growth(s, true, c2);
            }
            let ghost f = *self;
            let (d, Ghost(s3)) = self.check_rebalance(node, 1, Ghost(s2), Ghost(gp));
            proof {
                lemma_grown_compose(&a, &m, &f, self, s, s2, s3, gp);
                lemma_ids_in_range(&m, c2, Some(node));
                lemma_lengths_step(&a, &m, &f, self, s, gp, true, c2, s3);
                lemma_order_ids(c);
                lemma_pushed_right(a.lengths_in(s.lhs()), a.lengths_in(c));
            }
            (d == 1, Ghost(s3))
        } else {
            proof {
                lemma_child_changed(&a, &m, &m, s, gp, true, c2);
                lemma_grown_compose(&a, &m, &m, &m, s, s2, s2, gp);
                lemma_ids_in_range(&m, c2, Some(node));
                lemma_lengths_step(&a, &m, &m, &m, s, gp, true, c2, s2);
                lemma_order_ids(c);
                lemma_pushed_right(a.lengths_in(s.lhs()), a.lengths_in(c));
            }
            (false, Ghost(s2))
        }
    }
}

impl DynamicBitVector {
    /// What a vector needs to take one more bit: room for two more entries in each
    /// arena, and a length that the counters can still exceed.
    pub open spec fn can_grow(&self) -> bool {
        &&& self.nodes.len() + 2 <= isize::MAX
        &&& self.leafs.len() + 2 <= isize::MAX
        &&& self@.len() < usize::MAX
    }

    /// Appends `bit` where the root has no right child: a new leaf under the root
    /// takes it.
    pub(crate) fn push_right_of_root(&mut self, bit: bool, Ghost(s): Ghost<Shape>)
        requires
            old(self).tree_inv(s),
            old(self).has_room(),
            old(self).bits_in(s).len() < usize::MAX,
            old(self).nodes[old(self).root as int].right is None,
        ensures
            final(self).wf(),
            final(self)@ == old(self).bits_in(s).push(bit),
            final(self).lengths() == old(self).lengths_in(s).push(1),
            final(self).shape() == Shape::node(
                old(self).root as int,
                s.lhs(),
                Shape::Leaf { id: old(self).leafs.len() as int },
            ),
            final(self).leafs[0] == old(self).leafs[0],
    {
        let ghost a = *self;
        let root = self.root;
        proof {
            lemma_node_parts(s);
            lemma_child(&a, s, None);
            lemma_child(&a, s.lhs(), Some(root));
            lemma_child(&a, s.rhs(), Some(root));
            if s.lhs().proper() {
                lemma_proper_height(s.lhs());
            }
        }
        let leaf = self.create_right_leaf(root);
        let ki = (-leaf) as usize;
        let mut l = self.leafs[ki];
        l.push_unchecked(bit);
        self.leafs[ki] = l;
        proof {
            let sk = Shape::Leaf { id: ki as int };
            let s2 = Shape::node(root as int, s.lhs(), sk);
            assert(s.lhs().node_ids() =~= Set::<int>::empty());
            assert(s.rhs().node_ids() =~= Set::<int>::empty());
            assert(s.rhs().leaf_ids() =~= Set::<int>::empty());
            assert(sk.node_ids() =~= Set::<int>::empty());
            assert(sk.leaf_ids() =~= Set::<int>::empty().insert(ki as int));
            if s.lhs() is Leaf {
                assert(s.lhs().leaf_ids().contains(s.lhs().idx()));
            }
            assert(a.agrees(self, s.lhs()));
            lemma_frame(&a, self, s.lhs(), Some(root));
            assert(self.linked(sk, Some(root)));
            assert(self.bits_in(sk) =~= Seq::<bool>::empty().push(bit));
            assert(a.bits_in(s.rhs()) =~= Seq::<bool>::empty());
            assert(self.bits_in(s2) =~= a.bits_in(s).push(bit));
            assert(sk.height() == 1);
            assert(self.linked(s2, None));
            assert(s2.node_ids() =~= s.node_ids());
            assert(s.leaf_ids() =~= s.lhs().leaf_ids());
            assert(s2.leaf_ids() =~= s.lhs().leaf_ids().insert(ki as int));
            assert(sk.balanced() && sk.distinct() && sk.proper());
            assert(s2.balanced());
            assert(s2.distinct());
            assert(s2.rooted());
            assert(s2.leaf_ids() =~= Set::new(|i: int| 1 <= i < self.leafs.len()));
            assert(self.tree_inv(s2));
            lemma_view(self, s2);
            lemma_lengths_parts(&a, s);
            lemma_lengths_parts(&a, s.lhs());
            lemma_lengths_parts(&a, s.rhs());
            lemma_lengths_parts(self, s2);
            lemma_lengths_parts(self, s.lhs());
            lemma_lengths_parts(self, sk);
            assert(self.lengths_in(s2) =~= a.lengths_in(s).push(1));
        }
    }

    /// Appends `bit` where the only child of the root is a full leaf on its right: the
    /// leaf becomes the left child, and a new leaf on the right takes the bit.
    #[verifier::rlimit(40)]
    fn push_past_root_leaf(&mut self, bit: bool, Ghost(s): Ghost<Shape>)
        requires
            old(self).tree_inv(s),
            old(self).has_room(),
            old(self).bits_in(s).len() < usize::MAX,
            old(self).nodes[old(self).root as int].left is None,
            old(self).nodes[old(self).root as int].right is Some,
            old(self).bits_in(s).len() >= 64,
        ensures
            final(self).wf(),
            final(self)@ == old(self).bits_in(s).push(bit),
            final(self).lengths() == pushed(old(self).lengths_in(s)),
            final(self).shape() == Shape::node(
                old(self).root as int,
                s.rhs(),
                Shape::Leaf { id: old(self).leafs.len() as int },
            ),
            final(self).leafs[0] == old(self).leafs[0],
    {
        let ghost a = *self;
        let root = self.root;
        proof {
            lemma_node_parts(s);
            lemma_child(&a, s, None);
            lemma_child(&a, s.lhs(), Some(root));
            lemma_child(&a, s.rhs(), Some(root));
            lemma_proper_height(s.rhs());
            assert(a.bits_in(s.lhs()) =~= Seq::<bool>::empty());
            assert(a.bits_in(s) =~= a.bits_in(s.rhs()));
            assert(s.lhs().node_ids() =~= Set::<int>::empty());
            assert(s.lhs().leaf_ids() =~= Set::<int>::empty());
            assert(s.rhs().node_ids() =~= Set::<int>::empty());
            assert(s.rhs().leaf_ids() =~= Set::<int>::empty().insert(s.rhs().idx()));
            lemma_lengths_parts(&a, s);
            lemma_lengths_parts(&a, s.lhs());
            lemma_lengths_parts(&a, s.rhs());
            assert(a.lengths_in(s) =~= seq![a.leafs[s.rhs().idx()].nums as nat]);
        }
        let right = self.nodes[root].right.unwrap();
        let ri = (-right) as usize;
        self.move_right_child_left(root);
        let leaf = self.create_right_leaf(root);
        let ki = (-leaf) as usize;
        let mut l2 = self.leafs[ki];
        l2.push_unchecked(bit);
        self.leafs[ki] = l2;
        proof {
            let sr = s.rhs();
            let sk = Shape::Leaf { id: ki as int };
            let s2 = Shape::node(root as int, sr, sk);
            assert(sk.node_ids() =~= Set::<int>::empty());
            assert(sk.leaf_ids() =~= Set::<int>::empty().insert(ki as int));
            assert(self.linked(sr, Some(root)));
            assert(self.linked(sk, Some(root)));
            assert(self.bits_in(sr) == a.bits_in(sr));
            assert(self.bits_in(sk) =~= Seq::<bool>::empty().push(bit));
            assert(self.bits_in(s2) =~= a.bits_in(s).push(bit));
            assert(sk.height() == 1 && sr.height() == 1);
            let nr = self.nodes[root as int];
            crate::bits::lemma_count_bound(a.leafs[ri as int].bits(), true);
            assert(nr.parent == None::<usize>);
            assert(nr.left == sr.child_ref());
            assert(nr.right == sk.child_ref());
            assert(nr.rank == 0);
            assert(nr.nums == self.bits_in(sr).len());
            assert(nr.ones == count(self.bits_in(sr), true));
            assert(s2.lhs() == sr && s2.rhs() == sk);
            assert(self.linked(s2, None));
            assert(s2.node_ids() =~= s.node_ids());
            assert(s.leaf_ids() =~= sr.leaf_ids());
            assert(s2.leaf_ids() =~= sr.leaf_ids().insert(ki as int));
            assert(sk.balanced() && sk.distinct() && sk.proper());
            assert(s2.balanced());
            assert(s2.distinct());
            assert(s2.rooted());
            assert(s2.leaf_ids() =~= Set::new(|i: int| 1 <= i < self.leafs.len()));
            assert(self.tree_inv(s2));
            lemma_view(self, s2);
            lemma_lengths_parts(self, s2);
            lemma_lengths_parts(self, sr);
            lemma_lengths_parts(self, sk);
            assert(self.lengths_in(s2) =~= pushed(a.lengths_in(s)));
        }
    }

    /// Appends `bit` behind the last bit. The last leaf takes it; where there is no leaf,
    /// or the last leaf is full, a new leaf is made for it. The tree that results is
    /// `pushed_tree`; with the bits, the lengths of the leaves and the unused leaf slot
    /// it gives every node and leaf of the result.
    pub fn push(&mut self, bit: bool)
        requires
            old(self).wf(),
            old(self).can_grow(),
        ensures
            final(self).wf(),
            final(self)@ == old(self)@.push(bit),
            final(self).lengths() == pushed(old(self).lengths()),
            final(self).shape() == old(self).pushed_tree(),
            final(self).leafs[0] == old(self).leafs[0],
    {
        let ghost a = *self;
        let ghost s = self.shape();
        let root = self.root;
        let n = self.nodes[root];
        proof {
            lemma_node_parts(s);
            lemma_child(&a, s, None);
            lemma_child(&a, s.lhs(), Some(root));
            lemma_child(&a, s.rhs(), Some(root));
            lemma_lengths_parts(&a, s);
            lemma_lengths_parts(&a, s.lhs());
            lemma_lengths_parts(&a, s.rhs());
            if s.lhs().proper() {
                lemma_proper_height(s.lhs());
            }
            if s.rhs().proper() {
                lemma_proper_height(s.rhs());
            }
            assert(a.bits_in(Shape::Nil) =~= Seq::<bool>::empty());
        }
        if n.left.is_some() && n.right.is_some() {
            let (_, Ghost(s2)) = self.push_node(root, bit, Ghost(s), Ghost(None));
            proof {
                lemma_proper_height(s2);
                lemma_proper_height(s.lhs());
                lemma_node_parts(s2);
                assert(s2.node_ids() =~= Set::new(|i: int| 0 <= i < self.nodes.len()));
                assert(s2.leaf_ids() =~= Set::new(|i: int| 1 <= i < self.leafs.len()));
                assert(self.tree_inv(s2));
                lemma_view(self, s2);
            }
        } else if n.left.is_none() && n.right.is_none() {
            proof {
                assert(a.lengths_in(s) =~= Seq::<nat>::empty());
            }
            self.push_right_of_root(bit, Ghost(s));
        } else {
            let on_left = n.left.is_some();
            let leaf = if on_left {
                n.left.unwrap()
            } else {
                n.right.unwrap()
            };
            let used = self.leafs[(-leaf) as usize].nums;
            proof {
                assert(a.lengths_in(s) =~= seq![used as nat]);
                assert(a.bits_in(s) =~= a.leafs[-leaf].bits());
            }
            if used < 64 {
                proof {
                    assert(a.bits_in(s).insert(used as int, bit) =~= a.bits_in(s).push(bit));
                    assert(seq![(used + 1) as nat] =~= pushed(a.lengths_in(s)));
                }
                self.insert_root_leaf(used as usize, bit, Ghost(s));
            } else if on_left {
                self.push_right_of_root(bit, Ghost(s));
            } else {
                self.push_past_root_leaf(bit, Ghost(s));
            }
        }
    }
}

/// The chain of changes on the way back from a subtree that took in bits: the subtree
/// `c` of the node changed (`a` to `m`), the node got its new counters (`m` to `f`), and
/// the node was rebalanced where needed (`f` to `g`). What `grown` asks of the whole
/// follows from what each step gives.
pub proof fn lemma_grown_compose(
    a: &DynamicBitVector,
    m: &DynamicBitVector,
    f: &DynamicBitVector,
    g: &DynamicBitVector,
    s: Shape,
    s2: Shape,
    s3: Shape,
    gp: Option<usize>,
)
    requires
        a.sized(),
        s is Node,
        s2 is Node,
        s2.idx() == s.idx(),
        s.distinct(),
        a.linked(s, gp),
        parent_outside(a, s, gp),
        m.nodes.len() <= a.nodes.len() + 1,
        m.leafs.len() <= a.leafs.len() + 1,
        m.nodes.len() >= a.nodes.len(),
        m.leafs.len() >= a.leafs.len(),
        f.nodes.len() == m.nodes.len(),
        f.leafs.len() == m.leafs.len(),
        g.nodes.len() == m.nodes.len(),
        g.leafs.len() == m.leafs.len(),
        g.sized(),
        (s2.lhs() == s.lhs() && s2.rhs().node_ids() =~= s.rhs().node_ids().union(
            Set::new(|i: int| a.nodes.len() <= i < m.nodes.len()),
        ) && s2.rhs().leaf_ids() =~= s.rhs().leaf_ids().union(
            Set::new(|i: int| a.leafs.len() <= i < m.leafs.len()),
        )) || (s2.rhs() == s.rhs() && s2.lhs().node_ids() =~= s.lhs().node_ids().union(
            Set::new(|i: int| a.nodes.len() <= i < m.nodes.len()),
        ) && s2.lhs().leaf_ids() =~= s.lhs().leaf_ids().union(
            Set::new(|i: int| a.leafs.len() <= i < m.leafs.len()),
        )),
        a.same_outside(f, s, gp),
        a.regrafted(f, s, s2, gp),
        f.same_outside(g, s2, gp),
        f.regrafted(g, s2, s3, gp),
        s3.node_ids() == s2.node_ids(),
        s3.leaf_ids() == s2.leaf_ids(),
        g.linked(s3, gp),
        s3.balanced(),
        s3.distinct(),
        s3.proper(),
        parent_outside(g, s3, gp),
    ensures
        s3.node_ids() =~= s.node_ids().union(Set::new(|i: int| a.nodes.len() <= i < g.nodes.len())),
        s3.leaf_ids() =~= s.leaf_ids().union(Set::new(|i: int| a.leafs.len() <= i < g.leafs.len())),
        a.same_outside(g, s, gp),
        a.regrafted(g, s, s3, gp),
        forall|grew: bool|
            s3.height() == s.height() + (if grew {
                1int
            } else {
                0int
            }) ==> #[trigger] a.grown(g, s, s3, gp, grew),
{
    lemma_ids_in_range(a, s, gp);
    assert(s.node_ids() =~= s.lhs().node_ids().union(s.rhs().node_ids()).insert(s.idx()));
    assert(s2.node_ids() =~= s2.lhs().node_ids().union(s2.rhs().node_ids()).insert(s2.idx()));
    assert(s.leaf_ids() =~= s.lhs().leaf_ids().union(s.rhs().leaf_ids()));
    assert(s2.leaf_ids() =~= s2.lhs().leaf_ids().union(s2.rhs().leaf_ids()));
    assert(s3.node_ids() =~= s.node_ids().union(
        Set::new(|i: int| a.nodes.len() <= i < g.nodes.len()),
    ));
    assert(s3.leaf_ids() =~= s.leaf_ids().union(
        Set::new(|i: int| a.leafs.len() <= i < g.leafs.len()),
    ));
    assert(a.same_outside(g, s, gp));
    assert(a.regrafted(g, s, s3, gp));
}

} // verus!
