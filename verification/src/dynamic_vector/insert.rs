use vstd::prelude::*;
use crate::bits::{lemma_count_bound, lemma_count_insert};
use crate::dynamic_vector::balance::{
    lemma_child_changed, lemma_children_differ, subtree_on, with_subtree,
};
use crate::dynamic_vector::grow::{lemma_fresh_node, lemma_leaf_changed};
use crate::dynamic_vector::model::{lemma_child, lemma_view, parent_outside};
use crate::dynamic_vector::partition::{
    inserted, leaf_index, lemma_inserted_left, lemma_inserted_right,
    lemma_lengths_parts, lemma_lengths_step, lemma_lengths_total, lemma_order_ids, lemma_total_one,
    total,
};
use crate::dynamic_vector::push::{lemma_grown_compose, lemma_height_before_growth};
use crate::dynamic_vector::model::lemma_ids_in_range;
use crate::dynamic_vector::shape::{lemma_node_parts, lemma_proper_height, Shape};
use crate::dynamic_vector::DynamicBitVector;
use crate::error::BitVecError;
use crate::leaf::Leaf;
use crate::node::Node;
use crate::traits::{DynBitVec, StaticBitVec};

verus! {

/// The lengths under a node after an insertion into one of its subtrees, and the
/// rebalancing that may follow, are what the insertion makes of the lengths under the
/// node.
proof fn lemma_insert_lengths(
    a: &DynamicBitVector,
    m: &DynamicBitVector,
    f: &DynamicBitVector,
    g: &DynamicBitVector,
    s: Shape,
    gp: Option<usize>,
    right_side: bool,
    c2: Shape,
    s3: Shape,
    index: int,
)
    requires
        a.sized(),
        m.sized(),
        a.linked(s, gp),
        s is Node,
        s.distinct(),
        s.proper(),
        m.linked(c2, Some(s.idx() as usize)),
        a.same_outside(m, subtree_on(s, right_side), Some(s.idx() as usize)),
        f.leafs@ == m.leafs@,
        f.same_contents(g),
        s3.leaf_order() == with_subtree(s, right_side, c2).leaf_order(),
        right_side == (a.bits_in(s.lhs()).len() <= index),
        0 <= index,
        m.lengths_in(c2) == inserted(
            a.lengths_in(subtree_on(s, right_side)),
            if right_side {
                index - a.bits_in(s.lhs()).len()
            } else {
                index
            },
        ),
    ensures
        g.lengths_in(s3) == inserted(a.lengths_in(s), index),
{
    let x = s.idx() as usize;
    lemma_node_parts(s);
    lemma_child(a, s, gp);
    lemma_ids_in_range(m, c2, Some(x));
    lemma_lengths_step(a, m, f, g, s, gp, right_side, c2, s3);
    lemma_lengths_total(a, s.lhs(), Some(x));
    lemma_order_ids(s.lhs());
    lemma_order_ids(s.rhs());
    lemma_lengths_parts(a, s.lhs());
    lemma_lengths_parts(a, s.rhs());
    if right_side {
        lemma_inserted_right(a.lengths_in(s.lhs()), a.lengths_in(s.rhs()), index);
    } else {
        lemma_inserted_left(a.lengths_in(s.lhs()), a.lengths_in(s.rhs()), index);
    }
}

impl DynamicBitVector {
    /// Puts a new node in the place of the leaf `leaf`, which holds at least 32 bits:
    /// the leaf keeps its first 32 bits and becomes the left child of the node, and a
    /// new leaf takes the other bits and becomes the right child. Returns the index of
    /// the new node. The ranks above the new node are left as they were.
    pub(crate) fn divide_leaf(&mut self, leaf: isize) -> (new_node: usize)
        requires
            old(self).sized(),
            old(self).has_room(),
            leaf < 0,
            -leaf < old(self).leafs.len(),
            old(self).leafs[-leaf].wf(),
            old(self).leafs[-leaf].nums >= 32,
            old(self).leafs[-leaf].parent < old(self).nodes.len(),
            old(self).nodes[old(self).leafs[-leaf].parent as int].has_child(leaf),
        ensures
            new_node == old(self).nodes.len(),
            old(self).divides_leaf(final(self), -leaf),
    {
        let ghost a = *self;
        let new_node = self.insert_node_at_leaf(leaf);
        let li = (-leaf) as usize;
        let mut l = self.leafs[li];
        let rest: u8 = l.nums - 32;
        let values = l.split_to_right();
        self.leafs[li] = l;
        let leaf_id = self.create_right_leaf(new_node);
        let ki = (-leaf_id) as usize;
        self.leafs[ki] = Leaf::create(new_node, values, rest);
        let mut n = self.nodes[new_node];
        n.nums = l.nums();
        n.ones = l.ones();
        self.nodes[new_node] = n;
        proof {
            lemma_count_bound(a.leafs[-leaf].bits().take(32), true);
            assert(a.divides_leaf(self, -leaf));
        }
        new_node
    }

    /// Inserts `bit` at position `index` of the leaf `leaf`, a child of the node `p`.
    /// A full leaf is split first, and the bit goes into the half that holds the
    /// position.
    fn insert_leaf(&mut self, leaf: isize, index: usize, bit: bool, Ghost(p): Ghost<usize>) -> (r:
        (bool, Ghost<Shape>))
        requires
            old(self).sized(),
            old(self).has_room(),
            leaf < 0,
            old(self).linked(Shape::Leaf { id: -leaf }, Some(p)),
            parent_outside(old(self), Shape::Leaf { id: -leaf }, Some(p)),
            index <= old(self).leafs[-leaf].nums,
        ensures
            old(self).grown(final(self), Shape::Leaf { id: -leaf }, r.1@, Some(p), r.0),
            final(self).bits_in(r.1@) == old(self).bits_in(Shape::Leaf { id: -leaf }).insert(
                index as int,
                bit,
            ),
            final(self).lengths_in(r.1@) == inserted(
                old(self).lengths_in(Shape::Leaf { id: -leaf }),
                index as int,
            ),
            r.1@ == old(self).leaf_took(Shape::Leaf { id: -leaf }),
    {
        let ghost a = *self;
        let ghost s = Shape::Leaf { id: -leaf };
        proof {
            lemma_child(&a, s, Some(p));
            lemma_lengths_parts(&a, s);
            let p0 = a.lengths_in(s);
            assert(p0.take(0) =~= Seq::<nat>::empty());
            assert(total(Seq::<nat>::empty()) == 0);
            assert(p0.skip(1) =~= Seq::<nat>::empty());
        }
        let li = (-leaf) as usize;
        if self.leafs[li].nums < 64 {
            let mut l = self.leafs[li];
            l.insert_unchecked(index, bit);
            self.leafs[li] = l;
            proof {
                lemma_leaf_changed(&a, self, -leaf, p);
                lemma_lengths_parts(self, s);
                assert(self.lengths_in(s) =~= inserted(a.lengths_in(s), index as int));
            }
            (false, Ghost(s))
        } else {
            let new_node = self.divide_leaf(leaf);
            let ki = self.leafs.len() - 1;
            let ghost old_bits = a.leafs[-leaf].bits();
            if index < 32 {
                let mut l = self.leafs[li];
                l.insert_unchecked(index, bit);
                self.leafs[li] = l;
                let mut n = self.nodes[new_node];
                n.nums = l.nums();
                n.ones = l.ones();
                self.nodes[new_node] = n;
                proof {
                    assert(old_bits.take(32).insert(index as int, bit) + old_bits.skip(32)
                        =~= old_bits.insert(index as int, bit));
                }
            } else {
                let mut l = self.leafs[ki];
                l.insert_unchecked(index - 32, bit);
                self.leafs[ki] = l;
                proof {
                    assert(old_bits.take(32) + old_bits.skip(32).insert(index - 32, bit)
                        =~= old_bits.insert(index as int, bit));
                }
            }
            proof {
                lemma_count_bound(self.leafs[-leaf].bits(), true);
                lemma_fresh_node(&a, self, -leaf, p);
                let sk = Shape::Leaf { id: a.leafs.len() as int };
                let s2 = Shape::node(a.nodes.len() as int, s, sk);
                lemma_lengths_parts(self, s2);
                lemma_lengths_parts(self, s);
                lemma_lengths_parts(self, sk);
                let p0 = a.lengths_in(s);
                assert(Seq::<nat>::empty() + seq![33nat, 32nat] + Seq::<nat>::empty() =~= seq![
                    33nat,
                    32nat,
                ]);
                assert(Seq::<nat>::empty() + seq![32nat, 33nat] + Seq::<nat>::empty() =~= seq![
                    32nat,
                    33nat,
                ]);
                assert(self.lengths_in(s2) =~= inserted(p0, index as int));
            }
            (
                true,
                Ghost(
                    Shape::node(
                        a.nodes.len() as int,
                        Shape::Leaf { id: -leaf },
                        Shape::Leaf { id: a.leafs.len() as int },
                    ),
                ),
            )
        }
    }

    /// Inserts `bit` at position `index` under the node `node`: goes down to the leaf
    /// that holds the position, counts the new bit at every node that it leaves to the
    /// left, and mends ranks and balance on the way back. Returns whether the subtree
    /// is now higher.
    #[verifier::rlimit(40)]
    fn insert_node(
        &mut self,
        node: usize,
        index: usize,
        bit: bool,
        Ghost(s): Ghost<Shape>,
        Ghost(gp): Ghost<Option<usize>>,
    ) -> (r: (bool, Ghost<Shape>))
        requires
            old(self).sized(),
            old(self).has_room(),
            old(self).linked(s, gp),
            s.balanced(),
            s.distinct(),
            s.proper(),
            s is Node,
            s.idx() == node,
            parent_outside(old(self), s, gp),
            old(self).bits_in(s).len() < usize::MAX,
            index <= old(self).bits_in(s).len(),
        ensures
            old(self).grown(final(self), s, r.1@, gp, r.0),
            final(self).bits_in(r.1@) == old(self).bits_in(s).insert(index as int, bit),
            final(self).lengths_in(r.1@) == inserted(old(self).lengths_in(s), index as int),
            r.1@ == old(self).insert_shape(s, index as int),
        decreases s,
    {
        let ghost a = *self;
        proof {
            lemma_node_parts(s);
            lemma_child(&a, s, gp);
            lemma_child(&a, s.lhs(), Some(node));
            lemma_child(&a, s.rhs(), Some(node));
            lemma_children_differ(&a, s, gp);
            lemma_count_bound(a.bits_in(s.lhs()), true);
            assert(s.node_ids().contains(s.idx()));
        }
        let n0 = self.nodes[node];
        let right_side = n0.nums <= index;
        let ghost c = subtree_on(s, right_side);
        let (grew, Ghost(c2)) = if right_side {
            let right = n0.right.unwrap();
            if right >= 0 {
                self.insert_node(right as usize, index - n0.nums, bit, Ghost(c), Ghost(Some(node)))
            } else {
                self.insert_leaf(right, index - n0.nums, bit, Ghost(node))
            }
        } else {
            let left = n0.left.unwrap();
            if left >= 0 {
                self.insert_node(left as usize, index, bit, Ghost(c), Ghost(Some(node)))
            } else {
                self.insert_leaf(left, index, bit, Ghost(node))
            }
        };
        let ghost m = *self;
        let ghost s2 = with_subtree(s, right_side, c2);
        proof {
            if c is Leaf {
                assert(c == Shape::Leaf { id: c.idx() });
            }
            crate::dynamic_vector::layout::lemma_insert_level(&a, s, index as int);
            assert(c2 == a.insert_shape(c, if right_side {
                index - n0.nums
            } else {
                index as int
            }));
            assert(grew == (c2.height() > c.height()));
            lemma_proper_height(c2);
            lemma_node_parts(s2);
            let l = a.bits_in(s.lhs());
            let r = a.bits_in(s.rhs());
            if right_side {
                assert(l + r.insert(index - l.len(), bit) =~= (l + r).insert(index as int, bit));
            } else {
                assert(l.insert(index as int, bit) + r =~= (l + r).insert(index as int, bit));
                lemma_count_insert(l, index as int, bit, true);
                lemma_count_bound(l.insert(index as int, bit), true);
            }
        }
        let mut n = self.nodes[node];
        if !right_side {
            n.nums = n.nums + 1;
            if bit {
                n.ones = n.ones + 1;
            }
        }
        if grew {
            if right_side {
                n.rank = n.rank + 1;
            } else {
                n.rank = n.rank - 1;
            }
        }
        self.nodes[node] = n;
        proof {
            lemma_child_changed(&a, &m, self, s, gp, right_side, c2);
        }
        if grew {
            proof {
                lemma_height_before_growth(s, right_side, c2);
            }
            let ghost f = *self;
            let (d, Ghost(s3)) = self.check_rebalance(node, 1, Ghost(s2), Ghost(gp));
            proof {
                lemma_grown_compose(&a, &m, &f, self, s, s2, s3, gp);
                lemma_insert_lengths(&a, &m, &f, self, s, gp, right_side, c2, s3, index as int);
            }
            (d == 1, Ghost(s3))
        } else {
            proof {
                let f = *self;
                assert(f.regrafted(&f, s2, s2, gp));
                lemma_grown_compose(&a, &m, &f, &f, s, s2, s2, gp);
                lemma_insert_lengths(&a, &m, &f, &f, s, gp, right_side, c2, s2, index as int);
            }
            (false, Ghost(s2))
        }
    }

    /// Inserts `bit` at position `index` where the only child of the root is a leaf
    /// that is not full.
    pub(crate) fn insert_root_leaf(&mut self, index: usize, bit: bool, Ghost(s): Ghost<Shape>)
        requires
            old(self).tree_inv(s),
            index <= old(self).bits_in(s).len(),
            old(self).bits_in(s).len() < 64,
            old(self).nodes[old(self).root as int].left is None != old(self).nodes[old(
                self,
            ).root as int].right is None,
        ensures
            final(self).wf(),
            final(self)@ == old(self).bits_in(s).insert(index as int, bit),
            final(self).lengths() == seq![(old(self).bits_in(s).len() + 1) as nat],
            final(self).shape() == s,
            final(self).leafs[0] == old(self).leafs[0],
    {
        let ghost a = *self;
        let root = self.root;
        proof {
            lemma_node_parts(s);
            lemma_child(&a, s, None);
            lemma_child(&a, s.lhs(), Some(root));
            lemma_child(&a, s.rhs(), Some(root));
            if s.lhs().proper() {
                lemma_proper_height(s.lhs());
            }
            if s.rhs().proper() {
                lemma_proper_height(s.rhs());
            }
            assert(a.bits_in(Shape::Nil) =~= Seq::<bool>::empty());
            assert(Shape::Nil.leaf_ids() =~= Set::<int>::empty());
            assert(Shape::Nil.node_ids() =~= Set::<int>::empty());
        }
        let mut n = self.nodes[root];
        let on_left = n.left.is_some();
        let leaf = if on_left {
            n.left.unwrap()
        } else {
            n.right.unwrap()
        };
        let li = (-leaf) as usize;
        let mut l = self.leafs[li];
        let ghost old_bits = l.bits();
        proof {
            assert(a.bits_in(s) =~= old_bits);
        }
        l.insert_unchecked(index, bit);
        self.leafs[li] = l;
        if on_left {
            n.nums = l.nums();
            n.ones = l.ones();
            self.nodes[root] = n;
        }
        proof {
            let sl = Shape::Leaf { id: li as int };
            lemma_count_bound(l.bits(), true);
            assert(self.linked(sl, Some(root)));
            assert(self.linked(Shape::Nil, Some(root)));
            assert(self.bits_in(sl) == old_bits.insert(index as int, bit));
            assert(self.bits_in(Shape::Nil) =~= Seq::<bool>::empty());
            if on_left {
                assert(s.lhs() == sl && s.rhs() == Shape::Nil);
            } else {
                assert(s.rhs() == sl && s.lhs() == Shape::Nil);
            }
            assert(self.bits_in(s) == self.bits_in(s.lhs()) + self.bits_in(s.rhs()));
            assert(self.bits_in(s) =~= old_bits.insert(index as int, bit));
            assert(self.linked(s, None));
            assert(self.tree_inv(s));
            lemma_view(self, s);
            crate::dynamic_vector::partition::lemma_lengths_parts(self, s);
            crate::dynamic_vector::partition::lemma_lengths_parts(self, s.lhs());
            crate::dynamic_vector::partition::lemma_lengths_parts(self, s.rhs());
            assert(self.lengths_in(s) =~= seq![(a.bits_in(s).len() + 1) as nat]);
        }
    }

    /// Divides the full leaf that is the only child of the root: the leaf becomes the
    /// left child and keeps its first 32 bits, and a new leaf becomes the right child
    /// and takes the others.
    #[verifier::rlimit(40)]
    fn split_root_leaf(&mut self, Ghost(s): Ghost<Shape>) -> (r: Ghost<Shape>)
        requires
            old(self).tree_inv(s),
            old(self).has_room(),
            old(self).bits_in(s).len() >= 32,
            old(self).nodes[old(self).root as int].left is None != old(self).nodes[old(
                self,
            ).root as int].right is None,
        ensures
            final(self).tree_inv(r@),
            r@.proper(),
            final(self).bits_in(r@) == old(self).bits_in(s),
            final(self).lengths_in(r@) == seq![32nat, (old(self).bits_in(s).len() - 32) as nat],
            final(self).nodes.len() == old(self).nodes.len(),
            final(self).leafs.len() == old(self).leafs.len() + 1,
            final(self).root == old(self).root,
            r@ == Shape::node(old(self).root as int, if s.lhs() is Nil {
                s.rhs()
            } else {
                s.lhs()
            }, Shape::Leaf { id: old(self).leafs.len() as int }),
            final(self).leafs[r@.lhs().idx()].nums == 32,
            final(self).leafs[r@.rhs().idx()].nums <= 32,
            final(self).leafs[0] == old(self).leafs[0],
    {
        let ghost a = *self;
        let root = self.root;
        proof {
            lemma_node_parts(s);
            lemma_child(&a, s, None);
            lemma_child(&a, s.lhs(), Some(root));
            lemma_child(&a, s.rhs(), Some(root));
            if s.lhs().proper() {
                lemma_proper_height(s.lhs());
            }
            if s.rhs().proper() {
                lemma_proper_height(s.rhs());
            }
            assert(a.bits_in(Shape::Nil) =~= Seq::<bool>::empty());
            assert(Shape::Nil.leaf_ids() =~= Set::<int>::empty());
            assert(Shape::Nil.node_ids() =~= Set::<int>::empty());
        }
        if self.nodes[root].left.is_none() {
            self.move_right_child_left(root);
        }
        let leaf = self.nodes[root].left.unwrap();
        let li = (-leaf) as usize;
        let mut l = self.leafs[li];
        let ghost old_bits = l.bits();
        proof {
            assert(a.bits_in(s) =~= old_bits);
        }
        let rest: u8 = l.nums - 32;
        let values = l.split_to_right();
        self.leafs[li] = l;
        let leaf_id = self.create_right_leaf(root);
        let ki = (-leaf_id) as usize;
        self.leafs[ki] = Leaf::create(root, values, rest);
        let mut n = self.nodes[root];
        n.nums = l.nums();
        n.ones = l.ones();
        self.nodes[root] = n;
        let ghost sl = Shape::Leaf { id: li as int };
        let ghost sk = Shape::Leaf { id: ki as int };
        let ghost s2 = Shape::node(root as int, sl, sk);
        proof {
            lemma_count_bound(l.bits(), true);
            assert(sl.node_ids() =~= Set::<int>::empty());
            assert(sk.node_ids() =~= Set::<int>::empty());
            assert(sl.leaf_ids() =~= Set::<int>::empty().insert(li as int));
            assert(sk.leaf_ids() =~= Set::<int>::empty().insert(ki as int));
            assert(self.linked(sl, Some(root)));
            assert(self.linked(sk, Some(root)));
            assert(self.bits_in(sl) == old_bits.take(32));
            assert(self.bits_in(sk) == old_bits.skip(32));
            assert(self.bits_in(s2) == self.bits_in(sl) + self.bits_in(sk));
            assert(old_bits.take(32) + old_bits.skip(32) =~= old_bits);
            assert(sl.height() == 1 && sk.height() == 1);
            let nr = self.nodes[root as int];
            assert(nr.parent == None::<usize>);
            assert(nr.left == sl.child_ref());
            assert(nr.right == sk.child_ref());
            assert(nr.rank == 0);
            assert(s2.lhs() == sl && s2.rhs() == sk);
            assert(self.linked(s2, None));
            assert(s2.node_ids() =~= s.node_ids());
            assert(s.leaf_ids() =~= sl.leaf_ids());
            assert(s2.leaf_ids() =~= sl.leaf_ids().insert(ki as int));
            assert(sl.balanced() && sl.distinct() && sl.proper());
            assert(sk.balanced() && sk.distinct() && sk.proper());
            assert(s2.balanced());
            assert(s2.distinct());
            assert(s2.proper());
            assert(s2.rooted());
            assert(s2.leaf_ids() =~= Set::new(|i: int| 1 <= i < self.leafs.len()));
            assert(self.tree_inv(s2));
            lemma_lengths_parts(self, s2);
            lemma_lengths_parts(self, sl);
            lemma_lengths_parts(self, sk);
            assert(self.lengths_in(s2) =~= seq![32nat, (a.bits_in(s).len() - 32) as nat]);
        }
        Ghost(s2)
    }

    /// Inserts `bit` at position `index` into a tree whose root has both children.
    fn insert_proper(&mut self, index: usize, bit: bool, Ghost(s): Ghost<Shape>)
        requires
            old(self).tree_inv(s),
            s.proper(),
            old(self).has_room(),
            index <= old(self).bits_in(s).len(),
            old(self).bits_in(s).len() < usize::MAX,
        ensures
            final(self).wf(),
            final(self)@ == old(self).bits_in(s).insert(index as int, bit),
            final(self).lengths() == inserted(old(self).lengths_in(s), index as int),
            final(self).shape() == old(self).insert_shape(s, index as int),
            final(self).leafs[0] == old(self).leafs[0],
    {
        let ghost a = *self;
        let root = self.root;
        let (_, Ghost(s2)) = self.insert_node(root, index, bit, Ghost(s), Ghost(None));
        proof {
            lemma_node_parts(s);
            lemma_proper_height(s2);
            lemma_proper_height(s.lhs());
            lemma_node_parts(s2);
            assert(s2.node_ids() =~= Set::new(|i: int| 0 <= i < self.nodes.len()));
            assert(s2.leaf_ids() =~= Set::new(|i: int| 1 <= i < self.leafs.len()));
            assert(self.tree_inv(s2));
            lemma_view(self, s2);
        }
    }

    /// Inserts `bit` at position `index`; the bits from `index` on move up by one. The
    /// leaf that the way down to `index` ends in takes the bit; where it is full, it is
    /// divided into two leaves of 32 bits first. Fails with `OutOfBounds`, and changes
    /// nothing, where `index` is beyond the length. The tree that results is
    /// `inserted_tree`; with the bits, the lengths of the leaves and the unused leaf
    /// slot it gives every node and leaf of the result.
    #[verifier::rlimit(40)]
    pub fn insert(&mut self, index: usize, bit: bool) -> (r: Result<(), BitVecError>)
        requires
            old(self).wf(),
            old(self).can_grow(),
        ensures
            index <= old(self)@.len() ==> r is Ok && final(self).wf() && final(self)@ == old(
                self,
            )@.insert(index as int, bit) && final(self).lengths() == inserted(
                old(self).lengths(),
                index as int,
            ),
            index <= old(self)@.len() ==> final(self).shape() == old(self).inserted_tree(index as int),
            final(self).leafs[0] == old(self).leafs[0],
            index > old(self)@.len() ==> r == Err::<(), BitVecError>(BitVecError::OutOfBounds)
                && *final(self) == *old(self),
    {
        let ghost a = *self;
        let ghost s = self.shape();
        if index > self.len() {
            return Err(BitVecError::OutOfBounds);
        }
        let root = self.root;
        let n = self.nodes[root];
        proof {
            lemma_node_parts(s);
            lemma_child(&a, s, None);
            lemma_child(&a, s.lhs(), Some(root));
            lemma_child(&a, s.rhs(), Some(root));
            lemma_lengths_parts(&a, s);
            lemma_lengths_parts(&a, s.lhs());
            lemma_lengths_parts(&a, s.rhs());
            if s.lhs().proper() {
                lemma_proper_height(s.lhs());
            }
            if s.rhs().proper() {
                lemma_proper_height(s.rhs());
            }
            assert(a.bits_in(Shape::Nil) =~= Seq::<bool>::empty());
            assert(total(Seq::<nat>::empty()) == 0);
        }
        if n.left.is_some() && n.right.is_some() {
            self.insert_proper(index, bit, Ghost(s));
        } else if n.left.is_none() && n.right.is_none() {
            proof {
                assert(a.bits_in(s).insert(index as int, bit) =~= a.bits_in(s).push(bit));
                assert(a.lengths_in(s) =~= Seq::<nat>::empty());
                assert(Seq::<nat>::empty().push(1nat) =~= seq![1nat]);
                assert(a.grown_root() == Shape::node(
                    a.root as int,
                    s.lhs(),
                    Shape::Leaf { id: a.leafs.len() as int },
                ));
            }
            self.push_right_of_root(bit, Ghost(s));
        } else {
            let leaf = if n.left.is_some() {
                n.left.unwrap()
            } else {
                n.right.unwrap()
            };
            let used = self.leafs[(-leaf) as usize].nums;
            proof {
                let p0 = a.lengths_in(s);
                assert(p0 =~= seq![used as nat]);
                assert(a.bits_in(s) =~= a.leafs[-leaf].bits());
                assert(p0.take(0) =~= Seq::<nat>::empty());
                assert(p0.skip(1) =~= Seq::<nat>::empty());
                assert(Seq::<nat>::empty() + seq![33nat, 32nat] + Seq::<nat>::empty() =~= seq![
                    33nat,
                    32nat,
                ]);
                assert(Seq::<nat>::empty() + seq![32nat, 33nat] + Seq::<nat>::empty() =~= seq![
                    32nat,
                    33nat,
                ]);
            }
            if used >= 64 {
                let Ghost(s2) = self.split_root_leaf(Ghost(s));
                proof {
                    let q = seq![32nat, 32nat];
                    assert(q.skip(1) =~= seq![32nat]);
                    assert(q.take(0) =~= Seq::<nat>::empty());
                    assert(q.take(1) =~= seq![32nat]);
                    lemma_total_one(32);
                    assert(q.update(0, 33nat) =~= seq![33nat, 32nat]);
                    assert(q.update(1, 33nat) =~= seq![32nat, 33nat]);
                    let p0 = a.lengths_in(s);
                    assert(leaf_index(p0, index as int) == 0);
                    assert(leaf_index(seq![32nat], index - 32) == 0);
                    if index < 32 {
                        assert(leaf_index(q, index as int) == 0);
                        assert(inserted(q, index as int) == seq![33nat, 32nat]);
                        assert(inserted(p0, index as int) == seq![33nat, 32nat]);
                    } else {
                        assert(leaf_index(q, index as int) == 1);
                        assert(inserted(q, index as int) == seq![32nat, 33nat]);
                        assert(inserted(p0, index as int) == seq![32nat, 33nat]);
                    }
                    assert(inserted(q, index as int) == inserted(a.lengths_in(s), index as int));
                }
                let ghost m = *self;
                self.insert_proper(index, bit, Ghost(s2));
                proof {
                    crate::dynamic_vector::layout::lemma_insert_level(&m, s2, index as int);
                    assert(m.leaf_took(s2.lhs()) == s2.lhs());
                    assert(m.leaf_took(s2.rhs()) == s2.rhs());
                    assert(m.insert_shape(s2, index as int) == s2);
                    assert(a.grown_root() == s2);
                }
            } else {
                proof {
                    assert(seq![(used + 1) as nat] =~= inserted(a.lengths_in(s), index as int));
                    assert(a.grown_root() == s);
                }
                self.insert_root_leaf(index, bit, Ghost(s));
            }
        }
        Ok(())
    }
}

} // verus!
