use vstd::prelude::*;
use crate::bits::{count, lemma_count_bound, lemma_count_update};
use crate::dynamic_vector::balance::{lemma_child_changed, lemma_children_differ, subtree_on};
use crate::dynamic_vector::model::{lemma_child, lemma_ids_in_range, lemma_view, parent_outside};
use crate::dynamic_vector::shape::Shape;
use crate::dynamic_vector::DynamicBitVector;
use crate::error::BitVecError;
use crate::traits::{DynBitVec, StaticBitVec};

verus! {

impl DynamicBitVector {
    /// `new` has the nodes and leaves of this vector, with the same links, lengths and
    /// ranks: only bits in leaves and counts of one-bits in nodes may differ.
    pub open spec fn same_structure(&self, new: &DynamicBitVector) -> bool {
        &&& new.root == self.root
        &&& new.nodes.len() == self.nodes.len()
        &&& new.leafs.len() == self.leafs.len()
        &&& forall|i: int|
            0 <= i < self.nodes.len() ==> (#[trigger] new.nodes[i]).parent == self.nodes[i].parent
                && new.nodes[i].left == self.nodes[i].left && new.nodes[i].right
                == self.nodes[i].right && new.nodes[i].nums == self.nodes[i].nums
                && new.nodes[i].rank == self.nodes[i].rank
        &&& forall|i: int|
            0 <= i < self.leafs.len() ==> (#[trigger] new.leafs[i]).parent == self.leafs[i].parent
                && new.leafs[i].nums == self.leafs[i].nums
    }

    /// `new` differs from this vector at most in the nodes and leaves of the tree `s`.
    pub open spec fn same_but(&self, new: &DynamicBitVector, s: Shape) -> bool {
        &&& forall|i: int|
            0 <= i < self.nodes.len() && !s.node_ids().contains(i) ==> #[trigger] new.nodes[i]
                == self.nodes[i]
        &&& forall|i: int|
            0 <= i < self.leafs.len() && !s.leaf_ids().contains(i) ==> #[trigger] new.leafs[i]
                == self.leafs[i]
    }

    /// Inverts the bit at position `index` of the leaf `leaf` and returns its new value.
    #[inline]
    fn flip_leaf(&mut self, leaf: isize, index: usize) -> (r: bool)
        requires
            old(self).sized(),
            leaf < 0,
            -leaf < old(self).leafs.len(),
            old(self).leafs[-leaf].wf(),
            index < old(self).leafs[-leaf].nums,
        ensures
            final(self).root == old(self).root,
            final(self).nodes@ == old(self).nodes@,
            final(self).leafs.len() == old(self).leafs.len(),
            forall|j: int|
                0 <= j < old(self).leafs.len() && j != -leaf ==> #[trigger] final(self).leafs[j]
                    == old(self).leafs[j],
            final(self).leafs[-leaf].wf(),
            final(self).leafs[-leaf].parent == old(self).leafs[-leaf].parent,
            final(self).leafs[-leaf].nums == old(self).leafs[-leaf].nums,
            final(self).leafs[-leaf].bits() == old(self).leafs[-leaf].bits().update(
                index as int,
                r,
            ),
            r == !old(self).leafs[-leaf].bits()[index as int],
    {
        let li = (-leaf) as usize;
        let mut l = self.leafs[li];
        l.flip(index);
        self.leafs[li] = l;
        l.access(index)
    }

    /// Inverts the bit at position `index` under the node `node` and adjusts the count
    /// of one-bits of every node that has the position in its left subtree. Returns the
    /// new value of the bit.
    #[verifier::rlimit(40)]
    fn flip_node(&mut self, node: usize, index: usize, Ghost(s): Ghost<Shape>, Ghost(gp): Ghost<
        Option<usize>,
    >) -> (r: bool)
        requires
            old(self).sized(),
            old(self).linked(s, gp),
            s.distinct(),
            s is Node,
            s.idx() == node,
            parent_outside(old(self), s, gp),
            index < old(self).bits_in(s).len(),
        ensures
            final(self).sized(),
            final(self).linked(s, gp),
            r == !old(self).bits_in(s)[index as int],
            final(self).bits_in(s) == old(self).bits_in(s).update(index as int, r),
            old(self).same_structure(final(self)),
            old(self).same_but(final(self), s),
        decreases s,
    {
        let ghost a = *self;
        proof {
            lemma_child(&a, s, gp);
            lemma_child(&a, s.lhs(), Some(node));
            lemma_child(&a, s.rhs(), Some(node));
            lemma_children_differ(&a, s, gp);
            lemma_count_bound(a.bits_in(s.lhs()), true);
            lemma_ids_in_range(&a, s, gp);
            assert(s.node_ids().contains(s.idx()));
        }
        let n0 = self.nodes[node];
        let right_side = n0.nums <= index;
        let ghost c = subtree_on(s, right_side);
        proof {
            assert(forall|i: int| c.node_ids().contains(i) ==> s.node_ids().contains(i));
            assert(forall|i: int| c.leaf_ids().contains(i) ==> s.leaf_ids().contains(i));
            if c is Leaf {
                assert(c.leaf_ids().contains(c.idx()));
            }
        }
        let bit = if right_side {
            let right = n0.right.unwrap();
            if right >= 0 {
                self.flip_node(right as usize, index - n0.nums, Ghost(c), Ghost(Some(node)))
            } else {
                self.flip_leaf(right, index - n0.nums)
            }
        } else {
            let left = n0.left.unwrap();
            if left >= 0 {
                self.flip_node(left as usize, index, Ghost(c), Ghost(Some(node)))
            } else {
                self.flip_leaf(left, index)
            }
        };
        let ghost m = *self;
        proof {
            let l = a.bits_in(s.lhs());
            let r = a.bits_in(s.rhs());
            if right_side {
                assert(l + r.update(index - l.len(), bit) =~= (l + r).update(index as int, bit));
            } else {
                assert(l.update(index as int, bit) + r =~= (l + r).update(index as int, bit));
                lemma_count_update(l, index as int, bit, true);
                lemma_count_bound(l.update(index as int, bit), true);
            }
            assert(m.linked(c, Some(node)));
        }
        if !right_side {
            let mut n = self.nodes[node];
            if bit {
                n.ones = n.ones + 1;
            } else {
                n.ones = n.ones - 1;
            }
            self.nodes[node] = n;
        }
        proof {
            assert(a.same_outside(&m, c, Some(node)));
            assert(a.regrafted(&m, c, c, Some(node)));
            lemma_child_changed(&a, &m, self, s, gp, right_side, c);
        }
        bit
    }

    /// Inverts the bit at position `index`. Fails with `OutOfBounds`, and changes
    /// nothing, where `index` is not below the length.
    pub fn flip(&mut self, index: usize) -> (r: Result<(), BitVecError>)
        requires
            old(self).wf(),
        ensures
            index < old(self)@.len() ==> r is Ok && final(self).wf() && final(self)@ == old(
                self,
            )@.update(index as int, !old(self)@[index as int]) && old(self).same_structure(
                final(self),
            ) && final(self).leafs[0] == old(self).leafs[0] && final(self).lengths() == old(
                self,
            ).lengths(),
            index >= old(self)@.len() ==> r == Err::<(), BitVecError>(BitVecError::OutOfBounds)
                && *final(self) == *old(self),
    {
        let ghost a = *self;
        let ghost s = self.shape();
        if index >= self.len() {
            return Err(BitVecError::OutOfBounds);
        }
        let root = self.root;
        self.flip_node(root, index, Ghost(s), Ghost(None));
        proof {
            assert(self.tree_inv(s));
            lemma_view(self, s);
            lemma_ids_in_range(&a, s, None);
            assert(!s.leaf_ids().contains(0));
            crate::dynamic_vector::partition::lemma_lengths_frame(&a, self, s);
        }
        Ok(())
    }
}

} // verus!
