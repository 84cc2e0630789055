use vstd::prelude::*;
use crate::dynamic_vector::model::lemma_child;
use crate::dynamic_vector::shape::Shape;
use crate::dynamic_vector::DynamicBitVector;
use crate::error::BitVecError;
use crate::leaf::LeafValue;
use crate::traits::{DynBitVec, StaticBitVec};

verus! {

impl DynamicBitVector {
    /// The words of the leaves under the tree `s`, from the first leaf to the last.
    pub open spec fn words_in(&self, s: Shape) -> Seq<LeafValue> {
        s.leaf_order().map_values(|id: int| self.leafs[id].value)
    }

    /// The words of the leaves, from the first leaf to the last.
    pub open spec fn words(&self) -> Seq<LeafValue> {
        self.words_in(self.shape())
    }

    /// Appends the words of the leaves under `child` to `out`.
    fn collect_values(&self, child: isize, out: &mut Vec<LeafValue>, Ghost(s): Ghost<Shape>, Ghost(
        p,
    ): Ghost<Option<usize>>)
        requires
            self.sized(),
            self.linked(s, p),
            s.child_ref() == Some(child),
        ensures
            final(out)@ == old(out)@ + self.words_in(s),
        decreases s,
    {
        proof {
            lemma_child(self, s, p);
        }
        if child >= 0 {
            let n = self.nodes[child as usize];
            let ghost before = out@;
            proof {
                lemma_child(self, s.lhs(), Some(child as usize));
                lemma_child(self, s.rhs(), Some(child as usize));
                assert(self.words_in(Shape::Nil) =~= Seq::<LeafValue>::empty());
                assert(self.words_in(s) =~= self.words_in(s.lhs()) + self.words_in(s.rhs()));
            }
            if let Some(l) = n.left {
                self.collect_values(l, out, Ghost(s.lhs()), Ghost(Some(child as usize)));
            }
            let ghost middle = out@;
            if let Some(r) = n.right {
                self.collect_values(r, out, Ghost(s.rhs()), Ghost(Some(child as usize)));
            }
            proof {
                assert(middle =~= before + self.words_in(s.lhs()));
                assert(out@ =~= before + self.words_in(s));
            }
        } else {
            let w = self.leafs[(-child) as usize].value;
            out.push(w);
            proof {
                assert(self.words_in(s) =~= seq![w]);
            }
        }
    }
}

impl StaticBitVec for DynamicBitVector {
    type Intern = Vec<LeafValue>;

    open spec fn bits(&self) -> Seq<bool> {
        self@
    }

    open spec fn valid(&self) -> bool {
        self.wf()
    }

    #[inline]
    fn ones(&self) -> (r: usize) {
        DynamicBitVector::ones(self)
    }

    #[inline]
    fn access(&self, index: usize) -> (r: bool) {
        DynamicBitVector::access(self, index)
    }

    #[inline]
    fn rank(&self, bit: bool, index: usize) -> (r: usize) {
        DynamicBitVector::rank(self, bit, index)
    }

    #[inline]
    fn select(&self, bit: bool, n: usize) -> (r: Result<usize, BitVecError>) {
        DynamicBitVector::select(self, bit, n)
    }

    /// The words of the leaves, from the first leaf to the last.
    fn values(&self) -> (r: Vec<LeafValue>)
        ensures
            r@ == self.words(),
    {
        let mut out: Vec<LeafValue> = Vec::new();
        let ghost s = self.shape();
        self.collect_values(self.root as isize, &mut out, Ghost(s), Ghost(None));
        proof {
            assert(Seq::<LeafValue>::empty() + self.words_in(s) =~= self.words_in(s));
        }
        out
    }
}

impl DynBitVec for DynamicBitVector {
    open spec fn can_take(&self) -> bool {
        self.can_grow()
    }

    /// Inserts `bit` at position `index`, as `DynamicBitVector::insert` does.
    #[inline]
    fn insert(&mut self, index: usize, bit: bool) -> (r: Result<(), BitVecError>)
        ensures
            index <= old(self)@.len() ==> r is Ok && final(self).shape() == old(self).inserted_tree(
                index as int,
            ),
    {
        DynamicBitVector::insert(self, index, bit)
    }

    /// Removes the bit at position `index`, as `DynamicBitVector::delete` does.
    #[inline]
    fn delete(&mut self, index: usize) -> (r: Result<(), BitVecError>)
        ensures
            index >= old(self)@.len() ==> r == Err::<(), BitVecError>(BitVecError::OutOfBounds),
    {
        DynamicBitVector::delete(self, index)
    }

    /// Inverts the bit at position `index`, which is below the length.
    #[inline]
    fn flip(&mut self, index: usize)
        ensures
            old(self).same_structure(final(self)),
    {
        let _ = DynamicBitVector::flip(self, index);
    }

    #[inline]
    fn nums(&self) -> (r: usize) {
        DynamicBitVector::nums(self)
    }
}

} // verus!
