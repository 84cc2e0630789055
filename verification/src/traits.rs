use vstd::prelude::*;
use crate::bits::{count, is_select, rank_of};
use crate::error::BitVecError;

verus! {

/// Queries on a bit container whose content does not change.
pub trait StaticBitVec {
    /// The packed representation that `values` hands out.
    type Intern;

    /// The bits held, position 0 first.
    spec fn bits(&self) -> Seq<bool>;

    /// What a value must satisfy for the queries to be meaningful.
    spec fn valid(&self) -> bool;

    /// Number of one-bits held.
    fn ones(&self) -> (r: usize)
        requires
            self.valid(),
        ensures
            r == count(self.bits(), true),
    ;

    /// The bit at position `index`.
    fn access(&self, index: usize) -> (r: bool)
        requires
            self.valid(),
            index < self.bits().len(),
        ensures
            r == self.bits()[index as int],
    ;

    /// Number of `bit` values in the positions before `index`.
    fn rank(&self, bit: bool, index: usize) -> (r: usize)
        requires
            self.valid(),
            index <= self.bits().len(),
        ensures
            r == rank_of(self.bits(), bit, index as int),
    ;

    /// Position of the occurrence of `bit` that has `n` occurrences before it, or
    /// `NotFound` where the container holds at most `n` of them.
    fn select(&self, bit: bool, n: usize) -> (r: Result<usize, BitVecError>)
        requires
            self.valid(),
        ensures
            match r {
                Ok(pos) => is_select(self.bits(), bit, n as nat, pos as int),
                Err(e) => e == BitVecError::NotFound && count(self.bits(), bit) <= n,
            },
    ;

    /// The packed representation.
    fn values(&self) -> Self::Intern
        requires
            self.valid(),
    ;
}

/// Edits on a bit container.
pub trait DynBitVec: StaticBitVec + Sized {
    /// What the machine asks of the container before one more bit can be inserted: a
    /// container that answers a full state with an error asks nothing.
    spec fn can_take(&self) -> bool;

    /// Inserts `bit` at position `index`; the bits from `index` on move up by one.
    fn insert(&mut self, index: usize, bit: bool) -> (r: Result<(), BitVecError>)
        requires
            old(self).valid(),
            old(self).can_take(),
        ensures
            match r {
                Ok(()) => {
                    &&& index <= old(self).bits().len()
                    &&& final(self).valid()
                    &&& final(self).bits() == old(self).bits().insert(index as int, bit)
                },
                Err(e) => *final(self) == *old(self),
            },
            index > old(self).bits().len() ==> r == Err::<(), BitVecError>(
                BitVecError::OutOfBounds,
            ),
    ;

    /// Removes the bit at position `index`; the bits after it move down by one.
    fn delete(&mut self, index: usize) -> (r: Result<(), BitVecError>)
        requires
            old(self).valid(),
        ensures
            match r {
                Ok(()) => {
                    &&& index < old(self).bits().len()
                    &&& final(self).valid()
                    &&& final(self).bits() == old(self).bits().remove(index as int)
                },
                Err(e) => *final(self) == *old(self),
            },
            index < old(self).bits().len() ==> r is Ok,
    ;

    /// Inverts the bit at position `index`.
    fn flip(&mut self, index: usize)
        requires
            old(self).valid(),
            index < old(self).bits().len(),
        ensures
            final(self).valid(),
            final(self).bits() == old(self).bits().update(
                index as int,
                !old(self).bits()[index as int],
            ),
    ;

    /// Number of bits held.
    fn nums(&self) -> (r: usize)
        requires
            self.valid(),
        ensures
            r == self.bits().len(),
    ;

    /// Number of bits held.
    fn len(&self) -> (r: usize)
        requires
            self.valid(),
        ensures
            r == self.bits().len(),
    {
        self.nums()
    }

    /// Whether no bit is held.
    fn is_empty(&self) -> (r: bool)
        requires
            self.valid(),
        ensures
            r == (self.bits().len() == 0),
    {
        self.len() == 0
    }
}

/// How much memory a value takes.
pub trait BitSize: Sized {
    /// What the value itself and everything it owns on the heap take together.
    spec fn full_size(&self) -> nat;

    /// Size of the value itself, without what it owns on the heap.
    fn bitsize(&self) -> (r: usize)
        ensures
            r == vstd::layout::size_of::<Self>(),
    {
        core::mem::size_of::<Self>()
    }

    /// Size of the value and of everything it owns on the heap.
    fn bitsize_full(&self) -> (r: usize)
        requires
            self.full_size() <= usize::MAX,
        ensures
            r == self.full_size(),
    ;

    /// Size of what is in use of the value and of everything it owns on the heap.
    fn bitsize_used(&self) -> (r: usize)
        requires
            self.full_size() <= usize::MAX,
        ensures
            r == self.full_size(),
    {
        self.bitsize_full()
    }
}

} // verus!
