use vstd::prelude::*;
use crate::bits::{count, is_select, rank_of};
use crate::dynamic_vector::DynamicBitVector;
use crate::error::BitVecError;

verus! {

/// One command of the command file.
#[derive(Debug, Clone, Copy, PartialEq, Eq)]
pub enum Command {
    /// `insert <index> <bit>`
    Insert(usize, bool),
    /// `delete <index>`
    Delete(usize),
    /// `flip <index>`
    Flip(usize),
    /// `rank <bit> <index>`
    Rank(bool, usize),
    /// `select <bit> <n>`
    Select(bool, usize),
}

impl Command {
    /// Whether the command asks for a number and leaves the vector as it is.
    pub open spec fn is_query(self) -> bool {
        self is Rank || self is Select
    }

    /// The bits that the vector holds after the command, where the command can be
    /// carried out on the bits `before`.
    pub open spec fn effect(self, before: Seq<bool>) -> Seq<bool> {
        match self {
            Command::Insert(i, b) => before.insert(i as int, b),
            Command::Delete(i) => before.remove(i as int),
            Command::Flip(i) => before.update(i as int, !before[i as int]),
            _ => before,
        }
    }

    /// Whether the index of the command lies in the range that the command allows for
    /// a vector of `len` bits. A selection allows every number.
    pub open spec fn in_bounds(self, len: nat) -> bool {
        match self {
            Command::Insert(i, _) => i <= len,
            Command::Delete(i) => i < len,
            Command::Flip(i) => i < len,
            Command::Rank(_, i) => i <= len,
            Command::Select(_, _) => true,
        }
    }

    /// Whether `answer` is what the command has to put out for the bits `before`: a
    /// rank, a selected position, or nothing for an edit.
    pub open spec fn answers(self, before: Seq<bool>, answer: Option<usize>) -> bool {
        match self {
            Command::Rank(b, i) => answer == Some(rank_of(before, b, i as int) as usize),
            Command::Select(b, n) => answer is Some && is_select(
                before,
                b,
                n as nat,
                answer.unwrap() as int,
            ),
            _ => answer is None,
        }
    }
}

impl DynamicBitVector {
    /// Carries out one command. An edit changes the bits and puts out nothing; a query
    /// leaves the vector as it is and puts out its answer. An index out of range makes
    /// the command fail with `OutOfBounds`, and a selection of an occurrence that does
    /// not exist with `NotFound`; the vector is then as it was.
    pub fn run(&mut self, command: Command) -> (r: Result<Option<usize>, BitVecError>)
        requires
            old(self).wf(),
            command is Insert ==> old(self).can_grow(),
        ensures
            final(self).wf(),
            match r {
                Ok(answer) => {
                    &&& command.in_bounds(old(self)@.len())
                    &&& final(self)@ == command.effect(old(self)@)
                    &&& command.answers(old(self)@, answer)
                },
                Err(e) => {
                    &&& *final(self) == *old(self)
                    &&& if command is Select {
                        e == BitVecError::NotFound && count(old(self)@, command->Select_0)
                            <= command->Select_1
                    } else {
                        e == BitVecError::OutOfBounds && !command.in_bounds(old(self)@.len())
                    }
                },
            },
            command.is_query() ==> *final(self) == *old(self),
    {
        match command {
            Command::Insert(index, bit) => match self.insert(index, bit) {
                Ok(()) => Ok(None),
                Err(e) => Err(e),
            },
            Command::Delete(index) => match self.delete(index) {
                Ok(()) => Ok(None),
                Err(e) => Err(e),
            },
            Command::Flip(index) => match self.flip(index) {
                Ok(()) => Ok(None),
                Err(e) => Err(e),
            },
            Command::Rank(bit, index) => {
                if index > self.len() {
                    Err(BitVecError::OutOfBounds)
                } else {
                    proof {
                        crate::bits::lemma_count_bound(self@.take(index as int), bit);
                    }
                    Ok(Some(self.rank(bit, index)))
                }
            },
            Command::Select(bit, n) => match self.select(bit, n) {
                Ok(pos) => Ok(Some(pos)),
                Err(e) => Err(e),
            },
        }
    }
}

} // verus!
