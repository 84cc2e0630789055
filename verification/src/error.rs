use vstd::prelude::*;

verus! {

/// The ways an operation on a bit container can fail.
#[derive(Debug, Clone, Copy, PartialEq, Eq, Structural)]
pub enum BitVecError {
    /// An index lies beyond the current length.
    OutOfBounds,
    /// A leaf already holds as many bits as its block has.
    Full,
    /// A leaf holds no bit that could be removed.
    Empty,
    /// Fewer occurrences of the requested bit value exist than were asked for.
    NotFound,
}

/// What `message` says of an index beyond the length.
pub const OUT_OF_BOUNDS: &'static str = "index out of bounds";

/// What `message` says of a full leaf.
pub const FULL: &'static str = "tried to push value to full Leaf";

/// What `message` says of an empty leaf.
pub const EMPTY: &'static str = "Tried to delete in empty leaf";

/// What `message` says of an occurrence that does not exist.
pub const NOT_FOUND: &'static str = "no such occurrence of the bit value";

impl BitVecError {
    /// The failure in words.
    pub fn message(&self) -> (r: &'static str)
        ensures
            r@ == (match *self {
                BitVecError::OutOfBounds => OUT_OF_BOUNDS@,
                BitVecError::Full => FULL@,
                BitVecError::Empty => EMPTY@,
                BitVecError::NotFound => NOT_FOUND@,
            }),
    {
        match self {
            BitVecError::OutOfBounds => OUT_OF_BOUNDS,
            BitVecError::Full => FULL,
            BitVecError::Empty => EMPTY,
            BitVecError::NotFound => NOT_FOUND,
        }
    }
}

} // verus!
