use vstd::prelude::*;

verus! {

/// A value together with the side it belongs to: `Left` for the side of the lower
/// positions, `Right` for the side of the higher ones.
#[derive(Debug, Clone, Copy, PartialEq, Eq)]
pub enum Side<T> {
    Left(T),
    Right(T),
}

impl<T> Side<T> {
    /// The value carried, whichever side it is on.
    pub open spec fn value(self) -> T {
        match self {
            Side::Left(v) => v,
            Side::Right(v) => v,
        }
    }

    /// Whether the value is on the left side.
    pub fn is_left(&self) -> (r: bool)
        ensures
            r == (*self is Left),
    {
        match self {
            Side::Left(_) => true,
            Side::Right(_) => false,
        }
    }

    /// Gives up the side and keeps the value.
    pub fn into_inner(self) -> (r: T)
        ensures
            r == self.value(),
    {
        match self {
            Side::Left(v) => v,
            Side::Right(v) => v,
        }
    }
}

} // verus!
