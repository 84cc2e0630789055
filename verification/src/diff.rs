use vstd::prelude::*;

verus! {

/// What one change does to the bookkeeping of a node: to its balance, to the capacity
/// under it, and to the counters of its left subtree.
#[derive(Debug, Clone, Copy, PartialEq, Eq, Default)]
pub struct Diff {
    pub balance: i8,
    pub size: isize,
    pub nums: isize,
    pub ones: isize,
}

impl Diff {
    /// No change.
    #[inline]
    pub fn new() -> (r: Self)
        ensures
            r == (Diff { balance: 0, size: 0, nums: 0, ones: 0 }),
    {
        Diff { balance: 0, size: 0, nums: 0, ones: 0 }
    }

    /// A bit inserted in the right subtree: nothing changes on the left.
    #[inline]
    pub fn insert_right() -> (r: Self)
        ensures
            r == (Diff { balance: 0, size: 0, nums: 0, ones: 0 }),
    {
        Diff::new()
    }

    /// A bit inserted in the left subtree: one more bit there, and one more one-bit
    /// where `bit` is set.
    pub fn insert_left(bit: bool) -> (r: Self)
        ensures
            r == (Diff {
                balance: 0,
                size: 0,
                nums: 1,
                ones: if bit {
                    1isize
                } else {
                    0isize
                },
            }),
    {
        let ones: isize = if bit {
            1
        } else {
            0
        };
        Diff { balance: 0, size: 0, nums: 1, ones }
    }

    /// A node created in the right subtree: the balance goes up by one.
    #[inline]
    pub fn create_right_node() -> (r: Self)
        ensures
            r == (Diff { balance: 1, size: 0, nums: 0, ones: 0 }),
    {
        Diff { balance: 1, size: 0, nums: 0, ones: 0 }
    }

    /// A leaf created in the right subtree: the balance goes up by one and the capacity
    /// by the 64 bits of a leaf.
    #[inline]
    pub fn create_right_leaf() -> (r: Self)
        ensures
            r == (Diff { balance: 1, size: 64, nums: 0, ones: 0 }),
    {
        Diff { balance: 1, size: 64, nums: 0, ones: 0 }
    }

    /// A child moved from the right to the left: the balance goes down by one.
    #[inline]
    pub fn move_child_right_to_left() -> (r: Self)
        ensures
            r == (Diff { balance: -1i8, size: 0, nums: 0, ones: 0 }),
    {
        Diff { balance: -1, size: 0, nums: 0, ones: 0 }
    }

    /// A node inserted on the right: the balance goes up by one.
    pub fn insert_node_right() -> (r: Self)
        ensures
            r == (Diff { balance: 1, size: 0, nums: 0, ones: 0 }),
    {
        Diff { balance: 1, size: 0, nums: 0, ones: 0 }
    }

    /// Whether the sum of the two changes can be written in the fields.
    pub open spec fn can_add(self, other: Diff) -> bool {
        &&& i8::MIN <= self.balance + other.balance <= i8::MAX
        &&& isize::MIN <= self.size + other.size <= isize::MAX
        &&& isize::MIN <= self.nums + other.nums <= isize::MAX
        &&& isize::MIN <= self.ones + other.ones <= isize::MAX
    }

    /// Both changes together: the sum, field by field.
    pub fn add(self, other: Diff) -> (r: Self)
        requires
            self.can_add(other),
        ensures
            r.balance == self.balance + other.balance,
            r.size == self.size + other.size,
            r.nums == self.nums + other.nums,
            r.ones == self.ones + other.ones,
    {
        Diff {
            balance: self.balance + other.balance,
            size: self.size + other.size,
            nums: self.nums + other.nums,
            ones: self.ones + other.ones,
        }
    }
}

} // verus!
