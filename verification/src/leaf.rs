use vstd::prelude::*;
use crate::bits::{lemma_rank_monotone, lemma_rank_full};
use crate::error::BitVecError;
use crate::primitive_static::{bit_at, block_bits, block_fits};
use crate::side::Side;
use crate::traits::{DynBitVec, StaticBitVec};

verus! {

/// The word type that holds the bits of a leaf.
pub type LeafValue = u64;

/// Half the number of bits of a leaf's word.
pub const HALF: u32 = 32;

/// A short bit vector of at most 64 bits, packed in one word, that knows its parent node.
#[derive(Debug, Clone, Copy, PartialEq, Eq, Default, Hash)]
pub struct Leaf {
    /// index of the parent node
    pub parent: usize,
    /// the bits, position 0 in the least significant place
    pub value: LeafValue,
    /// number of positions in use
    pub nums: u8,
}

proof fn lemma_push_bits(x: u64, n: u64, b: u64, j: u64)
    by (bit_vector)
    requires
        n < 64,
        x >> n == 0,
        b <= 1,
        j < 64,
    ensures
        n + 1 < 64 ==> (x | (b << n)) >> ((n + 1) as u64) == 0,
        ((x | (b << n)) >> j) & 1 == 1 <==> (if j == n {
            b == 1
        } else {
            (x >> j) & 1 == 1
        }),
{
}

proof fn lemma_insert_bits(x: u64, n: u64, i: u64, b: u64, j: u64)
    by (bit_vector)
    requires
        n < 64,
        x >> n == 0,
        i <= n,
        b <= 1,
        j < 64,
    ensures
        ({
            let l = u64::MAX << i;
            let y = ((x & l) << 1) | (b << i) | (x & !l);
            &&& n + 1 < 64 ==> y >> ((n + 1) as u64) == 0
            &&& (y >> j) & 1 == 1 <==> (if j < i {
                (x >> j) & 1 == 1
            } else if j == i {
                b == 1
            } else {
                (x >> ((j - 1) as u64)) & 1 == 1
            })
        }),
{
}

proof fn lemma_delete_bits(x: u64, n: u64, i: u64, j: u64)
    by (bit_vector)
    requires
        n <= 64,
        n < 64 ==> x >> n == 0,
        i < n,
        j < 63,
    ensures
        ({
            let l = u64::MAX << i;
            let y = ((x & (l << 1)) >> 1) | (x & !l);
            &&& y >> ((n - 1) as u64) == 0
            &&& (y >> j) & 1 == 1 <==> (if j < i {
                (x >> j) & 1 == 1
            } else {
                (x >> ((j + 1) as u64)) & 1 == 1
            })
        }),
{
}

proof fn lemma_flip_bits(x: u64, n: u64, i: u64, j: u64)
    by (bit_vector)
    requires
        i < 64,
        j < 64,
    ensures
        ((x ^ (1u64 << i)) >> j) & 1 == 1 <==> (((x >> j) & 1 == 1) != (j == i)),
        (n < 64 && x >> n == 0 && i < n) ==> (x ^ (1u64 << i)) >> n == 0,
{
}

proof fn lemma_split_bits(x: u64, n: u64, j: u64)
    by (bit_vector)
    requires
        32 <= n <= 64,
        n < 64 ==> x >> n == 0,
        j < 32,
    ensures
        (x & 0xffff_ffffu64) >> 32 == 0,
        (x >> 32) >> ((n - 32) as u64) == 0,
        ((x & 0xffff_ffffu64) >> j) & 1 == 1 <==> (x >> j) & 1 == 1,
        ((x >> 32) >> j) & 1 == 1 <==> (x >> ((j + 32) as u64)) & 1 == 1,
{
}

proof fn lemma_concat_bits(x: u64, n: u64, y: u64, m: u64, j: u64)
    by (bit_vector)
    requires
        n < 64,
        0 < m < 64,
        n + m <= 64,
        x >> n == 0,
        y >> m == 0,
        j < 64,
    ensures
        n + m < 64 ==> (x | (y << n)) >> ((n + m) as u64) == 0,
        ((x | (y << n)) >> j) & 1 == 1 <==> (if j < n {
            (x >> j) & 1 == 1
        } else {
            (y >> ((j - n) as u64)) & 1 == 1
        }),
{
}

/// A prefix of the first `n` bits of a word is a prefix of all its bits.
pub proof fn lemma_block_prefix(v: u64, n: nat, k: int)
    requires
        0 <= k <= n <= 64,
    ensures
        block_bits(v, n).take(k) == block_bits(v, 64).take(k),
{
    assert(block_bits(v, n).take(k) =~= block_bits(v, 64).take(k));
}

impl Leaf {
    /// The leaf uses at most 64 positions and every position it does not use holds zero.
    pub open spec fn wf(&self) -> bool {
        block_fits(self.value, self.nums as nat)
    }

    /// An empty leaf under `parent`.
    #[inline]
    pub fn new(parent: usize) -> (r: Self)
        ensures
            r == (Leaf { parent, value: 0, nums: 0 }),
            r.wf(),
            r.bits() == Seq::<bool>::empty(),
    {
        assert(0u64 >> 0 == 0) by (bit_vector);
        assert(block_bits(0, 0) =~= Seq::<bool>::empty());
        Leaf { parent, value: 0, nums: 0 }
    }

    /// A leaf with the given fields.
    #[inline]
    pub fn create(parent: usize, value: LeafValue, nums: u8) -> (r: Self)
        ensures
            r == (Leaf { parent, value, nums }),
    {
        Leaf { parent, value, nums }
    }

    /// Appends `bit` behind the last position in use, or reports `Full`.
    pub fn push(&mut self, bit: bool) -> (r: Result<(), BitVecError>)
        requires
            old(self).wf(),
        ensures
            old(self).nums < 64 ==> r is Ok && final(self).wf() && final(self).bits() == old(
                self,
            ).bits().push(bit) && final(self).parent == old(self).parent && final(self).nums
                == old(self).nums + 1,
            old(self).nums >= 64 ==> r == Err::<(), BitVecError>(BitVecError::Full) && *final(self)
                == *old(self),
    {
        if self.nums < 64 {
            self.push_unchecked(bit);
            Ok(())
        } else {
            Err(BitVecError::Full)
        }
    }

    /// Appends `bit` behind the last position in use of a leaf that is not full.
    #[inline]
    pub fn push_unchecked(&mut self, bit: bool)
        requires
            old(self).wf(),
            old(self).nums < 64,
        ensures
            final(self).wf(),
            final(self).bits() == old(self).bits().push(bit),
            final(self).parent == old(self).parent,
            final(self).nums == old(self).nums + 1,
    {
        let b: u64 = if bit {
            1
        } else {
            0
        };
        let ghost x = self.value;
        let ghost n = self.nums;
        self.value = self.value | (b << self.nums);
        self.nums = self.nums + 1;
        proof {
            lemma_push_bits(x, n as u64, b, 0);
            assert forall|j: int| 0 <= j < n + 1 implies bit_at(self.value, j) == old(
                self,
            ).bits().push(bit)[j] by {
                lemma_push_bits(x, n as u64, b, j as u64);
            }
            assert(self.bits() =~= old(self).bits().push(bit));
        }
    }

    /// Inserts `bit` at position `index` of a leaf that is not full; the bits from
    /// `index` on move up by one.
    pub fn insert_unchecked(&mut self, index: usize, bit: bool)
        requires
            old(self).wf(),
            old(self).nums < 64,
            index <= old(self).nums,
        ensures
            final(self).wf(),
            final(self).bits() == old(self).bits().insert(index as int, bit),
            final(self).parent == old(self).parent,
            final(self).nums == old(self).nums + 1,
    {
        let b: u64 = if bit {
            1
        } else {
            0
        };
        let x: u64 = self.value;
        let ghost n = self.nums;
        let lmask: u64 = u64::MAX << index;
        let rmask: u64 = !lmask;
        self.value = ((x & lmask) << 1) | (b << index) | (x & rmask);
        self.nums = self.nums + 1;
        proof {
            lemma_insert_bits(x, n as u64, index as u64, b, 0);
            assert forall|j: int| 0 <= j < n + 1 implies bit_at(self.value, j) == old(
                self,
            ).bits().insert(index as int, bit)[j] by {
                lemma_insert_bits(x, n as u64, index as u64, b, j as u64);
            }
            assert(self.bits() =~= old(self).bits().insert(index as int, bit));
        }
    }

    /// Removes the bit at position `index`, which is in use; the bits after it move
    /// down by one.
    pub fn delete_unchecked(&mut self, index: usize)
        requires
            old(self).wf(),
            index < old(self).nums,
        ensures
            final(self).wf(),
            final(self).bits() == old(self).bits().remove(index as int),
            final(self).parent == old(self).parent,
            final(self).nums == old(self).nums - 1,
    {
        let x: u64 = self.value;
        let ghost n = self.nums;
        let lmask: u64 = u64::MAX << index;
        let rmask: u64 = !lmask;
        self.value = ((x & (lmask << 1)) >> 1) | (x & rmask);
        self.nums = self.nums - 1;
        proof {
            lemma_delete_bits(x, n as u64, index as u64, 0);
            assert forall|j: int| 0 <= j < n - 1 implies bit_at(self.value, j) == old(
                self,
            ).bits().remove(index as int)[j] by {
                lemma_delete_bits(x, n as u64, index as u64, j as u64);
            }
            assert(self.bits() =~= old(self).bits().remove(index as int));
        }
    }

    /// Takes the positions from 32 on out of the leaf and returns them, moved down to
    /// position 0, for a leaf that follows this one. The leaf keeps its first 32 bits.
    pub fn split_to_right(&mut self) -> (r: LeafValue)
        requires
            old(self).wf(),
            old(self).nums >= 32,
        ensures
            final(self).wf(),
            final(self).nums == 32,
            final(self).parent == old(self).parent,
            final(self).bits() == old(self).bits().take(32),
            block_fits(r, (old(self).nums - 32) as nat),
            block_bits(r, (old(self).nums - 32) as nat) == old(self).bits().skip(32),
    {
        let x: u64 = self.value;
        let ghost n = self.nums;
        let ret: u64 = x >> 32;
        self.value = x & 0xffff_ffffu64;
        self.nums = 32;
        proof {
            lemma_split_bits(x, n as u64, 0);
            assert forall|j: int| 0 <= j < 32 implies #[trigger] bit_at(self.value, j) == bit_at(
                x,
                j,
            ) by {
                lemma_split_bits(x, n as u64, j as u64);
            }
            assert forall|j: int| 0 <= j < 32 implies #[trigger] bit_at(ret, j) == bit_at(
                x,
                j + 32,
            ) by {
                lemma_split_bits(x, n as u64, j as u64);
            }
            assert(self.bits() =~= old(self).bits().take(32));
            assert(block_bits(ret, (n - 32) as nat) =~= old(self).bits().skip(32));
        }
        ret
    }

    /// Takes the first 32 positions out of the leaf and returns them, for a leaf that
    /// precedes this one. The leaf keeps the rest, moved down to position 0.
    pub fn split_to_left(&mut self) -> (r: LeafValue)
        requires
            old(self).wf(),
            old(self).nums >= 32,
        ensures
            final(self).wf(),
            final(self).nums == old(self).nums - 32,
            final(self).parent == old(self).parent,
            final(self).bits() == old(self).bits().skip(32),
            block_fits(r, 32),
            block_bits(r, 32) == old(self).bits().take(32),
    {
        let x: u64 = self.value;
        let ghost n = self.nums;
        let ret: u64 = x & 0xffff_ffffu64;
        self.value = x >> 32;
        self.nums = self.nums - 32;
        proof {
            lemma_split_bits(x, n as u64, 0);
            assert forall|j: int| 0 <= j < 32 implies #[trigger] bit_at(ret, j) == bit_at(x, j) by {
                lemma_split_bits(x, n as u64, j as u64);
            }
            assert forall|j: int| 0 <= j < 32 implies #[trigger] bit_at(self.value, j) == bit_at(
                x,
                j + 32,
            ) by {
                lemma_split_bits(x, n as u64, j as u64);
            }
            assert(self.bits() =~= old(self).bits().skip(32));
            assert(block_bits(ret, 32) =~= old(self).bits().take(32));
        }
        ret
    }

    /// Appends the bits of `leaf` behind the bits of this leaf.
    #[inline]
    pub fn extend_from(&mut self, leaf: &Leaf)
        requires
            old(self).wf(),
            leaf.wf(),
            old(self).nums + leaf.nums <= 64,
        ensures
            final(self).wf(),
            final(self).parent == old(self).parent,
            final(self).nums == old(self).nums + leaf.nums,
            final(self).bits() == old(self).bits() + leaf.bits(),
    {
        if leaf.nums == 0 {
            assert(self.bits() + leaf.bits() =~= self.bits());
            return;
        }
        if leaf.nums == 64 {
            assert(old(self).bits() + leaf.bits() =~= leaf.bits());
            self.value = leaf.value;
            self.nums = 64;
            return;
        }
        let ghost x = self.value;
        let ghost n = self.nums;
        self.value = self.value | (leaf.value << self.nums);
        self.nums = self.nums + leaf.nums;
        proof {
            lemma_concat_bits(x, n as u64, leaf.value, leaf.nums as u64, 0);
            assert forall|j: int| 0 <= j < n + leaf.nums implies bit_at(self.value, j) == (old(
                self,
            ).bits() + leaf.bits())[j] by {
                lemma_concat_bits(x, n as u64, leaf.value, leaf.nums as u64, j as u64);
            }
            assert(self.bits() =~= old(self).bits() + leaf.bits());
        }
    }

    /// Puts the bits of `leaf` in front of the bits of this leaf.
    #[inline]
    pub fn prepend(&mut self, leaf: &Leaf)
        requires
            old(self).wf(),
            leaf.wf(),
            old(self).nums + leaf.nums <= 64,
        ensures
            final(self).wf(),
            final(self).parent == old(self).parent,
            final(self).nums == old(self).nums + leaf.nums,
            final(self).bits() == leaf.bits() + old(self).bits(),
    {
        if self.nums == 0 {
            assert(leaf.bits() + self.bits() =~= leaf.bits());
            self.value = leaf.value;
            self.nums = leaf.nums;
            return;
        }
        if leaf.nums == 0 {
            assert(leaf.bits() + self.bits() =~= self.bits());
            return;
        }
        let ghost x = self.value;
        let ghost n = self.nums;
        self.value = (self.value << leaf.nums) | leaf.value;
        self.nums = self.nums + leaf.nums;
        proof {
            let y = leaf.value;
            let m = leaf.nums as u64;
            assert((x << m) | y == y | (x << m)) by (bit_vector);
            lemma_concat_bits(y, m, x, n as u64, 0);
            assert forall|j: int| 0 <= j < n + leaf.nums implies bit_at(self.value, j) == (
            leaf.bits() + old(self).bits())[j] by {
                lemma_concat_bits(y, m, x, n as u64, j as u64);
            }
            assert(self.bits() =~= leaf.bits() + old(self).bits());
        }
    }

    /// Adds `nums` bits, packed in a word, on the side they come from: bits from the left
    /// go in front, bits from the right go behind.
    #[inline]
    pub fn extend(&mut self, values: Side<LeafValue>, nums: u8)
        requires
            old(self).wf(),
            block_fits(values.value(), nums as nat),
            old(self).nums + nums <= 64,
        ensures
            final(self).wf(),
            final(self).parent == old(self).parent,
            final(self).nums == old(self).nums + nums,
            values is Right ==> final(self).bits() == old(self).bits() + block_bits(
                values.value(),
                nums as nat,
            ),
            values is Left ==> final(self).bits() == block_bits(values.value(), nums as nat)
                + old(self).bits(),
    {
        match values {
            Side::Right(v) => self.extend_from(&Leaf::create(0, v, nums)),
            Side::Left(v) => self.prepend(&Leaf::create(0, v, nums)),
        }
    }
}

impl StaticBitVec for Leaf {
    type Intern = LeafValue;

    open spec fn bits(&self) -> Seq<bool> {
        block_bits(self.value, self.nums as nat)
    }

    open spec fn valid(&self) -> bool {
        self.wf()
    }

    #[inline]
    fn ones(&self) -> (r: usize) {
        proof {
            lemma_block_prefix(self.value, self.nums as nat, self.nums as int);
            assert(self.bits().take(self.nums as int) =~= self.bits());
        }
        self.value.rank(true, self.nums as usize)
    }

    #[inline]
    fn access(&self, index: usize) -> (r: bool) {
        self.value.access(index)
    }

    #[inline]
    fn rank(&self, bit: bool, index: usize) -> (r: usize) {
        proof {
            lemma_block_prefix(self.value, self.nums as nat, index as int);
        }
        self.value.rank(bit, index)
    }

    #[inline]
    fn select(&self, bit: bool, n: usize) -> (r: Result<usize, BitVecError>) {
        match self.value.select(bit, n) {
            Ok(pos) => {
                if pos < self.nums as usize {
                    proof {
                        lemma_block_prefix(self.value, self.nums as nat, pos as int);
                    }
                    Ok(pos)
                } else {
                    proof {
                        lemma_block_prefix(self.value, self.nums as nat, self.nums as int);
                        lemma_rank_monotone(self.value.bits(), bit, self.nums as int, pos as int);
                        lemma_rank_full(self.bits(), bit);
                    }
                    Err(BitVecError::NotFound)
                }
            },
            Err(e) => {
                proof {
                    lemma_block_prefix(self.value, self.nums as nat, self.nums as int);
                    lemma_rank_monotone(self.value.bits(), bit, self.nums as int, 64);
                    lemma_rank_full(self.bits(), bit);
                    lemma_rank_full(self.value.bits(), bit);
                }
                Err(e)
            },
        }
    }

    #[inline]
    fn values(&self) -> (r: LeafValue)
        ensures
            r == self.value,
    {
        self.value
    }
}

impl DynBitVec for Leaf {
    open spec fn can_take(&self) -> bool {
        true
    }

    #[inline]
    fn insert(&mut self, index: usize, bit: bool) -> (r: Result<(), BitVecError>)
        ensures
            index <= old(self).nums && old(self).nums < 64 ==> r is Ok && final(self).parent
                == old(self).parent && final(self).nums == old(self).nums + 1,
            index <= old(self).nums && old(self).nums >= 64 ==> r == Err::<(), BitVecError>(
                BitVecError::Full,
            ),
    {
        if index > self.nums as usize {
            Err(BitVecError::OutOfBounds)
        } else if self.nums >= 64 {
            Err(BitVecError::Full)
        } else {
            self.insert_unchecked(index, bit);
            Ok(())
        }
    }

    #[inline]
    fn delete(&mut self, index: usize) -> (r: Result<(), BitVecError>)
        ensures
            old(self).nums == 0 ==> r == Err::<(), BitVecError>(BitVecError::Empty),
            old(self).nums > 0 && index >= old(self).nums ==> r == Err::<(), BitVecError>(
                BitVecError::OutOfBounds,
            ),
            r is Ok ==> final(self).parent == old(self).parent && final(self).nums == old(
                self,
            ).nums - 1,
    {
        if self.nums == 0 {
            Err(BitVecError::Empty)
        } else if index >= self.nums as usize {
            Err(BitVecError::OutOfBounds)
        } else {
            self.delete_unchecked(index);
            Ok(())
        }
    }

    #[inline]
    fn flip(&mut self, index: usize)
        ensures
            final(self).parent == old(self).parent,
            final(self).nums == old(self).nums,
    {
        let ghost x = self.value;
        let ghost n = self.nums;
        self.value = self.value ^ (1u64 << index);
        proof {
            lemma_flip_bits(x, n as u64, index as u64, 0);
            assert forall|j: int| 0 <= j < n implies bit_at(self.value, j) == old(
                self,
            ).bits().update(index as int, !old(self).bits()[index as int])[j] by {
                lemma_flip_bits(x, n as u64, index as u64, j as u64);
            }
            assert(self.bits() =~= old(self).bits().update(
                index as int,
                !old(self).bits()[index as int],
            ));
        }
    }

    #[inline]
    fn nums(&self) -> (r: usize) {
        self.nums as usize
    }
}

} // verus!
