use vstd::prelude::*;
use crate::bits::{count, lemma_count_marks, lemma_rank_full, lemma_rank_step, rank_of};
use crate::error::BitVecError;
use crate::traits::StaticBitVec;

verus! {

/// The bit of `v` at position `i`, position 0 being the least significant.
pub open spec fn bit_at(v: u64, i: int) -> bool {
    (v >> (i as u64)) & 1 == 1
}

/// The lowest `n` bits of `v` as a sequence.
pub open spec fn block_bits(v: u64, n: nat) -> Seq<bool> {
    Seq::new(n, |i: int| bit_at(v, i))
}

/// `v` holds no one-bit at position `n` or above.
pub open spec fn block_fits(v: u64, n: nat) -> bool {
    n <= 64 && (n < 64 ==> v >> (n as u64) == 0)
}

/// The word whose lowest `k` bits are one and whose other bits are zero.
pub open spec fn low_mask(k: nat) -> u64 {
    if k >= 64 {
        u64::MAX
    } else {
        ((1u64 << (k as u64)) - 1) as u64
    }
}

proof fn lemma_low_mask_bit(x: u64, k: u64, i: u64)
    by (bit_vector)
    requires
        k < 64,
        i < 64,
    ensures
        (1u64 << k) >= 1,
        ((x & (((1u64 << k) - 1) as u64)) >> i) & 1 == 1 <==> (i < k && (x >> i) & 1 == 1),
{
}

proof fn lemma_not_bit(x: u64, i: u64)
    by (bit_vector)
    requires
        i < 64,
    ensures
        ((!x) >> i) & 1 == 1 <==> !((x >> i) & 1 == 1),
{
}

proof fn lemma_high_bits_zero(x: u64, n: u64, i: u64)
    by (bit_vector)
    requires
        n <= i < 64,
        x >> n == 0,
    ensures
        (x >> i) & 1 == 0,
{
}

proof fn lemma_prefix_step(x: u64, y: u64, k: u64)
    by (bit_vector)
    requires
        k < 64,
        x & (((1u64 << k) - 1) as u64) == y & (((1u64 << k) - 1) as u64),
        ((x >> k) & 1 == 1) == ((y >> k) & 1 == 1),
    ensures
        k < 63 ==> x & (((1u64 << ((k + 1) as u64)) - 1) as u64) == y & (((1u64 << ((k + 1) as u64))
            - 1) as u64),
        k == 63 ==> x == y,
{
}

/// Words that agree in their lowest `k` bits agree under the mask of those bits.
proof fn lemma_equal_prefix(x: u64, y: u64, k: nat)
    requires
        k <= 63,
        forall|i: int| 0 <= i < k ==> bit_at(x, i) == bit_at(y, i),
    ensures
        x & low_mask(k) == y & low_mask(k),
    decreases k,
{
    if k == 0 {
        assert(x & (((1u64 << 0) - 1) as u64) == y & (((1u64 << 0) - 1) as u64)) by (bit_vector);
    } else {
        lemma_equal_prefix(x, y, (k - 1) as nat);
        assert(bit_at(x, k - 1) == bit_at(y, k - 1));
        lemma_prefix_step(x, y, (k - 1) as u64);
    }
}

/// Two words that hold the same bits in their first `n` positions, and zero in all
/// others, are the same word.
pub proof fn lemma_bits_give_word(x: u64, y: u64, n: nat)
    requires
        block_fits(x, n),
        block_fits(y, n),
        block_bits(x, n) == block_bits(y, n),
    ensures
        x == y,
{
    assert forall|i: int| 0 <= i < 64 implies bit_at(x, i) == bit_at(y, i) by {
        if i < n {
            assert(block_bits(x, n)[i] == bit_at(x, i));
            assert(block_bits(y, n)[i] == bit_at(y, i));
        } else {
            lemma_high_bits_zero(x, n as u64, i as u64);
            lemma_high_bits_zero(y, n as u64, i as u64);
        }
    }
    lemma_equal_prefix(x, y, 63);
    assert(bit_at(x, 63) == bit_at(y, 63));
    lemma_prefix_step(x, y, 63);
}

/// `u64::count_ones`: the number of one-bits in the binary representation of the word.
#[verifier::external_body]
fn count_ones_u64(v: u64) -> (r: usize)
    ensures
        r == count(block_bits(v, 64), true),
{
    v.count_ones() as usize
}

/// Builds the word with the lowest `k` bits set.
fn make_low_mask(k: usize) -> (m: u64)
    requires
        k <= 64,
    ensures
        m == low_mask(k as nat),
{
    if k >= 64 {
        u64::MAX
    } else {
        proof {
            lemma_low_mask_bit(0, k as u64, 0);
        }
        (1u64 << k) - 1
    }
}

impl StaticBitVec for u64 {
    type Intern = u64;

    open spec fn bits(&self) -> Seq<bool> {
        block_bits(*self, 64)
    }

    open spec fn valid(&self) -> bool {
        true
    }

    #[inline]
    fn ones(&self) -> (r: usize) {
        count_ones_u64(*self)
    }

    #[inline]
    fn access(&self, index: usize) -> (r: bool) {
        (*self >> index) & 1 == 1
    }

    #[inline]
    fn rank(&self, bit: bool, index: usize) -> (r: usize) {
        if index == 0 {
            proof {
                assert(self.bits().take(0) =~= Seq::<bool>::empty());
            }
            return 0;
        }
        let x: u64 = if bit {
            *self
        } else {
            !*self
        };
        let masked: u64 = x & make_low_mask(index);
        proof {
            let s = self.bits();
            let t = block_bits(masked, 64);
            assert forall|j: int| 0 <= j < index implies t[j] == (s[j] == bit) by {
                lemma_not_bit(*self, j as u64);
                if index < 64 {
                    lemma_low_mask_bit(x, index as u64, j as u64);
                } else {
                    assert(x & u64::MAX == x) by (bit_vector);
                }
            }
            assert forall|j: int| index <= j < t.len() implies !t[j] by {
                lemma_low_mask_bit(x, index as u64, j as u64);
            }
            lemma_count_marks(s, t, index as int, bit);
        }
        count_ones_u64(masked)
    }

    fn select(&self, bit: bool, n: usize) -> (r: Result<usize, BitVecError>) {
        let mut cnt: usize = n;
        let mut shift: usize = 0;
        while shift < 64
            invariant
                shift <= 64,
                cnt + rank_of(self.bits(), bit, shift as int) == n,
            decreases 64 - shift,
        {
            proof {
                lemma_rank_step(self.bits(), bit, shift as int);
            }
            let here: bool = (*self >> shift) & 1 == 1;
            if here == bit {
                if cnt == 0 {
                    return Ok(shift);
                }
                cnt -= 1;
            }
            shift += 1;
        }
        proof {
            lemma_rank_full(self.bits(), bit);
        }
        Err(BitVecError::NotFound)
    }

    #[inline]
    fn values(&self) -> (r: u64)
        ensures
            r == *self,
    {
        *self
    }
}

/// The bit of the 128-bit word `v` at position `i`.
pub open spec fn wide_bit_at(v: u128, i: int) -> bool {
    (v >> (i as u128)) & 1 == 1
}

/// The lowest `n` bits of the 128-bit word `v` as a sequence.
pub open spec fn wide_block_bits(v: u128, n: nat) -> Seq<bool> {
    Seq::new(n, |i: int| wide_bit_at(v, i))
}

/// The 128-bit word whose lowest `k` bits are one and whose other bits are zero.
pub open spec fn wide_low_mask(k: nat) -> u128 {
    if k >= 128 {
        u128::MAX
    } else {
        ((1u128 << (k as u128)) - 1) as u128
    }
}

proof fn lemma_wide_low_mask_bit(x: u128, k: u128, i: u128)
    by (bit_vector)
    requires
        k < 128,
        i < 128,
    ensures
        (1u128 << k) >= 1,
        ((x & (((1u128 << k) - 1) as u128)) >> i) & 1 == 1 <==> (i < k && (x >> i) & 1 == 1),
{
}

proof fn lemma_wide_not_bit(x: u128, i: u128)
    by (bit_vector)
    requires
        i < 128,
    ensures
        ((!x) >> i) & 1 == 1 <==> !((x >> i) & 1 == 1),
{
}

/// `u128::count_ones`: the number of one-bits in the binary representation of the word.
#[verifier::external_body]
fn count_ones_u128(v: u128) -> (r: usize)
    ensures
        r == count(wide_block_bits(v, 128), true),
{
    v.count_ones() as usize
}

/// Builds the 128-bit word with the lowest `k` bits set.
fn make_wide_low_mask(k: usize) -> (m: u128)
    requires
        k <= 128,
    ensures
        m == wide_low_mask(k as nat),
{
    if k >= 128 {
        u128::MAX
    } else {
        proof {
            lemma_wide_low_mask_bit(0, k as u128, 0);
        }
        (1u128 << k) - 1
    }
}

impl StaticBitVec for u128 {
    type Intern = u128;

    open spec fn bits(&self) -> Seq<bool> {
        wide_block_bits(*self, 128)
    }

    open spec fn valid(&self) -> bool {
        true
    }

    #[inline]
    fn ones(&self) -> (r: usize) {
        count_ones_u128(*self)
    }

    #[inline]
    fn access(&self, index: usize) -> (r: bool) {
        (*self >> index) & 1 == 1
    }

    #[inline]
    fn rank(&self, bit: bool, index: usize) -> (r: usize) {
        if index == 0 {
            proof {
                assert(self.bits().take(0) =~= Seq::<bool>::empty());
            }
            return 0;
        }
        let x: u128 = if bit {
            *self
        } else {
            !*self
        };
        let masked: u128 = x & make_wide_low_mask(index);
        proof {
            let s = self.bits();
            let t = wide_block_bits(masked, 128);
            assert forall|j: int| 0 <= j < index implies t[j] == (s[j] == bit) by {
                lemma_wide_not_bit(*self, j as u128);
                if index < 128 {
                    lemma_wide_low_mask_bit(x, index as u128, j as u128);
                } else {
                    assert(x & u128::MAX == x) by (bit_vector);
                }
            }
            assert forall|j: int| index <= j < t.len() implies !t[j] by {
                lemma_wide_low_mask_bit(x, index as u128, j as u128);
            }
            lemma_count_marks(s, t, index as int, bit);
        }
        count_ones_u128(masked)
    }

    fn select(&self, bit: bool, n: usize) -> (r: Result<usize, BitVecError>) {
        let mut cnt: usize = n;
        let mut shift: usize = 0;
        while shift < 128
            invariant
                shift <= 128,
                cnt + rank_of(self.bits(), bit, shift as int) == n,
            decreases 128 - shift,
        {
            proof {
                lemma_rank_step(self.bits(), bit, shift as int);
            }
            let here: bool = (*self >> shift) & 1 == 1;
            if here == bit {
                if cnt == 0 {
                    return Ok(shift);
                }
                cnt -= 1;
            }
            shift += 1;
        }
        proof {
            lemma_rank_full(self.bits(), bit);
        }
        Err(BitVecError::NotFound)
    }

    #[inline]
    fn values(&self) -> (r: u128)
        ensures
            r == *self,
    {
        *self
    }
}

impl StaticBitVec for u32 {
    type Intern = u32;

    /// The word, widened to 64 bits.
    open spec fn bits(&self) -> Seq<bool> {
        block_bits(*self as u64, 64)
    }

    open spec fn valid(&self) -> bool {
        true
    }

    #[inline]
    fn ones(&self) -> (r: usize) {
        (*self as u64).ones()
    }

    #[inline]
    fn access(&self, index: usize) -> (r: bool) {
        (*self as u64).access(index)
    }

    #[inline]
    fn rank(&self, bit: bool, index: usize) -> (r: usize) {
        (*self as u64).rank(bit, index)
    }

    #[inline]
    fn select(&self, bit: bool, n: usize) -> (r: Result<usize, BitVecError>) {
        (*self as u64).select(bit, n)
    }

    #[inline]
    fn values(&self) -> (r: u32)
        ensures
            r == *self,
    {
        *self
    }
}

impl StaticBitVec for u16 {
    type Intern = u16;

    /// The word, widened to 64 bits.
    open spec fn bits(&self) -> Seq<bool> {
        block_bits(*self as u64, 64)
    }

    open spec fn valid(&self) -> bool {
        true
    }

    #[inline]
    fn ones(&self) -> (r: usize) {
        (*self as u64).ones()
    }

    #[inline]
    fn access(&self, index: usize) -> (r: bool) {
        (*self as u64).access(index)
    }

    #[inline]
    fn rank(&self, bit: bool, index: usize) -> (r: usize) {
        (*self as u64).rank(bit, index)
    }

    #[inline]
    fn select(&self, bit: bool, n: usize) -> (r: Result<usize, BitVecError>) {
        (*self as u64).select(bit, n)
    }

    #[inline]
    fn values(&self) -> (r: u16)
        ensures
            r == *self,
    {
        *self
    }
}

impl StaticBitVec for u8 {
    type Intern = u8;

    /// The word, widened to 64 bits.
    open spec fn bits(&self) -> Seq<bool> {
        block_bits(*self as u64, 64)
    }

    open spec fn valid(&self) -> bool {
        true
    }

    #[inline]
    fn ones(&self) -> (r: usize) {
        (*self as u64).ones()
    }

    #[inline]
    fn access(&self, index: usize) -> (r: bool) {
        (*self as u64).access(index)
    }

    #[inline]
    fn rank(&self, bit: bool, index: usize) -> (r: usize) {
        (*self as u64).rank(bit, index)
    }

    #[inline]
    fn select(&self, bit: bool, n: usize) -> (r: Result<usize, BitVecError>) {
        (*self as u64).select(bit, n)
    }

    #[inline]
    fn values(&self) -> (r: u8)
        ensures
            r == *self,
    {
        *self
    }
}

impl StaticBitVec for bool {
    type Intern = bool;

    /// One position, which holds the value.
    open spec fn bits(&self) -> Seq<bool> {
        seq![*self]
    }

    open spec fn valid(&self) -> bool {
        true
    }

    #[inline]
    fn ones(&self) -> (r: usize) {
        proof {
            assert(self.bits().drop_last() =~= Seq::<bool>::empty());
            assert(count(Seq::<bool>::empty(), true) == 0);
        }
        if *self {
            1
        } else {
            0
        }
    }

    #[inline]
    fn access(&self, index: usize) -> (r: bool) {
        *self
    }

    #[inline]
    fn rank(&self, bit: bool, index: usize) -> (r: usize) {
        proof {
            assert(self.bits().take(0) =~= Seq::<bool>::empty());
            assert(self.bits().take(1) =~= self.bits());
            assert(self.bits().drop_last() =~= Seq::<bool>::empty());
            assert(count(Seq::<bool>::empty(), bit) == 0);
        }
        if index == 1 && *self == bit {
            1
        } else {
            0
        }
    }

    #[inline]
    fn select(&self, bit: bool, n: usize) -> (r: Result<usize, BitVecError>) {
        proof {
            assert(self.bits().take(0) =~= Seq::<bool>::empty());
            assert(self.bits().drop_last() =~= Seq::<bool>::empty());
            assert(count(Seq::<bool>::empty(), bit) == 0);
        }
        if n == 0 && *self == bit {
            Ok(0)
        } else {
            Err(BitVecError::NotFound)
        }
    }

    #[inline]
    fn values(&self) -> (r: bool)
        ensures
            r == *self,
    {
        *self
    }
}

} // verus!
