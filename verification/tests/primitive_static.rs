use confertus::{BitVecError, StaticBitVec};

#[test]
fn ones_u64_1() {
    assert_eq!(4u64.ones(), 1);
}

#[test]
fn ones_u64_2() {
    assert_eq!(5u64.ones(), 2);
}

#[test]
fn ones_u64_3() {
    assert_eq!(7u64.ones(), 3);
}

/// Simple intuitive tests for select on u64
#[test]
fn select_u64_simpel() {
    assert_eq!(1u64.select(true, 0).unwrap(), 0);
    assert_eq!(1u64.select(false, 0).unwrap(), 1);
    assert_eq!(2u64.select(true, 0).unwrap(), 1);
    assert_eq!(2u64.select(false, 0).unwrap(), 0);
    assert_eq!(3u64.select(true, 1).unwrap(), 1);
    assert_eq!(3u64.select(false, 1).unwrap(), 3);
    assert_eq!(u64::MAX.select(true, 63).unwrap(), 63);
}

#[test]
fn ones_u128_1() {
    assert_eq!(4u128.ones(), 1);
}

#[test]
fn ones_u128_2() {
    assert_eq!(5u128.ones(), 2);
}

#[test]
fn ones_u128_3() {
    assert_eq!(7u128.ones(), 3);
}

#[test]
fn ones_u128_4() {
    assert_eq!((u128::MAX - 7).ones(), (u128::BITS - 3) as usize);
}

/// Simple intuitive tests for select on u128
#[test]
fn select_u128_simpel() {
    assert_eq!(1u128.select(true, 0).unwrap(), 0);
    assert_eq!(1u128.select(false, 0).unwrap(), 1);
    assert_eq!(2u128.select(true, 0).unwrap(), 1);
    assert_eq!(2u128.select(false, 0).unwrap(), 0);
    assert_eq!(3u128.select(true, 1).unwrap(), 1);
    assert_eq!(3u128.select(false, 1).unwrap(), 3);
    assert_eq!(u128::MAX.select(true, 63).unwrap(), 63);
}

#[test]
fn rank_of_full_and_empty_words() {
    for n in 0..=64usize {
        assert_eq!(u64::MAX.rank(true, n), n);
        assert_eq!(u64::MAX.rank(false, n), 0);
        assert_eq!(0u64.rank(false, n), n);
        assert_eq!(0u64.rank(true, n), 0);
    }
    for n in 0..=128usize {
        assert_eq!(u128::MAX.rank(true, n), n);
        assert_eq!(u128::MAX.rank(false, n), 0);
        assert_eq!(0u128.rank(false, n), n);
        assert_eq!(0u128.rank(true, n), 0);
    }
}

#[test]
fn rank_counts_below_the_index_only() {
    let v: u64 = 0b1011_0110;
    assert_eq!(v.rank(true, 0), 0);
    assert_eq!(v.rank(true, 1), 0);
    assert_eq!(v.rank(true, 3), 2);
    assert_eq!(v.rank(true, 8), 5);
    assert_eq!(v.rank(false, 8), 3);
    assert_eq!(v.rank(true, 64), v.ones());
    assert_eq!(v.rank(false, 64), 64 - v.ones());
    let w: u128 = (1u128 << 100) | 0b101;
    assert_eq!(w.rank(true, 100), 2);
    assert_eq!(w.rank(true, 101), 3);
    assert_eq!(w.rank(false, 128), 125);
}

#[test]
fn access_reads_single_bits() {
    for n in 0..64usize {
        assert!(u64::MAX.access(n));
        assert!(!0u64.access(n));
        assert_eq!((1u64 << 17).access(n), n == 17);
    }
    for n in 0..128usize {
        assert!(u128::MAX.access(n));
        assert!(!0u128.access(n));
        assert_eq!((1u128 << 90).access(n), n == 90);
    }
}

#[test]
fn select_reports_missing_occurrences() {
    assert_eq!(0u64.select(true, 0), Err(BitVecError::NotFound));
    assert_eq!(u64::MAX.select(false, 0), Err(BitVecError::NotFound));
    assert_eq!(5u64.select(true, 2), Err(BitVecError::NotFound));
    assert_eq!(u64::MAX.select(true, 64), Err(BitVecError::NotFound));
    assert_eq!(0u128.select(true, 0), Err(BitVecError::NotFound));
    assert_eq!((1u128 << 127).select(true, 0), Ok(127));
    assert_eq!((1u128 << 127).select(true, 1), Err(BitVecError::NotFound));
}

#[test]
fn narrow_words_are_read_as_wide_ones() {
    assert_eq!(0b1010u8.ones(), 2);
    assert_eq!(0xffffu16.ones(), 16);
    assert_eq!(u32::MAX.rank(true, 40), 32);
    assert_eq!(0b1010u8.select(true, 1), Ok(3));
    assert_eq!(0u8.select(false, 10), Ok(10));
    assert!(0x80u8.access(7));
    assert_eq!(0x80u8.values(), 0x80);
    assert_eq!(true.ones(), 1);
    assert_eq!(false.ones(), 0);
    assert!(true.access(0));
    assert_eq!(true.rank(true, 0), 0);
    assert_eq!(true.rank(true, 1), 1);
    assert_eq!(false.select(false, 0), Ok(0));
    assert!(true.select(false, 0).is_err());
}
