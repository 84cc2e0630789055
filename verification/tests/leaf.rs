use confertus::{BitVecError, DynBitVec, Leaf, LeafValue, Side, StaticBitVec};
use rand::Rng;

#[test]
fn tests_creation() {
    let l = Leaf::new(0);
    assert_eq!(
        l,
        Leaf {
            parent: 0,
            value: 0,
            nums: 0
        }
    );
}

#[test]
fn push_0() {
    let mut l = Leaf::new(0);
    l.push(false).unwrap();
    l.push(false).unwrap();
    l.push(false).unwrap();
    l.push(false).unwrap();
    assert_eq!(
        l,
        Leaf {
            parent: 0,
            value: 0,
            nums: 4
        }
    );
}

#[test]
fn push_1() {
    let mut l = Leaf::new(0);
    l.push(true).unwrap();
    l.push(true).unwrap();
    l.push(true).unwrap();
    l.push(true).unwrap();
    assert_eq!(
        l,
        Leaf {
            parent: 0,
            value: 15,
            nums: 4
        }
    );
}

#[test]
fn push_all_0() {
    let mut l = Leaf::new(0);
    for _ in 0..LeafValue::BITS {
        l.push(false).unwrap();
    }
    assert_eq!(
        l,
        Leaf {
            parent: 0,
            value: 0,
            nums: LeafValue::BITS as u8
        }
    );
}

#[test]
fn push_all_1() {
    let mut l = Leaf::new(0);
    for _ in 0..LeafValue::BITS {
        l.push(true).unwrap();
    }
    assert_eq!(
        l,
        Leaf {
            parent: 0,
            value: LeafValue::MAX,
            nums: LeafValue::BITS as u8
        }
    );
}

#[test]
fn tests_insert_0() {
    let mut l = Leaf::new(0);
    l.insert(0, false).unwrap();
    l.insert(0, false).unwrap();
    l.insert(0, false).unwrap();
    l.insert(0, false).unwrap();
    assert_eq!(
        l,
        Leaf {
            parent: 0,
            value: 0,
            nums: 4
        }
    );
}

#[test]
fn tests_insert_1() {
    let mut l = Leaf::new(0);
    l.insert(0, true).unwrap();
    l.insert(0, true).unwrap();
    l.insert(0, true).unwrap();
    l.insert(0, true).unwrap();
    assert_eq!(
        l,
        Leaf {
            parent: 0,
            value: 15,
            nums: 4
        }
    );
}

#[test]
fn insert_all_0() {
    let mut l = Leaf::new(0);
    for _ in 0..LeafValue::BITS {
        l.insert(0, false).unwrap();
    }
    assert_eq!(
        l,
        Leaf {
            parent: 0,
            value: 0,
            nums: LeafValue::BITS as u8
        }
    );
}

#[test]
fn insert_all_1() {
    let mut l = Leaf::new(0);
    for _ in 0..LeafValue::BITS {
        l.insert(0, true).unwrap();
    }
    assert_eq!(
        l,
        Leaf {
            parent: 0,
            value: LeafValue::MAX,
            nums: LeafValue::BITS as u8
        }
    );
}

/// Insert random bits at random positions.
#[test]
fn insert_all_random_1() {
    let mut rng = rand::thread_rng();
    let mut l = Leaf::create(0, 0, 0);

    for _ in 0..LeafValue::BITS {
        let i = rng.gen_range(0..(l.nums + 1));
        let bit = rng.gen_bool(0.5);
        l.insert(i as usize, bit).unwrap();
    }
}

#[test]
fn delete_0() {
    let mut l = Leaf::create(0, 0, 4);
    l.delete(0).unwrap();
    l.delete(0).unwrap();
    l.delete(0).unwrap();
    l.delete(0).unwrap();
    assert_eq!(
        l,
        Leaf {
            parent: 0,
            value: 0,
            nums: 0
        }
    );
}

#[test]
fn delete_1() {
    let mut l = Leaf::create(0, 15, 4);
    l.delete(0).unwrap();
    l.delete(0).unwrap();
    l.delete(0).unwrap();
    l.delete(0).unwrap();
    assert_eq!(
        l,
        Leaf {
            parent: 0,
            value: 0,
            nums: 0
        }
    );
}

#[test]
fn delete_2() {
    let mut l = Leaf::create(0, 15, 4);
    l.delete(2).unwrap();
    l.delete(1).unwrap();
    assert_eq!(
        l,
        Leaf {
            parent: 0,
            value: 3,
            nums: 2
        }
    );
}

#[test]
fn delete_all_1() {
    let mut l = Leaf::create(0, LeafValue::MAX, LeafValue::BITS as u8);
    for _ in 0..LeafValue::BITS {
        l.delete(0).unwrap();
    }
    assert_eq!(
        l,
        Leaf {
            parent: 0,
            value: 0,
            nums: 0,
        }
    );
}

#[test]
fn delete_all_0() {
    let mut l = Leaf::create(0, 0, LeafValue::BITS as u8);
    for _ in 0..LeafValue::BITS {
        l.delete(0).unwrap();
    }
    assert_eq!(
        l,
        Leaf {
            parent: 0,
            value: 0,
            nums: 0,
        }
    );
}

#[test]
fn delete_all_reverse() {
    let mut l = Leaf::create(0, LeafValue::MAX, LeafValue::BITS as u8);
    for i in (0..LeafValue::BITS).rev() {
        l.delete(i as usize).unwrap();
    }
    assert_eq!(
        l,
        Leaf {
            parent: 0,
            value: 0,
            nums: 0,
        }
    );
}

#[test]
fn delete_all_random_1() {
    let mut l = Leaf::create(0, LeafValue::MAX, LeafValue::BITS as u8);
    let mut rng = rand::thread_rng();

    for _ in 0..LeafValue::BITS {
        let i = rng.gen_range(0..l.nums);
        l.delete(i as usize).unwrap();
    }
    assert_eq!(
        l,
        Leaf {
            parent: 0,
            value: 0,
            nums: 0,
        }
    );
}

#[test]
fn delete_all_random_2() {
    let mut rng = rand::thread_rng();
    let mut l = Leaf::create(0, rng.gen_range(0..LeafValue::MAX), LeafValue::BITS as u8);

    for _ in 0..LeafValue::BITS {
        let i = rng.gen_range(0..l.nums);
        l.delete(i as usize).unwrap();
    }
    assert_eq!(
        l,
        Leaf {
            parent: 0,
            value: 0,
            nums: 0,
        }
    );
}

#[test]
#[should_panic]
fn delete_nonexisting() {
    let mut l = Leaf::new(0);
    l.delete(0).unwrap();
}

#[test]
fn flip_0() {
    let mut l = Leaf::new(0);
    l.flip(0);
    assert_eq!(
        l,
        Leaf {
            parent: 0,
            value: 1,
            nums: 0,
        }
    );
}

#[test]
fn flip_1() {
    let mut l = Leaf::create(0, 1, 1);
    l.flip(0);
    assert_eq!(
        l,
        Leaf {
            parent: 0,
            value: 0,
            nums: 1,
        }
    );
}

#[test]
fn push_to_full_leaf_fails() {
    let mut l = Leaf::create(3, LeafValue::MAX, 64);
    assert_eq!(l.push(true), Err(BitVecError::Full));
    assert_eq!(l, Leaf::create(3, LeafValue::MAX, 64));
}

#[test]
fn insert_errors() {
    let mut l = Leaf::create(0, 0b101, 3);
    assert_eq!(l.insert(4, true), Err(BitVecError::OutOfBounds));
    assert_eq!(l, Leaf::create(0, 0b101, 3));
    let mut f = Leaf::create(0, 7, 64);
    assert_eq!(f.insert(3, true), Err(BitVecError::Full));
    assert_eq!(f.insert(65, true), Err(BitVecError::OutOfBounds));
    assert_eq!(f, Leaf::create(0, 7, 64));
}

#[test]
fn delete_errors() {
    let mut e = Leaf::new(0);
    assert_eq!(e.delete(0), Err(BitVecError::Empty));
    let mut l = Leaf::create(0, 0b101, 3);
    assert_eq!(l.delete(3), Err(BitVecError::OutOfBounds));
    assert_eq!(l, Leaf::create(0, 0b101, 3));
}

#[test]
fn insert_in_the_middle_shifts_the_upper_bits() {
    let mut l = Leaf::create(0, 0b1011, 4);
    l.insert(2, false).unwrap();
    assert_eq!(l, Leaf::create(0, 0b10011, 5));
    l.insert(5, true).unwrap();
    assert_eq!(l, Leaf::create(0, 0b110011, 6));
    l.insert(0, true).unwrap();
    assert_eq!(l, Leaf::create(0, 0b1100111, 7));
}

#[test]
fn delete_in_the_middle_shifts_the_upper_bits() {
    let mut l = Leaf::create(0, 0b110101, 6);
    l.delete(1).unwrap();
    assert_eq!(l, Leaf::create(0, 0b11011, 5));
    l.delete(4).unwrap();
    assert_eq!(l, Leaf::create(0, 0b1011, 4));
    let mut f = Leaf::create(0, 1u64 << 63, 64);
    f.delete(0).unwrap();
    assert_eq!(f, Leaf::create(0, 1u64 << 62, 63));
}

#[test]
fn split_to_right_hands_out_the_upper_bits() {
    let mut l = Leaf::create(9, 0xdead_beef_0123_4567, 64);
    let upper = l.split_to_right();
    assert_eq!(upper, 0xdead_beef);
    assert_eq!(l, Leaf::create(9, 0x0123_4567, 32));
    let mut s = Leaf::create(9, 0x1f_0000_0001, 37);
    assert_eq!(s.split_to_right(), 0x1f);
    assert_eq!(s, Leaf::create(9, 1, 32));
}

#[test]
fn split_to_left_hands_out_the_lower_bits() {
    let mut l = Leaf::create(9, 0xdead_beef_0123_4567, 64);
    let lower = l.split_to_left();
    assert_eq!(lower, 0x0123_4567);
    assert_eq!(l, Leaf::create(9, 0xdead_beef, 32));
    let mut s = Leaf::create(9, 0x1f_0000_0001, 37);
    assert_eq!(s.split_to_left(), 1);
    assert_eq!(s, Leaf::create(9, 0x1f, 5));
}

#[test]
fn extend_from_appends() {
    let mut l = Leaf::create(1, 0b101, 3);
    l.extend_from(&Leaf::create(7, 0b11, 2));
    assert_eq!(l, Leaf::create(1, 0b11101, 5));
    l.extend_from(&Leaf::new(0));
    assert_eq!(l, Leaf::create(1, 0b11101, 5));
    let mut e = Leaf::new(4);
    e.extend_from(&Leaf::create(0, LeafValue::MAX, 64));
    assert_eq!(e, Leaf::create(4, LeafValue::MAX, 64));
}

#[test]
fn prepend_puts_in_front() {
    let mut l = Leaf::create(1, 0b101, 3);
    l.prepend(&Leaf::create(7, 0b10, 2));
    assert_eq!(l, Leaf::create(1, 0b10110, 5));
    l.prepend(&Leaf::new(0));
    assert_eq!(l, Leaf::create(1, 0b10110, 5));
    let mut e = Leaf::new(4);
    e.prepend(&Leaf::create(0, LeafValue::MAX, 64));
    assert_eq!(e, Leaf::create(4, LeafValue::MAX, 64));
}

#[test]
fn extend_goes_by_the_side() {
    let mut l = Leaf::create(1, 0b1, 1);
    l.extend(Side::Right(0b10), 2);
    assert_eq!(l, Leaf::create(1, 0b101, 3));
    l.extend(Side::Left(0b0), 1);
    assert_eq!(l, Leaf::create(1, 0b1010, 4));
    assert_eq!(Side::Left(5usize).into_inner(), 5);
    assert!(Side::Left(5usize).is_left());
    assert!(!Side::Right(5usize).is_left());
}

#[test]
fn leaf_queries() {
    let l = Leaf::create(0, 0b0110_1001, 8);
    assert_eq!(l.ones(), 4);
    assert_eq!(l.nums(), 8);
    assert_eq!(l.len(), 8);
    assert!(!l.is_empty());
    assert!(Leaf::new(0).is_empty());
    assert!(l.access(0));
    assert!(!l.access(1));
    assert_eq!(l.rank(true, 4), 2);
    assert_eq!(l.rank(false, 8), 4);
    assert_eq!(l.select(true, 3), Ok(6));
    assert_eq!(l.select(true, 4), Err(BitVecError::NotFound));
    assert_eq!(l.select(false, 3), Ok(7));
    // the zeros beyond the length are no bits of the leaf
    assert_eq!(l.select(false, 4), Err(BitVecError::NotFound));
    assert_eq!(l.values(), 0b0110_1001);
}

#[test]
fn unchecked_edits() {
    let mut l = Leaf::create(0, 0b11, 2);
    l.push_unchecked(true);
    assert_eq!(l, Leaf::create(0, 0b111, 3));
    l.insert_unchecked(1, false);
    assert_eq!(l, Leaf::create(0, 0b1101, 4));
    l.delete_unchecked(0);
    assert_eq!(l, Leaf::create(0, 0b110, 3));
}
