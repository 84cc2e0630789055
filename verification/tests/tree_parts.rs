use confertus::{BitSize, DynBitVec, DynamicBitVector, Leaf, LeafValue, Node, Side, StaticBitVec};

const W: usize = LeafValue::BITS as usize;

fn pushed(n: usize) -> DynamicBitVector {
    let mut d = DynamicBitVector::new();
    for i in 0..n {
        d.push(i % 3 == 0);
    }
    d
}

#[test]
fn empty_vector() {
    let d = DynamicBitVector::new();
    assert_eq!(d.len(), 0);
    assert_eq!(d.nums(), 0);
    assert_eq!(d.ones(), 0);
    assert!(d.is_empty());
    assert_eq!(d.rank(true, 0), 0);
    assert!(d.select(true, 0).is_err());
    assert_eq!(d.validate(), Ok((0, 0)));
}

#[test]
fn get_is_access() {
    let d = pushed(200);
    for i in 0..200 {
        assert_eq!(d.get(i), i % 3 == 0);
        assert_eq!(d.access(i), i % 3 == 0);
    }
}

#[test]
fn full_nums_ones_counts_whole_subtrees() {
    let d = pushed(6 * W);
    assert_eq!(d.full_nums_ones(d.root as isize), (6 * W, 2 * W));
    assert_eq!(d.full_nums_ones(-1), (W, 22));
    let root = d.nodes[d.root];
    let (ln, lo) = d.full_nums_ones(root.left.unwrap());
    assert_eq!((ln, lo), (root.nums, root.ones));
}

#[test]
fn validate_finds_a_wrong_counter() {
    let mut d = pushed(6 * W);
    assert_eq!(d.validate(), Ok((6 * W, 2 * W)));
    d.nodes[3].nums += 1;
    assert_eq!(d.validate(), Err(3));
    d.nodes[3].nums -= 1;
    d.nodes[0].ones = 0;
    assert_eq!(d.validate(), Err(0));
}

#[test]
fn update_left_values_only_recounts_the_left_child() {
    let mut d = pushed(6 * W);
    let root = d.root;
    let left = d.nodes[root].left.unwrap();
    let right = d.nodes[root].right.unwrap();
    let good = d.clone();
    d.nodes[root].nums = 1;
    d.nodes[root].ones = 77;
    assert!(!d.update_left_values_only(root, right));
    assert_eq!(d.nodes[root].nums, 1);
    assert!(d.update_left_values_only(root, left));
    assert_eq!(d, good);
}

#[test]
fn size_in_bits() {
    let d = pushed(6 * W);
    assert_eq!(d.size_bits(), 448 + 7 * 200 + 5 * 325);
    assert_eq!(d.bitsize_full(), d.size_bits());
    assert_eq!(d.bitsize_used(), d.size_bits());
    assert_eq!(d.bitsize(), std::mem::size_of::<DynamicBitVector>());
}

#[test]
fn sides_of_children() {
    let d = pushed(6 * W);
    // root 1 has node 0 on the left and node 3 on the right
    assert_eq!(d.get_node_side(0), Some(Side::Left(1)));
    assert_eq!(d.get_node_side(3), Some(Side::Right(1)));
    assert_eq!(d.get_node_side(1), None);
    assert_eq!(d.get_leaf_side(-1), Side::Left(0));
    assert_eq!(d.get_leaf_side(-2), Side::Right(0));
    assert_eq!(d.get_side(-6), Some(Side::Right(4)));
    assert_eq!(d.get_side(2), Some(Side::Left(3)));
    assert_eq!(d.get_side(1), None);
}

#[test]
fn neighbours_in_bit_order() {
    let d = pushed(6 * W);
    // leaves -1 .. -6 stand in this order
    assert_eq!(d.closest_neighbor_leaf(-1), Some(Side::Right(-2)));
    assert_eq!(d.closest_neighbor_leaf(-2), Some(Side::Left(-1)));
    assert_eq!(d.closest_neighbor_leaf(-3), Some(Side::Right(-4)));
    assert_eq!(d.closest_neighbor_leaf(-6), Some(Side::Left(-5)));
    assert_eq!(d.closest_neighbor_child(0), Some(Side::Right(-3)));
    assert_eq!(d.closest_neighbor_child(3), Some(Side::Left(-2)));
    assert_eq!(d.closest_neighbor_child(4), Some(Side::Left(-4)));
    assert_eq!(d.closest_neighbor_child(1), None);
    let one = pushed(5);
    assert_eq!(one.closest_neighbor_leaf(-1), None);
}

#[test]
fn create_right_leaf_appends_and_links() {
    let mut d = DynamicBitVector::new();
    let id = d.create_right_leaf(0);
    assert_eq!(id, -1);
    assert_eq!(d.nodes[0], Node::create(None, None, Some(-1), 0, 0, 1));
    assert_eq!(d.leafs, vec![Leaf::new(0), Leaf::new(0)]);
}

#[test]
fn split_leaf_puts_a_node_over_two_halves() {
    let mut d = DynamicBitVector::new();
    for i in 0..2 * W {
        d.push(i < W);
    }
    let n = d.split_leaf(-1);
    assert_eq!(n, 1);
    assert_eq!(d.nodes[0].left, Some(1));
    assert_eq!(d.nodes[1], Node::create(Some(0), Some(-1), Some(-3), 32, 32, 0));
    assert_eq!(d.leafs[1], Leaf::create(1, u32::MAX as u64, 32));
    assert_eq!(d.leafs[3], Leaf::create(1, u32::MAX as u64, 32));
    assert_eq!(d.leafs[2], Leaf::create(0, 0, 64));
}

#[test]
fn swap_remove_keeps_names_right() {
    let mut d = pushed(6 * W);
    // take leaf -2 out of the arena: leaf -6 moves into its slot
    d.swap_remove_leaf(-2);
    assert_eq!(d.leafs.len(), 6);
    assert_eq!(d.leafs[2].parent, 4);
    assert_eq!(d.nodes[4].right, Some(-2));
    // take node 0 out of the arena: node 4 moves to index 0
    d.swap_remove_node(0);
    assert_eq!(d.nodes.len(), 4);
    assert_eq!(d.nodes[3].right, Some(0));
    assert_eq!(d.nodes[0].parent, Some(3));
    assert_eq!(d.leafs[5].parent, 0);
    assert_eq!(d.leafs[2].parent, 0);
    // the last of each needs no moving
    let mut e = pushed(6 * W);
    let before = e.clone();
    e.swap_remove_leaf(-6);
    e.swap_remove_node(4);
    assert_eq!(e.leafs[..], before.leafs[..6]);
    assert_eq!(e.nodes[..], before.nodes[..4]);
    assert_eq!(e.root, before.root);
}

#[test]
fn set_parent_names_the_new_parent() {
    let mut d = pushed(6 * W);
    d.set_parent(-1, 4);
    d.set_parent(0, 2);
    assert_eq!(d.leafs[1].parent, 4);
    assert_eq!(d.nodes[0].parent, Some(2));
}

#[test]
fn rebalance_by_double_rotation() {
    let m = LeafValue::MAX;
    let b = W as u8;
    // x = node 0 with a leaf on the left and z = node 1 on the right; z leans to the
    // left, where y = node 2 stands over two leaves
    let mut d = DynamicBitVector {
        root: 0,
        nodes: vec![
            Node::create(None, Some(-1), Some(1), W, W, 2),
            Node::create(Some(0), Some(2), Some(-4), 2 * W, 2 * W, -1),
            Node::create(Some(1), Some(-2), Some(-3), W, W, 0),
        ],
        leafs: vec![
            Leaf::new(0),
            Leaf::create(0, m, b),
            Leaf::create(2, m, b),
            Leaf::create(2, m, b),
            Leaf::create(1, m, b),
        ],
    };
    let before = d.clone();
    d.rebalance(1, 0);
    assert_eq!(d.root, 2);
    assert_eq!(d.nodes[2], Node::create(None, Some(0), Some(1), 2 * W, 2 * W, 0));
    assert_eq!(d.nodes[0], Node::create(Some(2), Some(-1), Some(-2), W, W, 0));
    assert_eq!(d.nodes[1], Node::create(Some(2), Some(-3), Some(-4), W, W, 0));
    assert_eq!(d.leafs[2].parent, 0);
    assert_eq!(d.leafs[3].parent, 1);
    assert_eq!(d.validate(), Ok((4 * W, 4 * W)));
    let mut e = before;
    e.rebalance_no_child(0);
    assert_eq!(e, d);
}

#[test]
fn the_vector_as_a_bit_container() {
    let mut d = DynamicBitVector::new();
    for i in 0..3 * W {
        d.push(i % 2 == 0 || i >= 2 * W);
    }
    d.insert(0, false).unwrap();
    let even = 0x5555_5555_5555_5555u64;
    assert_eq!(StaticBitVec::values(&d), vec![(even & 0xffff_ffff) << 1, even >> 32, even, LeafValue::MAX]);
    assert_eq!(StaticBitVec::ones(&d), 2 * W);
    assert_eq!(StaticBitVec::rank(&d, true, 3), 1);
    assert_eq!(StaticBitVec::select(&d, true, 0), Ok(1));
    assert!(!StaticBitVec::access(&d, 0));
    assert_eq!(StaticBitVec::values(&DynamicBitVector::new()), Vec::<LeafValue>::new());
}

#[test]
fn apply_calls_at_the_leaf_of_the_position() {
    let d = pushed(6 * W);
    // position 200 is bit 8 of the fourth leaf
    assert_eq!(d.apply(|_, leaf, i| (leaf, i), 200), (-4, 8));
    assert_eq!(d.apply(|_, leaf, i| (leaf, i), 0), (-1, 0));
    // past the end the descent keeps to the right
    assert_eq!(d.apply(|_, leaf, i| (leaf, i), 6 * W), (-6, W));
    let mut e = DynamicBitVector::new();
    for i in 0..300 {
        e.push(i % 7 == 0);
    }
    for i in 0..300 {
        assert_eq!(e.apply(|v, leaf, at| v.leafs[(-leaf) as usize].access(at), i), i % 7 == 0);
    }
}

#[test]
fn apply_bitop_sums_along_the_way() {
    let mut d = DynamicBitVector::new();
    for i in 0..6 * W {
        d.push(i % 3 == 0);
    }
    // the length, as the bits on the left of each node on the way to the end and the
    // bits of the last leaf
    let len = d.apply_bitop(
        |v, leaf, _, _| v.leafs[(-leaf) as usize].nums as usize,
        |v, node, _| v.nodes[node].nums,
        usize::MAX,
        false,
    );
    assert_eq!(len, d.len());
    // the number of ones before a position
    for i in [0usize, 1, 63, 64, 65, 200, 383, 384] {
        let ones = d.apply_bitop(
            |v, leaf, at, bit| v.leafs[(-leaf) as usize].rank(bit, at),
            |v, node, left| if left { 0 } else { v.nodes[node].ones },
            i,
            true,
        );
        assert_eq!(ones, d.rank(true, i));
        assert_eq!(ones, (i + 2) / 3);
    }
}

fn fill_through_the_trait<T: DynBitVec>(t: &mut T, n: usize) {
    for i in 0..n {
        DynBitVec::insert(t, i, i % 2 == 0).unwrap();
    }
}

#[test]
fn the_vector_as_an_editable_container() {
    let mut d = DynamicBitVector::new();
    fill_through_the_trait(&mut d, 200);
    assert_eq!(DynBitVec::len(&d), 200);
    assert_eq!(DynBitVec::nums(&d), 200);
    assert!(!DynBitVec::is_empty(&d));
    assert_eq!(StaticBitVec::ones(&d), 100);
    DynBitVec::flip(&mut d, 1);
    assert!(d.access(1));
    assert_eq!(DynBitVec::delete(&mut d, 0), Ok(()));
    assert_eq!(DynBitVec::len(&d), 199);
    assert!(DynBitVec::delete(&mut d, 199).is_err());
    assert!(DynBitVec::insert(&mut d, 201, true).is_err());
    let mut l = Leaf::new(0);
    fill_through_the_trait(&mut l, 64);
    assert_eq!(DynBitVec::len(&l), 64);
}

#[test]
fn rebalance_keeps_every_leaf_as_it_is() {
    let mut d = DynamicBitVector {
        root: 0,
        nodes: vec![
            Node::create(None, Some(-1), Some(1), 64, 64, 2),
            Node::create(Some(0), Some(2), Some(-4), 88, 8, -1),
            Node::create(Some(1), Some(-2), Some(-3), 40, 0, 0),
        ],
        leafs: vec![
            Leaf::new(0),
            Leaf::create(0, u64::MAX, 64),
            Leaf::create(2, 0, 40),
            Leaf::create(2, 0xFF, 48),
            Leaf::create(1, 0, 50),
        ],
    };
    d.rebalance(1, 0);
    assert_eq!(d.root, 2);
    assert_eq!(
        d.nodes,
        vec![
            Node::create(Some(2), Some(-1), Some(-2), 64, 64, 0),
            Node::create(Some(2), Some(-3), Some(-4), 48, 8, 0),
            Node::create(None, Some(0), Some(1), 104, 64, 0),
        ]
    );
    assert_eq!(
        d.leafs,
        vec![
            Leaf::new(0),
            Leaf::create(0, u64::MAX, 64),
            Leaf::create(0, 0, 40),
            Leaf::create(1, 0xFF, 48),
            Leaf::create(1, 0, 50),
        ]
    );
}
