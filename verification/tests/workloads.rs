use confertus::{BitVecError, DynamicBitVector, Leaf, LeafValue, Node};
use rand::rngs::StdRng;
use rand::{Rng, SeedableRng};

const W: usize = LeafValue::BITS as usize;

/// Checks by a walk over the whole tree that parents and children name each other, that
/// every node counts the bits and one-bits under its left child, that every rank is the
/// difference of the heights and at most one in size, and that no leaf has a bit set
/// beyond its length. Returns the bits, the one-bits and the height under `child`.
fn check_subtree(d: &DynamicBitVector, child: isize, parent: Option<usize>) -> (usize, usize, i64) {
    if child >= 0 {
        let n = &d.nodes[child as usize];
        assert_eq!(n.parent, parent);
        let (ln, lo, lh) = match n.left {
            Some(l) => check_subtree(d, l, Some(child as usize)),
            None => (0, 0, 0),
        };
        let (rn, ro, rh) = match n.right {
            Some(r) => check_subtree(d, r, Some(child as usize)),
            None => (0, 0, 0),
        };
        assert_eq!(n.nums, ln);
        assert_eq!(n.ones, lo);
        assert_eq!(n.rank as i64, rh - lh);
        assert!(n.rank.abs() <= 1);
        (ln + rn, lo + ro, 1 + lh.max(rh))
    } else {
        let l = &d.leafs[(-child) as usize];
        assert_eq!(Some(l.parent), parent);
        assert!(l.nums as usize <= W);
        if (l.nums as usize) < W {
            assert_eq!(l.value >> l.nums, 0);
        }
        (l.nums as usize, l.value.count_ones() as usize, 1)
    }
}

fn check_tree(d: &DynamicBitVector) -> i64 {
    let (n, o, h) = check_subtree(d, d.root as isize, None);
    assert_eq!(n, d.len());
    assert_eq!(o, d.ones());
    h
}

fn count_entries(d: &DynamicBitVector, child: isize) -> (usize, usize) {
    if child >= 0 {
        let n = &d.nodes[child as usize];
        let (ln, ll) = n.left.map_or((0, 0), |l| count_entries(d, l));
        let (rn, rl) = n.right.map_or((0, 0), |r| count_entries(d, r));
        (1 + ln + rn, ll + rl)
    } else {
        (0, 1)
    }
}

#[test]
fn grow_by_push_forms_six_leaves() {
    let mut d = DynamicBitVector::new();
    for _ in 0..6 * W {
        d.push(true);
    }
    let root = &d.nodes[d.root];
    assert_eq!(root.nums, 2 * W);
    assert_eq!(root.ones, 2 * W);
    // three levels of nodes over the level of the leaves
    assert_eq!(check_tree(&d) - 1, 3);
    assert_eq!(d.nodes.len(), 5);
    assert_eq!(d.leafs.len(), 7);
    assert!(d.leafs[1..].iter().all(|l| l.nums as usize == W && l.value == LeafValue::MAX));
    assert_eq!(count_entries(&d, d.root as isize), (5, 6));
    assert_eq!(d.len(), 384);
    assert_eq!(d.ones(), 384);
    assert_eq!(d.rank(true, 384), 384);
    assert_eq!(d.rank(false, 384), 0);
}

#[test]
fn insert_at_front_splits() {
    let mut d = DynamicBitVector::new();
    for _ in 0..W + 1 {
        d.insert(0, true).unwrap();
    }
    let root = d.nodes[d.root];
    assert_eq!(d.nodes.len(), 1);
    assert_eq!(d.leafs[(-root.right.unwrap()) as usize], Leaf::create(d.root, (1u64 << 32) - 1, 32));
    assert_eq!(d.leafs[(-root.left.unwrap()) as usize], Leaf::create(d.root, (1u64 << 33) - 1, 33));
    assert_eq!(d.len(), 65);
    assert_eq!(d.ones(), 65);
    assert!(d.access(0));
    assert!(d.access(64));
    check_tree(&d);
}

#[test]
fn insert_at_tail_alternates() {
    let mut d = DynamicBitVector::new();
    for i in 0..2 * W {
        d.insert(i, i % 2 == 0).unwrap();
    }
    for i in 0..2 * W {
        assert_eq!(d.access(i), i % 2 == 0);
    }
    assert_eq!(d.rank(true, 2 * W), W);
    assert_eq!(d.select(true, 0), Ok(0));
    assert_eq!(d.select(false, 0), Ok(1));
    check_tree(&d);
}

#[test]
fn delete_steals_from_the_right_leaf() {
    let mut d = DynamicBitVector::new();
    for _ in 0..2 * W {
        d.push(true);
    }
    for i in (0..W).rev() {
        d.delete(i).unwrap();
        check_tree(&d);
        assert_eq!(d.len(), W + i);
        assert_eq!(d.ones(), W + i);
    }
    // the left leaf fell to 16 bits once, and took 32 from its full neighbour
    assert_eq!(d.leafs.len(), 3);
    assert_eq!(d.leafs[1].nums, 32);
    assert_eq!(d.leafs[2].nums, 32);
    assert_eq!(d.len(), W);
    for i in 0..W {
        assert!(d.access(i));
    }
}

#[test]
fn delete_merges_into_one_leaf() {
    let mut d = DynamicBitVector::new();
    for _ in 0..W + 8 {
        d.push(true);
    }
    assert_eq!(d.leafs.len(), 3);
    // the right leaf holds eight bits: one deletion there and it joins the left one
    for _ in 0..W / 2 {
        d.delete(0).unwrap();
    }
    check_tree(&d);
    assert_eq!(d.leafs.len(), 3);
    d.delete(W / 2 + 7).unwrap();
    check_tree(&d);
    assert_eq!(d.leafs.len(), 2);
    assert_eq!(d.nodes.len(), 1);
    assert_eq!(d.leafs[1].nums as usize, W / 2 + 7);
    assert_eq!(d.len(), W / 2 + 7);
    assert_eq!(d.ones(), W / 2 + 7);
}

#[test]
fn random_workload_agrees_with_plain_vector() {
    let mut rng = StdRng::seed_from_u64(1);
    let mut d = DynamicBitVector::new();
    let mut v: Vec<bool> = Vec::new();
    for step in 0..10_000 {
        let op = if v.is_empty() { 0 } else { rng.gen_range(0..5) };
        match op {
            0 => {
                let i = rng.gen_range(0..=v.len());
                let b = rng.gen_bool(0.5);
                d.insert(i, b).unwrap();
                v.insert(i, b);
            }
            1 => {
                let i = rng.gen_range(0..v.len());
                d.delete(i).unwrap();
                v.remove(i);
            }
            2 => {
                let i = rng.gen_range(0..v.len());
                d.flip(i).unwrap();
                v[i] = !v[i];
            }
            3 => {
                let i = rng.gen_range(0..=v.len());
                let b = rng.gen_bool(0.5);
                assert_eq!(d.rank(b, i), v[..i].iter().filter(|&&x| x == b).count());
            }
            _ => {
                let b = rng.gen_bool(0.5);
                let total = v.iter().filter(|&&x| x == b).count();
                let n = rng.gen_range(0..=total);
                let want = v
                    .iter()
                    .enumerate()
                    .filter(|(_, &x)| x == b)
                    .nth(n)
                    .map(|(i, _)| i)
                    .ok_or(BitVecError::NotFound);
                assert_eq!(d.select(b, n), want);
            }
        }
        assert_eq!(d.len(), v.len());
        if step % 97 == 0 {
            check_tree(&d);
            for (i, &b) in v.iter().enumerate() {
                assert_eq!(d.access(i), b);
            }
        }
    }
    check_tree(&d);
}

#[test]
fn grow_and_shrink_keeps_arenas_tight() {
    let mut d = DynamicBitVector::new();
    for i in 0..40 * W {
        d.insert(i / 2, i % 3 == 0).unwrap();
    }
    check_tree(&d);
    let (nodes, leaves) = count_entries(&d, d.root as isize);
    assert_eq!(nodes, d.nodes.len());
    assert_eq!(leaves + 1, d.leafs.len());
    let mut left = d.len();
    while left > 0 {
        d.delete((left * 7 / 11) % left).unwrap();
        left -= 1;
        if left % 61 == 0 {
            check_tree(&d);
            let (nodes, leaves) = count_entries(&d, d.root as isize);
            assert_eq!(nodes, d.nodes.len());
            assert_eq!(leaves + 1, d.leafs.len());
        }
    }
    assert_eq!(d.len(), 0);
    assert!(d.is_empty());
    assert_eq!(d.nodes.len(), 1);
}

#[test]
fn rotation_of_three_full_leaves() {
    let m = LeafValue::MAX;
    let b = W as u8;
    let mut d = DynamicBitVector {
        root: 0,
        nodes: vec![
            Node::create(None, Some(-1), Some(1), W, W, 2),
            Node::create(Some(0), Some(-2), Some(2), W, W, 1),
            Node::create(Some(1), Some(-3), None, W, W, -1),
        ],
        leafs: vec![
            Leaf::new(0),
            Leaf::create(0, m, b),
            Leaf::create(1, m, b),
            Leaf::create(2, m, b),
        ],
    };
    d.rotate_left(1, 0);
    assert_eq!(d.root, 1);
    assert_eq!(d.nodes[1].rank, 0);
    assert_eq!(d.nodes[1].left, Some(0));
    assert_eq!(d.nodes[0].rank, 0);
    assert_eq!(d.nodes[0].parent, Some(1));
    assert_eq!(d.nodes[1].nums, 2 * W);
    assert_eq!(d.nodes[1].ones, 2 * W);
}

#[test]
fn out_of_bounds_is_reported_and_changes_nothing() {
    let mut d = DynamicBitVector::new();
    for i in 0..100 {
        d.push(i % 3 == 0);
    }
    let before = d.clone();
    assert_eq!(d.insert(101, true), Err(BitVecError::OutOfBounds));
    assert_eq!(d.delete(100), Err(BitVecError::OutOfBounds));
    assert_eq!(d.flip(100), Err(BitVecError::OutOfBounds));
    assert_eq!(d, before);
    assert_eq!(d.insert(100, true), Ok(()));
    assert_eq!(d.len(), 101);
}

#[test]
fn select_inverts_rank() {
    let mut d = DynamicBitVector::new();
    for i in 0..1000usize {
        d.push(i % 7 == 0 || i % 5 == 3);
    }
    for b in [false, true] {
        let total = d.rank(b, d.len());
        for n in 0..total {
            let p = d.select(b, n).unwrap();
            assert_eq!(d.rank(b, p), n);
            assert_eq!(d.access(p), b);
        }
        assert_eq!(d.select(b, total), Err(BitVecError::NotFound));
    }
    assert_eq!(d.rank(true, d.len()) + d.rank(false, d.len()), d.len());
}

#[test]
fn flip_twice_restores() {
    let mut d = DynamicBitVector::new();
    for i in 0..300usize {
        d.push(i % 4 == 1);
    }
    let before = d.clone();
    for i in [0usize, 63, 64, 127, 128, 299] {
        let bit = d.access(i);
        d.flip(i).unwrap();
        assert_eq!(d.access(i), !bit);
        assert_eq!(d.ones() + usize::from(bit), before.ones() + usize::from(!bit));
        check_tree(&d);
        d.flip(i).unwrap();
        assert_eq!(d, before);
    }
}

fn bits_of(d: &DynamicBitVector) -> Vec<bool> {
    (0..d.len()).map(|i| d.access(i)).collect()
}

#[test]
fn retrace_takes_up_growth_at_the_parent() {
    let m = LeafValue::MAX;
    let b = W as u8;
    // node 1 has just taken the place of a leaf under the root, whose rank still says
    // that both its subtrees are leaves
    let mut d = DynamicBitVector {
        root: 0,
        nodes: vec![
            Node::create(None, Some(-1), Some(1), W, W, 0),
            Node::create(Some(0), Some(-2), Some(-3), W, W, 0),
        ],
        leafs: vec![
            Leaf::new(0),
            Leaf::create(0, m, b),
            Leaf::create(1, m, b),
            Leaf::create(1, m, b),
        ],
    };
    d.retrace(1, 1);
    assert_eq!(d.nodes[0].rank, 1);
    assert_eq!(d.root, 0);
    assert_eq!(check_tree(&d), 3);
    assert_eq!(d.len(), 3 * W);
}

#[test]
fn retrace_rebalances_where_the_rank_gets_to_two() {
    let m = LeafValue::MAX;
    let b = W as u8;
    // node 2 has just taken the place of the right leaf of node 1; the ranks of node 1
    // and of the root still belong to the tree of three leaves
    let mut d = DynamicBitVector {
        root: 0,
        nodes: vec![
            Node::create(None, Some(-1), Some(1), W, W, 1),
            Node::create(Some(0), Some(-2), Some(2), W, W, 0),
            Node::create(Some(1), Some(-3), Some(-4), W, W, 0),
        ],
        leafs: vec![
            Leaf::new(0),
            Leaf::create(0, m, b),
            Leaf::create(1, m, b),
            Leaf::create(2, m, b),
            Leaf::create(2, m, b),
        ],
    };
    d.retrace(2, 1);
    assert_eq!(d.root, 1);
    assert_eq!(d.nodes[1], Node::create(None, Some(0), Some(2), 2 * W, 2 * W, 0));
    assert_eq!(d.nodes[0], Node::create(Some(1), Some(-1), Some(-2), W, W, 0));
    assert_eq!(check_tree(&d), 3);
    assert_eq!(d.len(), 4 * W);
}

#[test]
fn retrace_takes_up_shrinking() {
    let m = LeafValue::MAX;
    let b = W as u8;
    // both subtrees of the root are nodes over two leaves; the rank of the root still
    // says that the right one is higher by a level, as it was before it lost one
    let mut d = DynamicBitVector {
        root: 0,
        nodes: vec![
            Node::create(None, Some(1), Some(2), 2 * W, 2 * W, 1),
            Node::create(Some(0), Some(-1), Some(-2), W, W, 0),
            Node::create(Some(0), Some(-3), Some(-4), W, W, 0),
        ],
        leafs: vec![
            Leaf::new(0),
            Leaf::create(1, m, b),
            Leaf::create(1, m, b),
            Leaf::create(2, m, b),
            Leaf::create(2, m, b),
        ],
    };
    d.retrace(2, -1);
    assert_eq!(d.nodes[0].rank, 0);
    assert_eq!(check_tree(&d), 3);
    assert_eq!(d.len(), 4 * W);
}

#[test]
fn update_left_values_recounts_up_the_left_chain() {
    let mut d = DynamicBitVector::new();
    for i in 0..6 * W {
        d.push(i % 3 == 0);
    }
    let good = d.clone();
    // leaf -1 is the left child of node 0, which is the left child of the root
    d.nodes[0].nums = 3;
    d.nodes[0].ones = 99;
    d.nodes[1].nums = 0;
    d.nodes[1].ones = 1;
    d.update_left_values(0, -1);
    assert_eq!(d, good);
    // leaf -2 is a right child: the walk ends at once
    d.nodes[1].nums = 5;
    d.update_left_values(0, -2);
    assert_eq!(d.nodes[1].nums, 5);
    // from node 0 the walk takes in the root
    d.update_left_values(1, 0);
    assert_eq!(d, good);
}

#[test]
fn merge_away_steals_from_a_full_neighbour() {
    let mut d = DynamicBitVector::new();
    for i in 0..6 * W + 1 {
        d.push(i % 5 == 0);
    }
    let before = bits_of(&d);
    assert_eq!(d.leafs.len(), 8);
    assert_eq!(d.leafs[7].nums, 1);
    d.merge_away(-7);
    check_tree(&d);
    assert_eq!(bits_of(&d), before);
    assert_eq!(d.leafs.len(), 8);
    assert_eq!(d.leafs[7].nums, 33);
    assert_eq!(d.leafs[6].nums, 32);
}

#[test]
fn merge_away_joins_and_rebalances() {
    let mut d = DynamicBitVector::new();
    for i in 0..6 * W + 1 {
        d.push(i % 5 == 0);
    }
    // thin out the leaf before the last one
    for _ in 0..20 {
        d.delete(5 * W).unwrap();
    }
    let before = bits_of(&d);
    let (leaves, nodes) = (d.leafs.len(), d.nodes.len());
    assert_eq!(d.leafs[6].nums, 44);
    d.merge_away(-7);
    check_tree(&d);
    assert_eq!(bits_of(&d), before);
    assert_eq!(d.leafs.len(), leaves - 1);
    assert_eq!(d.nodes.len(), nodes - 1);
    assert_eq!(d.leafs[6].nums, 45);
}

#[test]
fn merge_away_under_the_root() {
    let mut d = DynamicBitVector::new();
    for _ in 0..W + 1 {
        d.push(true);
    }
    for _ in 0..20 {
        d.delete(0).unwrap();
    }
    let before = bits_of(&d);
    d.merge_away(-2);
    check_tree(&d);
    assert_eq!(bits_of(&d), before);
    assert_eq!(d.leafs.len(), 2);
    assert_eq!(d.leafs[1].nums, 45);
    // the only leaf has no neighbour
    let again = d.clone();
    for _ in 0..40 {
        d.delete(0).unwrap();
    }
    let small = d.clone();
    d.merge_away(-1);
    assert_eq!(d, small);
    assert_eq!(again.len(), 45);
}

/// The lengths of the leaves from the first to the last, and for each leaf whether it
/// is the right child of its parent.
fn division(d: &DynamicBitVector) -> (Vec<usize>, Vec<bool>) {
    fn walk(d: &DynamicBitVector, child: isize, as_right: bool, out: &mut (Vec<usize>, Vec<bool>)) {
        if child >= 0 {
            let n = &d.nodes[child as usize];
            if let Some(l) = n.left {
                walk(d, l, false, out);
            }
            if let Some(r) = n.right {
                walk(d, r, true, out);
            }
        } else {
            out.0.push(d.leafs[(-child) as usize].nums as usize);
            out.1.push(as_right);
        }
    }
    let mut out = (Vec::new(), Vec::new());
    walk(d, d.root as isize, false, &mut out);
    out
}

fn leaf_index(p: &[usize], index: usize) -> usize {
    let mut k = 0;
    let mut index = index;
    while p.len() - k > 1 && index >= p[k] {
        index -= p[k];
        k += 1;
    }
    k
}

fn division_after_push(mut p: Vec<usize>) -> Vec<usize> {
    match p.last_mut() {
        Some(last) if *last < 64 => *last += 1,
        _ => p.push(1),
    }
    p
}

fn division_after_insert(mut p: Vec<usize>, index: usize) -> Vec<usize> {
    if p.is_empty() {
        return vec![1];
    }
    let k = leaf_index(&p, index);
    let at = index - p[..k].iter().sum::<usize>();
    if p[k] < 64 {
        p[k] += 1;
    } else if at < 32 {
        p.splice(k..=k, [33, 32]);
    } else {
        p.splice(k..=k, [32, 33]);
    }
    p
}

fn division_after_delete(mut p: Vec<usize>, right: &[bool], index: usize) -> Vec<usize> {
    let k = leaf_index(&p, index);
    p[k] -= 1;
    if p[k] > 16 || p.len() <= 1 {
        return p;
    }
    let nb = if right[k] { k - 1 } else { k + 1 };
    if p[nb] <= 48 {
        p[nb] += p[k];
        p.remove(k);
    } else if right[k] {
        p[k] += p[nb] - 32;
        p[nb] = 32;
    } else {
        p[k] += 32;
        p[nb] -= 32;
    }
    p
}

#[test]
fn leaves_are_divided_as_described() {
    let mut rng = StdRng::seed_from_u64(7);
    let mut d = DynamicBitVector::new();
    for round in 0..6 {
        for _ in 0..1500 {
            let (p, right) = division(&d);
            let len = d.len();
            let grow = round % 2 == 0;
            match rng.gen_range(0..10) {
                0..=1 => {
                    d.push(rng.gen_bool(0.5));
                    assert_eq!(division(&d).0, division_after_push(p));
                }
                2..=6 if grow || len == 0 => {
                    let i = rng.gen_range(0..=len);
                    d.insert(i, rng.gen_bool(0.5)).unwrap();
                    assert_eq!(division(&d).0, division_after_insert(p, i));
                }
                2..=8 if len > 0 => {
                    let i = rng.gen_range(0..len);
                    d.delete(i).unwrap();
                    assert_eq!(division(&d).0, division_after_delete(p, &right, i));
                }
                _ if len > 0 => {
                    d.flip(rng.gen_range(0..len)).unwrap();
                    assert_eq!(division(&d).0, p);
                }
                _ => {}
            }
        }
        check_tree(&d);
    }
}

#[test]
fn divisions_of_small_vectors() {
    let mut d = DynamicBitVector::new();
    assert_eq!(division(&d).0, Vec::<usize>::new());
    d.push(true);
    assert_eq!(division(&d).0, vec![1]);
    for _ in 0..63 {
        d.push(true);
    }
    assert_eq!(division(&d).0, vec![64]);
    d.insert(40, false).unwrap();
    assert_eq!(division(&d).0, vec![32, 33]);
    d.insert(0, false).unwrap();
    assert_eq!(division(&d).0, vec![33, 33]);
    for _ in 0..17 {
        d.delete(0).unwrap();
    }
    // the first leaf fell to 16 bits and was taken in by the second
    assert_eq!(division(&d).0, vec![49]);
    d.push(true);
    assert_eq!(division(&d).0, vec![50]);
}

#[test]
fn split_leaf_keeps_the_vector_well_formed() {
    let mut d = DynamicBitVector::new();
    let mut model: Vec<bool> = Vec::new();
    for i in 0..6 * W {
        d.push(i % 5 < 2);
        model.push(i % 5 < 2);
    }
    for leaf in [-1isize, -6, -3] {
        let n = d.split_leaf(leaf);
        assert_eq!(n, d.nodes.len() - 1);
        check_tree(&d);
        assert_eq!(d.len(), model.len());
        for (i, &b) in model.iter().enumerate() {
            assert_eq!(d.access(i), b);
        }
    }
    assert_eq!(d.leafs.len(), 10);
    assert_eq!(d.nodes.len(), 8);
}

#[test]
fn small_root_leaf_joins_the_other_and_the_arena_closes_up() {
    let mut d = DynamicBitVector {
        root: 0,
        nodes: vec![Node::create(None, Some(-1), Some(-2), 17, 17, 0)],
        leafs: vec![
            Leaf::new(0),
            Leaf::create(0, (1u64 << 17) - 1, 17),
            Leaf::create(0, (1u64 << 40) - 1, 40),
        ],
    };
    assert_eq!(d.delete(0), Ok(()));
    assert_eq!(d.root, 0);
    assert_eq!(d.nodes, vec![Node::create(None, None, Some(-1), 0, 0, 1)]);
    assert_eq!(d.leafs, vec![Leaf::new(0), Leaf::create(0, (1u64 << 56) - 1, 56)]);
}

#[test]
fn small_leaf_takes_bits_where_the_other_is_too_full() {
    let mut d = DynamicBitVector {
        root: 0,
        nodes: vec![Node::create(None, Some(-1), Some(-2), 17, 17, 0)],
        leafs: vec![
            Leaf::new(0),
            Leaf::create(0, (1u64 << 17) - 1, 17),
            Leaf::create(0, (1u64 << 49) - 1, 49),
        ],
    };
    assert_eq!(d.delete(16), Ok(()));
    assert_eq!(d.nodes, vec![Node::create(None, Some(-1), Some(-2), 48, 48, 0)]);
    assert_eq!(
        d.leafs,
        vec![
            Leaf::new(0),
            Leaf::create(0, (1u64 << 48) - 1, 48),
            Leaf::create(0, (1u64 << 17) - 1, 17),
        ]
    );
}

#[test]
fn the_unused_leaf_slot_is_never_touched() {
    let mut d = DynamicBitVector::new();
    let unused = d.leafs[0].clone();
    for i in 0..700usize {
        d.insert(i / 2, i % 3 == 0).unwrap();
        assert_eq!(d.leafs[0], unused);
    }
    for i in 0..690usize {
        d.delete((i * 7) % d.len()).unwrap();
        assert_eq!(d.leafs[0], unused);
        check_tree(&d);
    }
}

#[test]
fn a_new_leaf_and_a_new_node_stand_at_the_end_of_the_arenas() {
    let mut d = DynamicBitVector::new();
    for _ in 0..3 * W {
        d.push(true);
    }
    let before = d.clone();
    // the first leaf is full: the insertion divides it
    d.insert(0, false).unwrap();
    assert_eq!(d.nodes.len(), before.nodes.len() + 1);
    assert_eq!(d.leafs.len(), before.leafs.len() + 1);
    let n = d.nodes.len() - 1;
    let k = d.leafs.len() - 1;
    assert_eq!(d.nodes[n].left, Some(-1));
    assert_eq!(d.nodes[n].right, Some(-(k as isize)));
    assert_eq!(d.leafs[1], Leaf::create(n, ((1u64 << 32) - 1) << 1, 33));
    assert_eq!(d.leafs[k], Leaf::create(n, (1u64 << 32) - 1, 32));
    for j in 2..before.leafs.len() {
        assert_eq!(d.leafs[j].value, before.leafs[j].value);
        assert_eq!(d.leafs[j].nums, before.leafs[j].nums);
    }
    check_tree(&d);
}

#[test]
fn retrace_leaves_the_leaves_as_they_are() {
    let m = LeafValue::MAX;
    let b = W as u8;
    let mut d = DynamicBitVector {
        root: 0,
        nodes: vec![
            Node::create(None, Some(-1), Some(1), W, W, 1),
            Node::create(Some(0), Some(-2), Some(2), W, 3, 0),
            Node::create(Some(1), Some(-3), Some(-4), W, 0, 0),
        ],
        leafs: vec![
            Leaf::new(0),
            Leaf::create(0, m, b),
            Leaf::create(1, 7, b),
            Leaf::create(2, 0, b),
            Leaf::create(2, 1, b),
        ],
    };
    let before = d.clone();
    d.retrace(2, 1);
    assert_eq!(d.root, 1);
    for j in 0..d.leafs.len() {
        assert_eq!(d.leafs[j].value, before.leafs[j].value);
        assert_eq!(d.leafs[j].nums, before.leafs[j].nums);
    }
    assert_eq!(d.leafs[0], before.leafs[0]);
    check_tree(&d);
}
