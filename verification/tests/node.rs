use confertus::diff::Diff;
use confertus::config::{UNKNOWN_ALGO, USAGE};
use confertus::{BitVecError, Config, Node};

#[test]
fn node_creation() {
    let n = Node::new();
    assert_eq!(
        n,
        Node {
            parent: None,
            left: None,
            right: None,
            nums: 0,
            ones: 0,
            rank: 0,
        }
    );
}

#[test]
fn exploration() {
    assert_eq!(2 + 2, 4);
}

#[test]
fn replace_child_with_keeps_the_side() {
    let mut n = Node::create(Some(4), Some(-3), Some(7), 10, 5, 1);
    n.replace_child_with(7, 9);
    assert_eq!(n, Node::create(Some(4), Some(-3), Some(9), 10, 5, 1));
    n.replace_child_with(-3, 2);
    assert_eq!(n, Node::create(Some(4), Some(2), Some(9), 10, 5, 1));
}

#[test]
fn config_reads_four_arguments() {
    let args = |v: &[&str]| v.iter().map(|s| s.to_string()).collect::<Vec<String>>();
    let c = Config::new(&args(&["prog", "bv", "in.txt", "out.txt"])).unwrap();
    assert_eq!(c.algo, "bv");
    assert_eq!(c.file_in, "in.txt");
    assert_eq!(c.file_out, "out.txt");
    assert!(Config::new(&args(&["prog", "bp", "a", "b", "more"])).is_ok());
    assert_eq!(Config::new(&args(&["prog", "bv", "in.txt"])).err(), Some(USAGE));
    assert_eq!(Config::new(&args(&["prog", "xx", "in.txt", "out.txt"])).err(), Some(UNKNOWN_ALGO));
    assert_eq!(Config::new(&args(&[])).err(), Some(USAGE));
    assert_eq!(USAGE, "Usage with parameters is `[bv|bp] input_file output_file`");
    assert_eq!(UNKNOWN_ALGO, "algo needs to be either `bp` or `bv`");
}

#[test]
fn failures_in_words() {
    assert_eq!(BitVecError::OutOfBounds.message(), "index out of bounds");
    assert_eq!(BitVecError::Full.message(), "tried to push value to full Leaf");
    assert_eq!(BitVecError::Empty.message(), "Tried to delete in empty leaf");
    assert_eq!(BitVecError::NotFound.message(), "no such occurrence of the bit value");
}

#[test]
fn diffs() {
    assert_eq!(Diff::new(), Diff { balance: 0, size: 0, nums: 0, ones: 0 });
    assert_eq!(Diff::insert_right(), Diff::new());
    assert_eq!(Diff::insert_left(true), Diff { balance: 0, size: 0, nums: 1, ones: 1 });
    assert_eq!(Diff::insert_left(false), Diff { balance: 0, size: 0, nums: 1, ones: 0 });
    assert_eq!(Diff::create_right_node(), Diff { balance: 1, size: 0, nums: 0, ones: 0 });
    assert_eq!(Diff::create_right_leaf(), Diff { balance: 1, size: 64, nums: 0, ones: 0 });
    assert_eq!(Diff::move_child_right_to_left(), Diff { balance: -1, size: 0, nums: 0, ones: 0 });
    assert_eq!(Diff::insert_node_right(), Diff { balance: 1, size: 0, nums: 0, ones: 0 });
    assert_eq!(
        Diff::create_right_leaf().add(Diff::insert_left(true)),
        Diff { balance: 1, size: 64, nums: 1, ones: 1 }
    );
}
