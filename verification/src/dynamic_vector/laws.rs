use vstd::prelude::*;
use crate::bits::{count, lemma_count_complement, lemma_rank_full, rank_of};
use crate::dynamic_vector::model::{lemma_child, lemma_ids_in_range, lemma_subtree};
use crate::dynamic_vector::shape::Shape;
use crate::dynamic_vector::symmetry::lemma_symmetry;
use crate::dynamic_vector::DynamicBitVector;
use crate::dynamic_vector::frame::{lemma_frame_unique, lemma_linked_framed};
use crate::primitive_static::{block_fits, lemma_bits_give_word};
use crate::traits::StaticBitVec;

verus! {

impl DynamicBitVector {
    /// The node `i` holds the number of bits and of one-bits stored under its left
    /// child, and zero for both where it has no left child.
    pub open spec fn left_counts_ok(&self, i: int) -> bool {
        match self.nodes[i].left {
            None => self.nodes[i].nums == 0 && self.nodes[i].ones == 0,
            Some(c) => {
                &&& self.has_subtree(c)
                &&& self.nodes[i].nums == self.bits_in(self.subtree(c)).len()
                &&& self.nodes[i].ones == count(self.bits_in(self.subtree(c)), true)
            },
        }
    }

    /// The node or leaf that the child reference `c` names exists and has the node `i`
    /// as its parent.
    pub open spec fn child_knows_parent(&self, c: Option<isize>, i: int) -> bool {
        match c {
            None => true,
            Some(c) => if c >= 0 {
                c < self.nodes.len() && self.nodes[c as int].parent == Some(i as usize)
            } else {
                1 <= -c < self.leafs.len() && self.leafs[-c].parent == i
            },
        }
    }
}

impl DynamicBitVector {
    /// Under the child reference `c` of the node `i` a proper balanced tree is laid out
    /// without repetition.
    pub open spec fn child_laid_out(&self, c: Option<isize>, i: int) -> bool {
        match c {
            None => true,
            Some(c) => {
                &&& self.has_subtree(c)
                &&& self.linked(self.subtree(c), Some(i as usize))
                &&& self.subtree(c).proper()
                &&& self.subtree(c).balanced()
                &&& self.subtree(c).distinct()
            },
        }
    }
}

/// Every node of a laid-out balanced tree counts what is under its left child, has a
/// rank of at most one in size, and has proper trees under its children.
pub proof fn lemma_every_node(a: &DynamicBitVector, s: Shape, gp: Option<usize>)
    requires
        a.sized(),
        a.linked(s, gp),
        s.balanced(),
        s.distinct(),
        s.rooted() || s.proper(),
    ensures
        forall|i: int| #[trigger]
            s.node_ids().contains(i) ==> {
                &&& a.left_counts_ok(i)
                &&& -1 <= a.nodes[i].rank <= 1
                &&& a.child_laid_out(a.nodes[i].left, i)
                &&& a.child_laid_out(a.nodes[i].right, i)
                &&& (i != s.idx() ==> a.nodes[i].left is Some && a.nodes[i].right is Some)
            },
    decreases s,
{
    match s {
        Shape::Node { id, left, right } => {
            lemma_child(a, s, gp);
            lemma_child(a, *left, Some(id as usize));
            lemma_child(a, *right, Some(id as usize));
            crate::dynamic_vector::shape::lemma_node_parts(s);
            assert(left.distinct() && right.distinct());
            if !(*left is Nil) {
                lemma_every_node(a, *left, Some(id as usize));
                lemma_subtree(a, *left, Some(id as usize));
            }
            if !(*right is Nil) {
                lemma_every_node(a, *right, Some(id as usize));
                lemma_subtree(a, *right, Some(id as usize));
            }
            assert(count(Seq::<bool>::empty(), true) == 0);
            assert(Shape::Nil.node_ids() =~= Set::<int>::empty());
            assert forall|i: int| #[trigger] s.node_ids().contains(i) implies {
                &&& a.left_counts_ok(i)
                &&& -1 <= a.nodes[i].rank <= 1
                &&& a.child_laid_out(a.nodes[i].left, i)
                &&& a.child_laid_out(a.nodes[i].right, i)
                &&& (i != s.idx() ==> a.nodes[i].left is Some && a.nodes[i].right is Some)
            } by {
                assert(i == id || left.node_ids().contains(i) || right.node_ids().contains(i));
                if i == id {
                    assert(*left is Nil || left.proper());
                    assert(*right is Nil || right.proper());
                } else if left.node_ids().contains(i) {
                    if i == left.idx() {
                        crate::dynamic_vector::shape::lemma_node_parts(*left);
                        lemma_child(a, left.lhs(), Some(i as usize));
                        lemma_child(a, left.rhs(), Some(i as usize));
                    }
                } else {
                    if i == right.idx() {
                        crate::dynamic_vector::shape::lemma_node_parts(*right);
                        lemma_child(a, right.lhs(), Some(i as usize));
                        lemma_child(a, right.rhs(), Some(i as usize));
                    }
                }
            }
        },
        _ => {},
    }
}

/// In a well-formed vector every node holds the number of bits and of one-bits that
/// are stored in the leaves under its left child.
pub proof fn lemma_aggregates(a: &DynamicBitVector, i: int)
    requires
        a.wf(),
        0 <= i < a.nodes.len(),
    ensures
        a.left_counts_ok(i),
{
    let s = a.shape();
    assert(s.node_ids().contains(i));
    lemma_every_node(a, s, None);
}

/// In a well-formed vector the heights of the two subtrees of every node differ by at
/// most one, and the rank of the node is that difference.
pub proof fn lemma_ranks(a: &DynamicBitVector, i: int)
    requires
        a.wf(),
        0 <= i < a.nodes.len(),
    ensures
        -1 <= a.nodes[i].rank <= 1,
{
    let s = a.shape();
    assert(s.node_ids().contains(i));
    lemma_every_node(a, s, None);
}

/// In a well-formed vector no leaf holds a one-bit at or beyond its length: its word,
/// moved down by its length, is zero.
pub proof fn lemma_leaf_padding(a: &DynamicBitVector, j: int)
    requires
        a.wf(),
        1 <= j < a.leafs.len(),
    ensures
        block_fits(a.leafs[j].value, a.leafs[j].nums as nat),
{
    let s = a.shape();
    assert(s.leaf_ids().contains(j));
    lemma_ids_in_range(a, s, None);
}

/// In a well-formed vector every child that a node names has that node as its parent,
/// and the root is the one node without a parent.
pub proof fn lemma_parent_child(a: &DynamicBitVector, i: int)
    requires
        a.wf(),
        0 <= i < a.nodes.len(),
    ensures
        a.child_knows_parent(a.nodes[i].left, i),
        a.child_knows_parent(a.nodes[i].right, i),
        a.nodes[i].parent is None <==> i == a.root,
{
    let s = a.shape();
    assert(s.node_ids().contains(i));
    lemma_symmetry(a, s, None);
    lemma_ids_in_range(a, s, None);
    assert(a.child_ok(s, a.nodes[i].left, i));
    assert(a.child_ok(s, a.nodes[i].right, i));
    assert(a.parent_ok(s, None, a.nodes[i].parent, i as isize));
    lemma_child(a, s, None);
}

/// In a well-formed vector the lengths of the leaves add up to the number of bits, and
/// no leaf holds more than 64 bits.
pub proof fn lemma_lengths(a: &DynamicBitVector)
    requires
        a.wf(),
    ensures
        crate::dynamic_vector::partition::total(a.lengths()) == a@.len(),
        forall|k: int| 0 <= k < a.lengths().len() ==> #[trigger] a.lengths()[k] <= 64,
{
    let s = a.shape();
    crate::dynamic_vector::partition::lemma_lengths_total(a, s, None);
    crate::dynamic_vector::partition::lemma_order_ids(s);
    lemma_ids_in_range(a, s, None);
    assert forall|k: int| 0 <= k < a.lengths().len() implies #[trigger] a.lengths()[k] <= 64 by {
        assert(s.leaf_ids().contains(s.leaf_order()[k]));
    }
}

/// The least number of leaves that a balanced proper tree of the height `h` can have:
/// one more than the numbers for the two heights below it together have less one, as
/// in the sequence of Fibonacci.
pub open spec fn least_leaves(h: int) -> int
    decreases h,
{
    if h <= 1 {
        1
    } else if h == 2 {
        2
    } else {
        least_leaves(h - 1) + least_leaves(h - 2)
    }
}

/// A balanced proper tree has at least as many leaves as the least number for its
/// height, which grows by more than half with every level: the height of the tree is
/// logarithmic in the number of its leaves.
pub proof fn lemma_height_logarithmic(s: Shape)
    requires
        s.proper(),
        s.balanced(),
    ensures
        s.leaf_order().len() >= least_leaves(s.height()),
        least_leaves(s.height()) >= 1,
    decreases s,
{
    crate::dynamic_vector::shape::lemma_proper_height(s);
    lemma_least_leaves_grow(s.height());
    match s {
        Shape::Node { left, right, .. } => {
            lemma_height_logarithmic(*left);
            lemma_height_logarithmic(*right);
            crate::dynamic_vector::shape::lemma_proper_height(*left);
            crate::dynamic_vector::shape::lemma_proper_height(*right);
            let hl = left.height();
            let hr = right.height();
            lemma_least_leaves_grow(hl);
            lemma_least_leaves_grow(hr);
            lemma_least_leaves_grow(hl - 1);
            lemma_least_leaves_grow(hr - 1);
            assert(s.leaf_order().len() == left.leaf_order().len() + right.leaf_order().len());
            let h = s.height();
            if hl == hr {
                assert(h == hl + 1);
                if hl >= 2 {
                    assert(least_leaves(h) == least_leaves(hl) + least_leaves(hl - 1));
                }
            } else if hl > hr {
                assert(h == hl + 1 && hr == hl - 1 && hl >= 2);
                assert(least_leaves(h) == least_leaves(hl) + least_leaves(hr));
            } else {
                assert(h == hr + 1 && hl == hr - 1 && hr >= 2);
                assert(least_leaves(h) == least_leaves(hr) + least_leaves(hl));
            }
        },
        _ => {},
    }
}

/// The least number of leaves does not fall when the height grows.
pub proof fn lemma_least_leaves_grow(h: int)
    ensures
        least_leaves(h) >= 1,
        least_leaves(h + 1) >= least_leaves(h),
        h >= 2 ==> least_leaves(h + 1) == least_leaves(h) + least_leaves(h - 1),
    decreases h,
{
    if h >= 2 {
        lemma_least_leaves_grow(h - 1);
        lemma_least_leaves_grow(h - 2);
    }
}

/// What an insertion does to the bits: the new bit stands at its position, the bits
/// before it stay, the bits from there on move up by one, and at every length the
/// ranks of the two bit values add up to the length.
pub proof fn lemma_round_trip(before: Seq<bool>, index: int, bit: bool)
    requires
        0 <= index <= before.len(),
    ensures
        before.insert(index, bit)[index] == bit,
        forall|j: int| 0 <= j < index ==> before.insert(index, bit)[j] == before[j],
        forall|j: int|
            index < j <= before.len() ==> before.insert(index, bit)[j] == before[j - 1],
        rank_of(before.insert(index, bit), true, before.len() as int + 1) + rank_of(
            before.insert(index, bit),
            false,
            before.len() as int + 1,
        ) == before.len() + 1,
{
    let after = before.insert(index, bit);
    lemma_rank_full(after, true);
    lemma_rank_full(after, false);
    lemma_count_complement(after);
}

/// A tree that is held in one vector is held in another that has the same links and
/// valid leaves of the same lengths.
proof fn lemma_same_links_framed(a: &DynamicBitVector, c: &DynamicBitVector, s: Shape, p: Option<usize>)
    requires
        a.framed(s, p),
        a.same_structure(c),
        forall|j: int| #[trigger] s.leaf_ids().contains(j) ==> c.leafs[j].wf(),
    ensures
        c.framed(s, p),
    decreases s,
{
    match s {
        Shape::Node { id, left, right } => {
            assert forall|j: int| #[trigger] left.leaf_ids().contains(j) implies s.leaf_ids().contains(
                j,
            ) by {}
            assert forall|j: int| #[trigger] right.leaf_ids().contains(j) implies s.leaf_ids().contains(
                j,
            ) by {}
            lemma_same_links_framed(a, c, *left, Some(id as usize));
            lemma_same_links_framed(a, c, *right, Some(id as usize));
        },
        Shape::Leaf { id } => {
            assert(s.leaf_ids().contains(id));
        },
        Shape::Nil => {},
    }
}

/// Two layouts of one tree with the same bits, the same links and leaves of the same
/// lengths have the same nodes and the same leaves.
proof fn lemma_same_bits_everywhere(
    a: &DynamicBitVector,
    c: &DynamicBitVector,
    s: Shape,
    p: Option<usize>,
)
    requires
        a.linked(s, p),
        c.linked(s, p),
        a.same_structure(c),
        a.bits_in(s) == c.bits_in(s),
    ensures
        forall|i: int| #[trigger] s.node_ids().contains(i) ==> c.nodes[i] == a.nodes[i],
        forall|j: int| #[trigger] s.leaf_ids().contains(j) ==> c.leafs[j] == a.leafs[j],
    decreases s,
{
    match s {
        Shape::Node { id, left, right } => {
            let al = a.bits_in(*left);
            let ar = a.bits_in(*right);
            let cl = c.bits_in(*left);
            let cr = c.bits_in(*right);
            assert(al.len() == cl.len());
            assert((al + ar).take(al.len() as int) =~= al);
            assert((cl + cr).take(cl.len() as int) =~= cl);
            assert((al + ar).skip(al.len() as int) =~= ar);
            assert((cl + cr).skip(cl.len() as int) =~= cr);
            lemma_same_bits_everywhere(a, c, *left, Some(id as usize));
            lemma_same_bits_everywhere(a, c, *right, Some(id as usize));
            assert forall|i: int| #[trigger] s.node_ids().contains(i) implies c.nodes[i]
                == a.nodes[i] by {
                assert(i == id || left.node_ids().contains(i) || right.node_ids().contains(i));
            }
            assert forall|j: int| #[trigger] s.leaf_ids().contains(j) implies c.leafs[j]
                == a.leafs[j] by {
                assert(left.leaf_ids().contains(j) || right.leaf_ids().contains(j));
            }
        },
        Shape::Leaf { id } => {
            lemma_bits_give_word(a.leafs[id].value, c.leafs[id].value, a.leafs[id].nums as nat);
            assert forall|j: int| #[trigger] s.leaf_ids().contains(j) implies c.leafs[j]
                == a.leafs[j] by {
                assert(j == id);
            }
        },
        Shape::Nil => {},
    }
}

/// Two well-formed vectors with the same bits, the same links between nodes and leaves,
/// the same lengths of leaves and the same unused leaf slot have the same root, nodes
/// and leaves.
pub proof fn lemma_same_bits_same_vector(a: &DynamicBitVector, c: &DynamicBitVector)
    requires
        a.wf(),
        c.wf(),
        a.same_structure(c),
        c.leafs[0] == a.leafs[0],
        c@ == a@,
    ensures
        c.root == a.root,
        c.nodes@ == a.nodes@,
        c.leafs@ == a.leafs@,
{
    let s = a.shape();
    let t = c.shape();
    lemma_linked_framed(a, s, None);
    lemma_linked_framed(c, t, None);
    lemma_ids_in_range(c, t, None);
    assert forall|j: int| #[trigger] s.leaf_ids().contains(j) implies c.leafs[j].wf() by {
        assert(t.leaf_ids().contains(j));
    }
    lemma_same_links_framed(a, c, s, None);
    lemma_frame_unique(c, s, None, t, None);
    lemma_same_bits_everywhere(a, c, s, None);
    assert forall|i: int| 0 <= i < a.nodes.len() implies c.nodes@[i] == a.nodes@[i] by {
        assert(s.node_ids().contains(i));
    }
    assert forall|j: int| 0 <= j < a.leafs.len() implies c.leafs@[j] == a.leafs@[j] by {
        if j >= 1 {
            assert(s.leaf_ids().contains(j));
        }
    }
    assert(c.nodes@ =~= a.nodes@);
    assert(c.leafs@ =~= a.leafs@);
}

/// Two layouts of one tree with the same bits and leaves of the same lengths have the
/// same nodes and the same leaves.
proof fn lemma_same_tree_everywhere(
    a: &DynamicBitVector,
    c: &DynamicBitVector,
    s: Shape,
    p: Option<usize>,
)
    requires
        a.sized(),
        c.sized(),
        a.linked(s, p),
        c.linked(s, p),
        a.bits_in(s) == c.bits_in(s),
        a.lengths_in(s) == c.lengths_in(s),
    ensures
        forall|i: int| #[trigger] s.node_ids().contains(i) ==> c.nodes[i] == a.nodes[i],
        forall|j: int| #[trigger] s.leaf_ids().contains(j) ==> c.leafs[j] == a.leafs[j],
    decreases s,
{
    crate::dynamic_vector::partition::lemma_lengths_parts(a, s);
    crate::dynamic_vector::partition::lemma_lengths_parts(c, s);
    lemma_child(a, s, p);
    lemma_child(c, s, p);
    match s {
        Shape::Node { id, left, right } => {
            let q = Some(id as usize);
            crate::dynamic_vector::partition::lemma_lengths_parts(a, *left);
            crate::dynamic_vector::partition::lemma_lengths_parts(c, *left);
            let pl = a.lengths_in(*left);
            let pr = a.lengths_in(*right);
            let ql = c.lengths_in(*left);
            let qr = c.lengths_in(*right);
            assert((pl + pr).take(pl.len() as int) =~= pl);
            assert((ql + qr).take(ql.len() as int) =~= ql);
            assert((pl + pr).skip(pl.len() as int) =~= pr);
            assert((ql + qr).skip(ql.len() as int) =~= qr);
            crate::dynamic_vector::partition::lemma_lengths_total(a, *left, q);
            crate::dynamic_vector::partition::lemma_lengths_total(c, *left, q);
            let al = a.bits_in(*left);
            let ar = a.bits_in(*right);
            let cl = c.bits_in(*left);
            let cr = c.bits_in(*right);
            assert(al.len() == cl.len());
            assert((al + ar).take(al.len() as int) =~= al);
            assert((cl + cr).take(cl.len() as int) =~= cl);
            assert((al + ar).skip(al.len() as int) =~= ar);
            assert((cl + cr).skip(cl.len() as int) =~= cr);
            lemma_same_tree_everywhere(a, c, *left, q);
            lemma_same_tree_everywhere(a, c, *right, q);
            assert(c.nodes[id] == a.nodes[id]);
            assert forall|i: int| #[trigger] s.node_ids().contains(i) implies c.nodes[i]
                == a.nodes[i] by {
                assert(i == id || left.node_ids().contains(i) || right.node_ids().contains(i));
            }
            assert forall|j: int| #[trigger] s.leaf_ids().contains(j) implies c.leafs[j]
                == a.leafs[j] by {
                assert(left.leaf_ids().contains(j) || right.leaf_ids().contains(j));
            }
        },
        Shape::Leaf { id } => {
            assert(a.lengths_in(s)[0] == c.lengths_in(s)[0]);
            assert(a.leafs[id].nums == c.leafs[id].nums);
            assert(a.leafs[id].bits() == c.leafs[id].bits());
            assert(a.leafs[id].wf() && c.leafs[id].wf());
            lemma_bits_give_word(a.leafs[id].value, c.leafs[id].value, a.leafs[id].nums as nat);
            assert forall|j: int| #[trigger] s.leaf_ids().contains(j) implies c.leafs[j]
                == a.leafs[j] by {
                assert(j == id);
            }
        },
        Shape::Nil => {},
    }
}

/// A well-formed vector is given by its tree, its bits, the lengths of its leaves and
/// its unused leaf slot: two well-formed vectors that agree in these have the same
/// root, nodes and leaves.
pub proof fn lemma_tree_gives_vector(a: &DynamicBitVector, c: &DynamicBitVector)
    requires
        a.wf(),
        c.wf(),
        c.shape() == a.shape(),
        c@ == a@,
        c.lengths() == a.lengths(),
        c.leafs[0] == a.leafs[0],
    ensures
        c.root == a.root,
        c.nodes@ == a.nodes@,
        c.leafs@ == a.leafs@,
{
    let s = a.shape();
    lemma_same_tree_everywhere(a, c, s, None);
    if a.nodes.len() < c.nodes.len() {
        assert(s.node_ids().contains(a.nodes.len() as int));
    }
    if c.nodes.len() < a.nodes.len() {
        assert(s.node_ids().contains(c.nodes.len() as int));
    }
    if a.leafs.len() < c.leafs.len() {
        assert(s.leaf_ids().contains(a.leafs.len() as int));
    }
    if c.leafs.len() < a.leafs.len() {
        assert(s.leaf_ids().contains(c.leafs.len() as int));
    }
    assert forall|i: int| 0 <= i < a.nodes.len() implies c.nodes@[i] == a.nodes@[i] by {
        assert(s.node_ids().contains(i));
    }
    assert forall|j: int| 0 <= j < a.leafs.len() implies c.leafs@[j] == a.leafs@[j] by {
        if j >= 1 {
            assert(s.leaf_ids().contains(j));
        }
    }
    assert(c.nodes@ =~= a.nodes@);
    assert(c.leafs@ =~= a.leafs@);
}

/// Flipping a bit twice gives back the vector: the bits, and with them every counter of
/// every node and the word of every leaf. Here `b` is what a flip at `i` makes of `a`,
/// and `c` what a second flip at `i` makes of `b`.
pub proof fn lemma_flips_cancel(
    a: &DynamicBitVector,
    b: &DynamicBitVector,
    c: &DynamicBitVector,
    i: int,
)
    requires
        a.wf(),
        0 <= i < a@.len(),
        b.wf(),
        b@ == a@.update(i, !a@[i]),
        a.same_structure(b),
        b.leafs[0] == a.leafs[0],
        c.wf(),
        c@ == b@.update(i, !b@[i]),
        b.same_structure(c),
        c.leafs[0] == b.leafs[0],
    ensures
        c@ == a@,
        c.root == a.root,
        c.nodes@ == a.nodes@,
        c.leafs@ == a.leafs@,
{
    crate::bits::lemma_flip_twice(a@, i);
    lemma_same_bits_same_vector(a, c);
}

} // verus!
