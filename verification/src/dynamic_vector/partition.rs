use vstd::prelude::*;
use crate::dynamic_vector::model::{lemma_child, lemma_ids_in_range};
use crate::dynamic_vector::shape::Shape;
use crate::dynamic_vector::DynamicBitVector;
use crate::traits::StaticBitVec;

verus! {

impl Shape {
    /// The slots of the leaves of the tree, from the first leaf to the last.
    pub open spec fn leaf_order(self) -> Seq<int>
        decreases self,
    {
        match self {
            Shape::Nil => Seq::empty(),
            Shape::Leaf { id } => seq![id],
            Shape::Node { left, right, .. } => left.leaf_order() + right.leaf_order(),
        }
    }
}

impl Shape {
    /// For each leaf of the tree, from the first to the last, whether it is the right
    /// child of its parent; a tree that is a single leaf has what `as_right` says.
    pub open spec fn right_flags(self, as_right: bool) -> Seq<bool>
        decreases self,
    {
        match self {
            Shape::Nil => Seq::empty(),
            Shape::Leaf { .. } => seq![as_right],
            Shape::Node { left, right, .. } => left.right_flags(false) + right.right_flags(true),
        }
    }
}

impl Shape {
    /// The place of the leaf in slot `id` among the leaves of the tree, the first leaf
    /// having the place 0.
    pub open spec fn place_of(self, id: int) -> int
        decreases self,
    {
        match self {
            Shape::Node { left, right, .. } => if left.leaf_ids().contains(id) {
                left.place_of(id)
            } else {
                left.leaf_order().len() + right.place_of(id)
            },
            _ => 0,
        }
    }
}

impl DynamicBitVector {
    /// How many bits each leaf under the tree `s` holds, from the first leaf to the
    /// last.
    pub open spec fn lengths_in(&self, s: Shape) -> Seq<nat> {
        s.leaf_order().map_values(|id: int| self.leafs[id].nums as nat)
    }

    /// `new` has as many leaves as this vector, and each of them holds the same word and
    /// as many bits as in this vector: at most its parent has changed.
    pub open spec fn same_contents(&self, new: &DynamicBitVector) -> bool {
        &&& new.leafs.len() == self.leafs.len()
        &&& forall|j: int|
            0 <= j < self.leafs.len() ==> (#[trigger] new.leafs[j]).nums == self.leafs[j].nums
                && new.leafs[j].value == self.leafs[j].value
    }

    /// How many bits each leaf holds, from the first leaf to the last: the way in which
    /// the bits are divided among the leaves.
    pub open spec fn lengths(&self) -> Seq<nat> {
        self.lengths_in(self.shape())
    }
}

/// The sum of the numbers.
pub open spec fn total(p: Seq<nat>) -> nat
    decreases p.len(),
{
    if p.len() == 0 {
        0
    } else {
        total(p.drop_last()) + p.last()
    }
}

/// The division of the bits among the leaves after a bit was appended: the last leaf
/// takes it, unless there is no leaf or the last leaf is full, in which case a new last
/// leaf takes it.
pub open spec fn pushed(p: Seq<nat>) -> Seq<nat> {
    if p.len() == 0 || p.last() >= 64 {
        p.push(1)
    } else {
        p.update(p.len() - 1, p.last() + 1)
    }
}

/// Which leaf the way down to position `index` ends in: the leaf that holds the
/// position, or the last leaf for a position behind all bits. A position that two
/// leaves meet at belongs to the second of them.
pub open spec fn leaf_index(p: Seq<nat>, index: int) -> int
    decreases p.len(),
{
    if p.len() <= 1 {
        0
    } else if index < p[0] {
        0
    } else {
        1 + leaf_index(p.skip(1), index - p[0])
    }
}

/// The division of the bits among the leaves after a bit was inserted at position
/// `index`: the leaf that the way down ends in takes it. A full leaf is divided first,
/// into a leaf of 32 bits and a new leaf of 32 bits behind it, and the bit goes into
/// the one that holds its position.
pub open spec fn inserted(p: Seq<nat>, index: int) -> Seq<nat> {
    if p.len() == 0 {
        seq![1nat]
    } else {
        let k = leaf_index(p, index);
        let at = index - total(p.take(k));
        if p[k] < 64 {
            p.update(k, p[k] + 1)
        } else if at < 32 {
            p.take(k) + seq![33nat, 32nat] + p.skip(k + 1)
        } else {
            p.take(k) + seq![32nat, 33nat] + p.skip(k + 1)
        }
    }
}

/// The division of the bits among the leaves after the leaf `k`, which has got small,
/// was mended with the help of the leaf next to it: the leaf before it for a right
/// child, the leaf after it for a left child. A neighbour of at most 48 bits takes in
/// the bits of the small leaf, which is no more; a larger neighbour before the small
/// leaf keeps 32 bits and gives the others, a larger neighbour after it gives 32 bits.
pub open spec fn mended(q: Seq<nat>, k: int, right_child: bool) -> Seq<nat> {
    let nb = if right_child {
        k - 1
    } else {
        k + 1
    };
    if q[nb] <= 48 {
        q.update(nb, q[nb] + q[k]).remove(k)
    } else if right_child {
        q.update(nb, 32nat).update(k, (q[k] + q[nb] - 32) as nat)
    } else {
        q.update(nb, (q[nb] - 32) as nat).update(k, q[k] + 32)
    }
}

/// The division of the bits among the leaves after the bit at position `index` was
/// removed: the leaf that holds the position gives it up, and where that leaves it
/// with at most 16 bits, and it is not the only leaf, it is mended.
pub open spec fn deleted(p: Seq<nat>, flags: Seq<bool>, index: int) -> Seq<nat> {
    let k = leaf_index(p, index);
    let q = p.update(k, (p[k] - 1) as nat);
    if q[k] > 16 || p.len() <= 1 {
        q
    } else {
        mended(q, k, flags[k])
    }
}

pub proof fn lemma_total_concat(a: Seq<nat>, b: Seq<nat>)
    ensures
        total(a + b) == total(a) + total(b),
    decreases b.len(),
{
    if b.len() == 0 {
        assert(a + b =~= a);
    } else {
        lemma_total_concat(a, b.drop_last());
        assert((a + b).drop_last() =~= a + b.drop_last());
    }
}

pub proof fn lemma_total_one(x: nat)
    ensures
        total(seq![x]) == x,
{
    assert(seq![x].drop_last() =~= Seq::<nat>::empty());
    assert(total(Seq::<nat>::empty()) == 0);
    assert(seq![x].last() == x);
}

/// The leaf that the way down ends in is one of the leaves, and lies in the first of
/// two joined divisions for a position inside it, and in the second otherwise.
pub proof fn lemma_leaf_index_concat(a: Seq<nat>, b: Seq<nat>, index: int)
    requires
        b.len() > 0,
        0 <= index,
    ensures
        0 <= leaf_index(a + b, index) < (a + b).len(),
        index < total(a) ==> a.len() > 0 && leaf_index(a + b, index) == leaf_index(a, index)
            && leaf_index(a, index) < a.len() && total((a + b).take(leaf_index(a + b, index)))
            == total(a.take(leaf_index(a, index))),
        index >= total(a) ==> leaf_index(a + b, index) == a.len() + leaf_index(
            b,
            index - total(a),
        ) && total((a + b).take(leaf_index(a + b, index))) == total(a) + total(
            b.take(leaf_index(b, index - total(a))),
        ),
        0 <= leaf_index(b, index) < b.len(),
    decreases a.len(),
{
    lemma_leaf_index_range(b, index);
    if a.len() == 0 {
        assert(a + b =~= b);
        lemma_leaf_index_range(b, index - total(a));
        assert(b.take(leaf_index(b, index)) =~= (a + b).take(leaf_index(a + b, index)));
    } else {
        let rest = a.skip(1);
        assert((a + b).skip(1) =~= rest + b);
        assert(a =~= seq![a[0]] + rest);
        lemma_total_concat(seq![a[0]], rest);
        lemma_total_one(a[0]);
        assert((a + b).len() >= 2);
        assert(total(Seq::<nat>::empty()) == 0);
        if index < a[0] {
            assert(leaf_index(a + b, index) == 0);
            assert(leaf_index(a, index) == 0);
            assert((a + b).take(0) =~= Seq::<nat>::empty());
            assert(a.take(0) =~= Seq::<nat>::empty());
        } else {
            lemma_leaf_index_concat(rest, b, index - a[0]);
            let k = leaf_index(rest + b, index - a[0]);
            assert(leaf_index(a + b, index) == 1 + k);
            assert((a + b).take(1 + k) =~= seq![a[0]] + (rest + b).take(k));
            lemma_total_concat(seq![a[0]], (rest + b).take(k));
            if index < total(a) {
                assert(rest.len() > 0);
                let j = leaf_index(rest, index - a[0]);
                assert(leaf_index(a, index) == 1 + j);
                assert(a.take(1 + j) =~= seq![a[0]] + rest.take(j));
                lemma_total_concat(seq![a[0]], rest.take(j));
            }
        }
    }
}

pub proof fn lemma_leaf_index_range(p: Seq<nat>, index: int)
    requires
        p.len() > 0,
    ensures
        0 <= leaf_index(p, index) < p.len(),
    decreases p.len(),
{
    if p.len() > 1 && index >= p[0] {
        lemma_leaf_index_range(p.skip(1), index - p[0]);
    }
}

/// Inserting into the first of two joined divisions, at a position inside it, leaves
/// the second as it is.
pub proof fn lemma_inserted_left(a: Seq<nat>, b: Seq<nat>, index: int)
    requires
        b.len() > 0,
        0 <= index < total(a),
    ensures
        inserted(a + b, index) == inserted(a, index) + b,
{
    lemma_leaf_index_concat(a, b, index);
    let k = leaf_index(a, index);
    assert((a + b)[k] == a[k]);
    assert((a + b).take(k) =~= a.take(k));
    assert((a + b).skip(k + 1) =~= a.skip(k + 1) + b);
    assert((a + b).update(k, a[k] + 1) =~= a.update(k, a[k] + 1) + b);
    assert(a.take(k) + seq![33nat, 32nat] + (a.skip(k + 1) + b) =~= (a.take(k) + seq![
        33nat,
        32nat,
    ] + a.skip(k + 1)) + b);
    assert(a.take(k) + seq![32nat, 33nat] + (a.skip(k + 1) + b) =~= (a.take(k) + seq![
        32nat,
        33nat,
    ] + a.skip(k + 1)) + b);
}

/// Inserting into the second of two joined divisions, at a position that is not inside
/// the first, leaves the first as it is.
pub proof fn lemma_inserted_right(a: Seq<nat>, b: Seq<nat>, index: int)
    requires
        b.len() > 0,
        total(a) <= index,
    ensures
        inserted(a + b, index) == a + inserted(b, index - total(a)),
{
    lemma_leaf_index_concat(a, b, index);
    let j = leaf_index(b, index - total(a));
    lemma_leaf_index_range(b, index - total(a));
    let k = a.len() + j;
    assert((a + b)[k] == b[j]);
    assert((a + b).take(k) =~= a + b.take(j));
    assert((a + b).skip(k + 1) =~= b.skip(j + 1));
    assert((a + b).update(k, b[j] + 1) =~= a + b.update(j, b[j] + 1));
    assert((a + b.take(j)) + seq![33nat, 32nat] + b.skip(j + 1) =~= a + (b.take(j) + seq![
        33nat,
        32nat,
    ] + b.skip(j + 1)));
    assert((a + b.take(j)) + seq![32nat, 33nat] + b.skip(j + 1) =~= a + (b.take(j) + seq![
        32nat,
        33nat,
    ] + b.skip(j + 1)));
}

/// Appending to two joined divisions appends to the second, which has a leaf.
pub proof fn lemma_pushed_right(a: Seq<nat>, b: Seq<nat>)
    requires
        b.len() > 0,
    ensures
        pushed(a + b) == a + pushed(b),
{
    assert((a + b).last() == b.last());
    assert((a + b).push(1) =~= a + b.push(1));
    assert((a + b).update((a + b).len() - 1, b.last() + 1) =~= a + b.update(
        b.len() - 1,
        b.last() + 1,
    ));
}

/// What the lengths under a tree are made of: one length for a leaf, and the lengths
/// under the two subtrees of a node, one after the other.
pub proof fn lemma_lengths_parts(a: &DynamicBitVector, s: Shape)
    ensures
        s is Nil ==> a.lengths_in(s) == Seq::<nat>::empty(),
        s is Leaf ==> a.lengths_in(s) == seq![a.leafs[s.idx()].nums as nat],
        s is Node ==> a.lengths_in(s) == a.lengths_in(s.lhs()) + a.lengths_in(s.rhs()),
        a.lengths_in(s).len() == s.leaf_order().len(),
{
    match s {
        Shape::Nil => {
            assert(a.lengths_in(s) =~= Seq::<nat>::empty());
        },
        Shape::Leaf { id } => {
            assert(a.lengths_in(s) =~= seq![a.leafs[id].nums as nat]);
        },
        Shape::Node { .. } => {
            assert(a.lengths_in(s) =~= a.lengths_in(s.lhs()) + a.lengths_in(s.rhs()));
        },
    }
}

/// The leaves in the order of a tree are the leaves of the tree, and a proper tree has
/// one at least.
pub proof fn lemma_order_ids(s: Shape)
    ensures
        forall|k: int| 0 <= k < s.leaf_order().len() ==> s.leaf_ids().contains(
            #[trigger] s.leaf_order()[k],
        ),
        s.proper() ==> s.leaf_order().len() > 0,
    decreases s,
{
    match s {
        Shape::Node { left, right, .. } => {
            lemma_order_ids(*left);
            lemma_order_ids(*right);
            assert forall|k: int| 0 <= k < s.leaf_order().len() implies s.leaf_ids().contains(
                #[trigger] s.leaf_order()[k],
            ) by {
                if k < left.leaf_order().len() {
                    assert(s.leaf_order()[k] == left.leaf_order()[k]);
                } else {
                    assert(s.leaf_order()[k] == right.leaf_order()[k - left.leaf_order().len()]);
                }
            }
        },
        Shape::Leaf { id } => {
            assert(s.leaf_ids().contains(id));
        },
        Shape::Nil => {},
    }
}

/// The lengths under a tree depend only on the leaves of the tree.
pub proof fn lemma_lengths_frame(a: &DynamicBitVector, b: &DynamicBitVector, s: Shape)
    requires
        forall|j: int| #[trigger] s.leaf_ids().contains(j) ==> b.leafs[j].nums == a.leafs[j].nums,
    ensures
        b.lengths_in(s) == a.lengths_in(s),
{
    lemma_order_ids(s);
    assert(b.lengths_in(s) =~= a.lengths_in(s));
}

/// Where one subtree of a node was replaced, the lengths under the node are the lengths
/// under the subtree that stayed and under the new subtree.
pub proof fn lemma_lengths_replaced(
    a: &DynamicBitVector,
    m: &DynamicBitVector,
    f: &DynamicBitVector,
    s: Shape,
    gp: Option<usize>,
    right_side: bool,
    c2: Shape,
)
    requires
        a.linked(s, gp),
        s is Node,
        s.distinct(),
        a.same_outside(m, if right_side {
            s.rhs()
        } else {
            s.lhs()
        }, Some(s.idx() as usize)),
        f.leafs@ == m.leafs@,
    ensures
        a.lengths_in(s) == a.lengths_in(s.lhs()) + a.lengths_in(s.rhs()),
        right_side ==> f.lengths_in(Shape::node(s.idx(), s.lhs(), c2)) == a.lengths_in(s.lhs())
            + m.lengths_in(c2),
        !right_side ==> f.lengths_in(Shape::node(s.idx(), c2, s.rhs())) == m.lengths_in(c2)
            + a.lengths_in(s.rhs()),
{
    let o = if right_side {
        s.lhs()
    } else {
        s.rhs()
    };
    lemma_ids_in_range(a, s, gp);
    lemma_lengths_parts(a, s);
    lemma_lengths_parts(f, Shape::node(s.idx(), s.lhs(), c2));
    lemma_lengths_parts(f, Shape::node(s.idx(), c2, s.rhs()));
    assert forall|j: int| #[trigger] o.leaf_ids().contains(j) implies f.leafs[j].nums
        == a.leafs[j].nums by {
        assert(s.leaf_ids().contains(j));
    }
    lemma_lengths_frame(a, f, o);
    assert(f.lengths_in(c2) =~= m.lengths_in(c2));
}

/// Where one subtree of a node was replaced (`a` to `m`), the node got its counters (`m`
/// to `f`) and was then rebalanced into `s3` (`f` to `g`), the lengths under `s3` are
/// the lengths under the subtree that stayed and under the new subtree.
pub proof fn lemma_lengths_step(
    a: &DynamicBitVector,
    m: &DynamicBitVector,
    f: &DynamicBitVector,
    g: &DynamicBitVector,
    s: Shape,
    gp: Option<usize>,
    right_side: bool,
    c2: Shape,
    s3: Shape,
)
    requires
        a.linked(s, gp),
        s is Node,
        s.distinct(),
        a.same_outside(m, if right_side {
            s.rhs()
        } else {
            s.lhs()
        }, Some(s.idx() as usize)),
        f.leafs@ == m.leafs@,
        f.same_contents(g),
        s3.leaf_order() == (if right_side {
            Shape::node(s.idx(), s.lhs(), c2)
        } else {
            Shape::node(s.idx(), c2, s.rhs())
        }).leaf_order(),
        forall|j: int| #[trigger] c2.leaf_ids().contains(j) ==> 0 <= j < m.leafs.len(),
    ensures
        a.lengths_in(s) == a.lengths_in(s.lhs()) + a.lengths_in(s.rhs()),
        right_side ==> g.lengths_in(s3) == a.lengths_in(s.lhs()) + m.lengths_in(c2),
        !right_side ==> g.lengths_in(s3) == m.lengths_in(c2) + a.lengths_in(s.rhs()),
{
    let s2 = if right_side {
        Shape::node(s.idx(), s.lhs(), c2)
    } else {
        Shape::node(s.idx(), c2, s.rhs())
    };
    lemma_lengths_replaced(a, m, f, s, gp, right_side, c2);
    lemma_ids_in_range(a, s, gp);
    lemma_order_ids(s2);
    assert(s2.leaf_ids() =~= s2.lhs().leaf_ids().union(s2.rhs().leaf_ids()));
    assert(s.leaf_ids() =~= s.lhs().leaf_ids().union(s.rhs().leaf_ids()));
    assert forall|k: int| 0 <= k < s2.leaf_order().len() implies 0 <= #[trigger] s2.leaf_order()[k]
        < f.leafs.len() by {
        let j = s2.leaf_order()[k];
        assert(s2.leaf_ids().contains(j));
        assert(c2.leaf_ids().contains(j) || s.leaf_ids().contains(j));
    }
    assert(g.lengths_in(s3) =~= f.lengths_in(s2));
}

/// The lengths under a laid-out tree add up to the number of its bits.
pub proof fn lemma_lengths_total(a: &DynamicBitVector, s: Shape, p: Option<usize>)
    requires
        a.sized(),
        a.linked(s, p),
    ensures
        total(a.lengths_in(s)) == a.bits_in(s).len(),
    decreases s,
{
    lemma_lengths_parts(a, s);
    lemma_child(a, s, p);
    match s {
        Shape::Node { id, left, right } => {
            lemma_lengths_total(a, *left, Some(id as usize));
            lemma_lengths_total(a, *right, Some(id as usize));
            lemma_total_concat(a.lengths_in(*left), a.lengths_in(*right));
        },
        Shape::Leaf { id } => {
            lemma_total_one(a.leafs[id].nums as nat);
        },
        Shape::Nil => {},
    }
}

/// The order of the leaves of a node is the order under its left subtree followed by
/// the order under its right subtree.
pub proof fn lemma_order_parts(s: Shape)
    requires
        s is Node,
    ensures
        s.leaf_order() == s.lhs().leaf_order() + s.rhs().leaf_order(),
{
}

/// A rotation keeps the leaves in their order.
pub proof fn lemma_rotated_order(s: Shape)
    requires
        s is Node,
    ensures
        s.rhs() is Node ==> s.rotated_left().leaf_order() == s.leaf_order(),
        s.lhs() is Node ==> s.rotated_right().leaf_order() == s.leaf_order(),
{
    let l = s.lhs();
    let r = s.rhs();
    lemma_order_parts(s);
    if r is Node {
        lemma_order_parts(r);
        let t = s.rotated_left();
        lemma_order_parts(t);
        lemma_order_parts(t.lhs());
        assert(l.leaf_order() + (r.lhs().leaf_order() + r.rhs().leaf_order()) =~= (l.leaf_order()
            + r.lhs().leaf_order()) + r.rhs().leaf_order());
    }
    if l is Node {
        lemma_order_parts(l);
        let t = s.rotated_right();
        lemma_order_parts(t);
        lemma_order_parts(t.rhs());
        assert((l.lhs().leaf_order() + l.rhs().leaf_order()) + r.leaf_order()
            =~= l.lhs().leaf_order() + (l.rhs().leaf_order() + r.leaf_order()));
    }
}

/// Rebalancing a tree keeps its leaves in their order.
pub proof fn lemma_rebalanced_order(s: Shape)
    requires
        s is Node,
        s.rhs().height() > s.lhs().height() ==> s.rhs() is Node && (s.rhs().rhs().height()
            < s.rhs().lhs().height() ==> s.rhs().lhs() is Node),
        s.rhs().height() <= s.lhs().height() ==> s.lhs() is Node && (s.lhs().lhs().height()
            < s.lhs().rhs().height() ==> s.lhs().rhs() is Node),
    ensures
        s.rebalanced().leaf_order() == s.leaf_order(),
{
    let l = s.lhs();
    let r = s.rhs();
    lemma_order_parts(s);
    lemma_rotated_order(s);
    if r.height() > l.height() {
        if r.rhs().height() < r.lhs().height() {
            lemma_rotated_order(r);
            let mid = Shape::node(s.idx(), l, r.rotated_right());
            lemma_order_parts(mid);
            lemma_rotated_order(mid);
        }
    } else {
        if l.lhs().height() < l.rhs().height() {
            lemma_rotated_order(l);
            let mid = Shape::node(s.idx(), l.rotated_left(), r);
            lemma_order_parts(mid);
            lemma_rotated_order(mid);
        }
    }
}

/// Mending a leaf of the first of two joined divisions, next to a neighbour in the
/// first, leaves the second as it is.
pub proof fn lemma_mended_left(a: Seq<nat>, b: Seq<nat>, k: int, right_child: bool)
    requires
        0 <= k < a.len(),
        right_child ==> k >= 1,
        !right_child ==> k + 1 < a.len(),
    ensures
        mended(a + b, k, right_child) == mended(a, k, right_child) + b,
{
    let nb = if right_child {
        k - 1
    } else {
        k + 1
    };
    let q = a + b;
    assert(q[nb] == a[nb] && q[k] == a[k]);
    assert(q.update(nb, q[nb] + q[k]).remove(k) =~= a.update(nb, a[nb] + a[k]).remove(k) + b);
    assert(q.update(nb, 32nat).update(k, (q[k] + q[nb] - 32) as nat) =~= a.update(
        nb,
        32nat,
    ).update(k, (a[k] + a[nb] - 32) as nat) + b);
    assert(q.update(nb, (q[nb] - 32) as nat).update(k, q[k] + 32) =~= a.update(
        nb,
        (a[nb] - 32) as nat,
    ).update(k, a[k] + 32) + b);
}

/// Mending a leaf of the second of two joined divisions, next to a neighbour in the
/// second, leaves the first as it is.
pub proof fn lemma_mended_right(a: Seq<nat>, b: Seq<nat>, k: int, right_child: bool)
    requires
        0 <= k < b.len(),
        right_child ==> k >= 1,
        !right_child ==> k + 1 < b.len(),
    ensures
        mended(a + b, a.len() + k, right_child) == a + mended(b, k, right_child),
{
    let nb = if right_child {
        k - 1
    } else {
        k + 1
    };
    let q = a + b;
    let n = a.len() as int;
    assert(q[n + nb] == b[nb] && q[n + k] == b[k]);
    assert(q.update(n + nb, q[n + nb] + q[n + k]).remove(n + k) =~= a + b.update(
        nb,
        b[nb] + b[k],
    ).remove(k));
    assert(q.update(n + nb, 32nat).update(n + k, (q[n + k] + q[n + nb] - 32) as nat) =~= a
        + b.update(nb, 32nat).update(k, (b[k] + b[nb] - 32) as nat));
    assert(q.update(n + nb, (q[n + nb] - 32) as nat).update(n + k, q[n + k] + 32) =~= a
        + b.update(nb, (b[nb] - 32) as nat).update(k, b[k] + 32));
}

/// Removing a bit from the first of two joined divisions, which is the division under
/// a node, leaves the second as it is.
pub proof fn lemma_deleted_left(
    a: Seq<nat>,
    fa: Seq<bool>,
    b: Seq<nat>,
    fb: Seq<bool>,
    index: int,
)
    requires
        b.len() > 0,
        0 <= index < total(a),
        a.len() >= 2,
        fa.len() == a.len(),
        !fa[0],
        fa.last(),
    ensures
        deleted(a + b, fa + fb, index) == deleted(a, fa, index) + b,
{
    lemma_leaf_index_concat(a, b, index);
    let k = leaf_index(a, index);
    let p = a + b;
    assert(p[k] == a[k]);
    assert((fa + fb)[k] == fa[k]);
    let q = a.update(k, (a[k] - 1) as nat);
    assert(p.update(k, (p[k] - 1) as nat) =~= q + b);
    if !(q[k] > 16) {
        lemma_mended_left(q, b, k, fa[k]);
    }
}

/// Removing a bit from the second of two joined divisions, which is the division under
/// a node, leaves the first as it is.
pub proof fn lemma_deleted_right(
    a: Seq<nat>,
    fa: Seq<bool>,
    b: Seq<nat>,
    fb: Seq<bool>,
    index: int,
)
    requires
        total(a) <= index,
        b.len() >= 2,
        fa.len() == a.len(),
        fb.len() == b.len(),
        !fb[0],
        fb.last(),
    ensures
        deleted(a + b, fa + fb, index) == a + deleted(b, fb, index - total(a)),
{
    lemma_leaf_index_concat(a, b, index);
    let j = leaf_index(b, index - total(a));
    lemma_leaf_index_range(b, index - total(a));
    let k = a.len() + j;
    let p = a + b;
    assert(p[k] == b[j]);
    assert((fa + fb)[k] == fb[j]);
    let q = b.update(j, (b[j] - 1) as nat);
    assert(p.update(k, (p[k] - 1) as nat) =~= a + q);
    if !(q[j] > 16) {
        lemma_mended_right(a, q, j, fb[j]);
    }
}

/// A proper tree has a flag for each of its leaves; under a node there are two leaves
/// at least, the first of which is a left child and the last a right child.
pub proof fn lemma_flags(s: Shape, as_right: bool)
    requires
        s.proper(),
    ensures
        s.right_flags(as_right).len() == s.leaf_order().len(),
        s.leaf_order().len() >= 1,
        s.leaf_order()[0] == s.leftmost(),
        s.leaf_order().last() == s.rightmost(),
        s is Node ==> s.leaf_order().len() >= 2 && !s.right_flags(as_right)[0] && s.right_flags(
            as_right,
        ).last() && s.right_flags(as_right) == s.lhs().right_flags(false) + s.rhs().right_flags(
            true,
        ),
        s is Leaf ==> s.right_flags(as_right) == seq![as_right],
    decreases s,
{
    match s {
        Shape::Node { left, right, .. } => {
            lemma_flags(*left, false);
            lemma_flags(*right, true);
        },
        _ => {},
    }
}

/// Where only the first leaf of a proper tree got another length, or only the last
/// one, the lengths under the tree are as before but for the first or the last.
pub proof fn lemma_lengths_extreme(
    a: &DynamicBitVector,
    f: &DynamicBitVector,
    o: Shape,
    first: bool,
)
    requires
        o.proper(),
        o.distinct(),
        forall|j: int|
            #[trigger] o.leaf_ids().contains(j) && j != (if first {
                o.leftmost()
            } else {
                o.rightmost()
            }) ==> f.leafs[j].nums == a.leafs[j].nums,
    ensures
        a.lengths_in(o).len() >= 1,
        first ==> f.lengths_in(o) == a.lengths_in(o).update(
            0,
            f.leafs[o.leftmost()].nums as nat,
        ) && a.lengths_in(o)[0] == a.leafs[o.leftmost()].nums,
        !first ==> f.lengths_in(o) == a.lengths_in(o).update(
            a.lengths_in(o).len() - 1,
            f.leafs[o.rightmost()].nums as nat,
        ) && a.lengths_in(o).last() == a.leafs[o.rightmost()].nums,
    decreases o,
{
    lemma_lengths_parts(a, o);
    lemma_lengths_parts(f, o);
    lemma_flags(o, false);
    match o {
        Shape::Node { left, right, .. } => {
            let l = *left;
            let r = *right;
            crate::dynamic_vector::shape::lemma_extremes(l);
            crate::dynamic_vector::shape::lemma_extremes(r);
            lemma_flags(l, false);
            lemma_flags(r, true);
            lemma_lengths_parts(a, l);
            lemma_lengths_parts(a, r);
            assert forall|j: int| #[trigger] l.leaf_ids().contains(j) implies o.leaf_ids().contains(
                j,
            ) by {}
            assert forall|j: int| #[trigger] r.leaf_ids().contains(j) implies o.leaf_ids().contains(
                j,
            ) by {}
            if first {
                lemma_lengths_extreme(a, f, l, true);
                assert forall|j: int| #[trigger] r.leaf_ids().contains(j) implies f.leafs[j].nums
                    == a.leafs[j].nums by {
                    assert(!l.leaf_ids().contains(j));
                }
                lemma_lengths_frame(a, f, r);
                assert(f.lengths_in(o) =~= a.lengths_in(o).update(
                    0,
                    f.leafs[o.leftmost()].nums as nat,
                ));
            } else {
                lemma_lengths_extreme(a, f, r, false);
                assert forall|j: int| #[trigger] l.leaf_ids().contains(j) implies f.leafs[j].nums
                    == a.leafs[j].nums by {
                    assert(!r.leaf_ids().contains(j));
                }
                lemma_lengths_frame(a, f, l);
                assert(f.lengths_in(o) =~= a.lengths_in(o).update(
                    a.lengths_in(o).len() - 1,
                    f.leafs[o.rightmost()].nums as nat,
                ));
            }
        },
        Shape::Leaf { id } => {
            assert(f.lengths_in(o) =~= a.lengths_in(o).update(0, f.leafs[id].nums as nat));
        },
        Shape::Nil => {},
    }
}

/// The place of a leaf of a proper tree is a place in the order of its leaves, at which
/// the leaf stands; a right child does not stand first, and a left child does not stand
/// last under a node.
pub proof fn lemma_place(s: Shape, id: int, as_right: bool)
    requires
        s.proper(),
        s.distinct(),
        s.leaf_ids().contains(id),
    ensures
        0 <= s.place_of(id) < s.leaf_order().len(),
        s.leaf_order()[s.place_of(id)] == id,
        s is Node ==> (s.right_flags(as_right)[s.place_of(id)] ==> s.place_of(id) >= 1) && (
        !s.right_flags(as_right)[s.place_of(id)] ==> s.place_of(id) + 1 < s.leaf_order().len()),
        s is Node ==> s.right_flags(as_right)[s.place_of(id)] == (if s.lhs().leaf_ids().contains(
            id,
        ) {
            s.lhs().right_flags(false)[s.lhs().place_of(id)]
        } else {
            s.rhs().right_flags(true)[s.rhs().place_of(id)]
        }),
    decreases s,
{
    lemma_flags(s, as_right);
    match s {
        Shape::Node { left, right, .. } => {
            lemma_flags(*left, false);
            lemma_flags(*right, true);
            if left.leaf_ids().contains(id) {
                lemma_place(*left, id, false);
            } else {
                lemma_place(*right, id, true);
            }
        },
        _ => {},
    }
}

/// The first leaf of a proper tree has the first place, and the last leaf the last.
pub proof fn lemma_place_extremes(s: Shape)
    requires
        s.proper(),
        s.distinct(),
    ensures
        s.place_of(s.leftmost()) == 0,
        s.place_of(s.rightmost()) == s.leaf_order().len() - 1,
    decreases s,
{
    match s {
        Shape::Node { left, right, .. } => {
            lemma_place_extremes(*left);
            lemma_place_extremes(*right);
            crate::dynamic_vector::shape::lemma_extremes(*left);
            crate::dynamic_vector::shape::lemma_extremes(*right);
        },
        _ => {},
    }
}

/// Moving a leaf to another slot leaves the lengths under a tree as they are.
pub proof fn lemma_lengths_renamed(
    a: &DynamicBitVector,
    f: &DynamicBitVector,
    s: Shape,
    from: int,
    to: int,
)
    requires
        !s.leaf_ids().contains(to),
        forall|j: int|
            #[trigger] s.leaf_ids().contains(j) && j != from ==> f.leafs[j].nums == a.leafs[j].nums,
        s.leaf_ids().contains(from) ==> f.leafs[to].nums == a.leafs[from].nums,
    ensures
        f.lengths_in(s.rename_leaf(from, to)) == a.lengths_in(s),
        s.rename_leaf(from, to).right_flags(false) == s.right_flags(false),
        s.rename_leaf(from, to).right_flags(true) == s.right_flags(true),
    decreases s,
{
    lemma_lengths_parts(a, s);
    lemma_lengths_parts(f, s.rename_leaf(from, to));
    match s {
        Shape::Node { left, right, .. } => {
            assert forall|j: int| #[trigger] left.leaf_ids().contains(j) implies s.leaf_ids().contains(
                j,
            ) by {}
            assert forall|j: int| #[trigger] right.leaf_ids().contains(j) implies s.leaf_ids().contains(
                j,
            ) by {}
            lemma_lengths_renamed(a, f, *left, from, to);
            lemma_lengths_renamed(a, f, *right, from, to);
            assert(s.rename_leaf(from, to).lhs() == left.rename_leaf(from, to));
            assert(s.rename_leaf(from, to).rhs() == right.rename_leaf(from, to));
        },
        Shape::Leaf { id } => {
            assert(s.leaf_ids().contains(id));
        },
        Shape::Nil => {},
    }
}

/// Moving a node to another index leaves the order and the sides of the leaves as they
/// are.
pub proof fn lemma_order_node_renamed(s: Shape, from: int, to: int)
    ensures
        s.rename_node(from, to).leaf_order() == s.leaf_order(),
        s.rename_node(from, to).right_flags(false) == s.right_flags(false),
        s.rename_node(from, to).right_flags(true) == s.right_flags(true),
    decreases s,
{
    match s {
        Shape::Node { left, right, .. } => {
            lemma_order_node_renamed(*left, from, to);
            lemma_order_node_renamed(*right, from, to);
        },
        _ => {},
    }
}

} // verus!
