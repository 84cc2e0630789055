use vstd::prelude::*;
use crate::dynamic_vector::model::{lemma_child, lemma_frame, lemma_ids_in_range};
use crate::dynamic_vector::partition::{
    lemma_lengths_frame, lemma_lengths_renamed, lemma_order_node_renamed,
};
use crate::dynamic_vector::shape::{lemma_rename_leaf_shape, lemma_rename_node_shape, Shape};
use crate::dynamic_vector::symmetry::lemma_symmetry;
use crate::dynamic_vector::DynamicBitVector;
use crate::leaf::Leaf;
use crate::node::Node;
use crate::side::Side;

verus! {

impl DynamicBitVector {
    /// The parent of the leaf `child`, and the side on which the parent has it.
    #[must_use]
    pub fn get_leaf_side(&self, child: isize) -> (r: Side<usize>)
        requires
            self.sized(),
            child < 0,
            -child < self.leafs.len(),
            self.leafs[-child].parent < self.nodes.len(),
            self.nodes[self.leafs[-child].parent as int].has_child(child),
        ensures
            r.value() == self.leafs[-child].parent,
            r is Left <==> self.nodes[self.leafs[-child].parent as int].left == Some(child),
    {
        let parent = self.leafs[(-child) as usize].parent;
        if let Some(l) = self.nodes[parent].left {
            if l == child {
                return Side::Left(parent);
            }
        }
        Side::Right(parent)
    }

    /// The parent of the node `child` and the side on which the parent has it; nothing
    /// where the node has no parent, or where its parent does not name it.
    #[must_use]
    pub fn get_node_side(&self, child: usize) -> (r: Option<Side<usize>>)
        requires
            self.sized(),
            child < self.nodes.len(),
            self.nodes[child as int].parent is Some ==> self.nodes[child as int].parent.unwrap()
                < self.nodes.len(),
        ensures
            match self.nodes[child as int].parent {
                None => r is None,
                Some(p) => if self.nodes[p as int].left == Some(child as isize) {
                    r == Some(Side::Left(p))
                } else if self.nodes[p as int].right == Some(child as isize) {
                    r == Some(Side::Right(p))
                } else {
                    r is None
                },
            },
    {
        if let Some(parent) = self.nodes[child].parent {
            if let Some(l) = self.nodes[parent].left {
                if l == child as isize {
                    return Some(Side::Left(parent));
                }
            }
            if let Some(r) = self.nodes[parent].right {
                if r == child as isize {
                    return Some(Side::Right(parent));
                }
            }
        }
        None
    }

    /// What `get_side` needs of the node or leaf named by `child`: it exists, and so
    /// does its parent; the parent of a leaf names the leaf.
    pub open spec fn side_known(&self, child: isize) -> bool {
        &&& self.sized()
        &&& self.names_entry(child)
        &&& if child >= 0 {
            self.nodes[child as int].parent is Some ==> self.nodes[child as int].parent.unwrap()
                < self.nodes.len()
        } else {
            &&& self.leafs[-child].parent < self.nodes.len()
            &&& self.nodes[self.leafs[-child].parent as int].has_child(child)
        }
    }

    /// The parent of the node or leaf named by `child`, and the side on which the
    /// parent has it.
    #[inline]
    #[must_use]
    pub fn get_side(&self, child: isize) -> (r: Option<Side<usize>>)
        requires
            self.side_known(child),
        ensures
            child < 0 ==> r is Some && r.unwrap().value() == self.leafs[-child].parent && (
            r.unwrap() is Left <==> self.nodes[self.leafs[-child].parent as int].left == Some(
                child,
            )),
            child >= 0 ==> match self.nodes[child as int].parent {
                None => r is None,
                Some(p) => if self.nodes[p as int].left == Some(child) {
                    r == Some(Side::Left(p))
                } else if self.nodes[p as int].right == Some(child) {
                    r == Some(Side::Right(p))
                } else {
                    r is None
                },
            },
    {
        if child >= 0 {
            self.get_node_side(child as usize)
        } else {
            Some(self.get_leaf_side(child))
        }
    }

    /// What the removal of the leaf `leaf` needs: the leaf exists and is not the unused
    /// slot 0, and unless it is the last leaf, the parent of the last leaf exists and
    /// names the last leaf.
    pub open spec fn can_swap_remove_leaf(&self, leaf: isize) -> bool {
        &&& self.sized()
        &&& leaf < 0
        &&& -leaf < self.leafs.len()
        &&& -leaf != self.leafs.len() - 1 ==> {
            &&& self.leafs@.last().parent < self.nodes.len()
            &&& self.nodes[self.leafs@.last().parent as int].has_child(
                (-(self.leafs.len() - 1)) as isize,
            )
        }
    }

    /// Removes the leaf `leaf` from the arena. The last leaf takes its slot, and the
    /// parent of that leaf names it by its new slot.
    pub fn swap_remove_leaf(&mut self, leaf: isize)
        requires
            old(self).can_swap_remove_leaf(leaf),
        ensures
            final(self).root == old(self).root,
            final(self).leafs@ == old(self).leafs@.update(-leaf, old(self).leafs@.last()).drop_last(),
            -leaf == old(self).leafs.len() - 1 ==> final(self).nodes@ == old(self).nodes@,
            -leaf != old(self).leafs.len() - 1 ==> final(self).nodes@ == old(self).nodes@.update(
                old(self).leafs@.last().parent as int,
                old(self).nodes[old(self).leafs@.last().parent as int].with_child(
                    (-(old(self).leafs.len() - 1)) as isize,
                    leaf,
                ),
            ),
    {
        let last = self.leafs.len() - 1;
        let li = (-leaf) as usize;
        if li != last {
            match self.get_leaf_side(-(last as isize)) {
                Side::Left(p) => {
                    let mut n = self.nodes[p];
                    n.left = Some(leaf);
                    self.nodes[p] = n;
                },
                Side::Right(p) => {
                    let mut n = self.nodes[p];
                    n.right = Some(leaf);
                    self.nodes[p] = n;
                },
            }
        }
        self.leafs.swap_remove(li);
    }

    /// Makes the node `i` name the node `to` wherever it named the node `from`, as its
    /// parent or as a child.
    fn rename_links(&mut self, i: usize, from: usize, to: usize)
        requires
            old(self).sized(),
            i < old(self).nodes.len(),
            from < old(self).nodes.len(),
            to < old(self).nodes.len(),
        ensures
            final(self).root == old(self).root,
            final(self).leafs@ == old(self).leafs@,
            final(self).nodes@ == old(self).nodes@.update(
                i as int,
                old(self).nodes[i as int].with_node_renamed(from, to),
            ),
    {
        let mut n = self.nodes[i];
        if let Some(p) = n.parent {
            if p == from {
                n.parent = Some(to);
            }
        }
        if let Some(l) = n.left {
            if l == from as isize {
                n.left = Some(to as isize);
            }
        }
        if let Some(r) = n.right {
            if r == from as isize {
                n.right = Some(to as isize);
            }
        }
        self.nodes[i] = n;
    }

    /// Tells the child `child` of the node `from` that this node now has the index
    /// `to`.
    fn rename_parent(&mut self, child: isize, from: usize, to: usize)
        requires
            old(self).sized(),
            old(self).names_entry(child),
            from < old(self).nodes.len(),
            to < old(self).nodes.len(),
        ensures
            final(self).root == old(self).root,
            child >= 0 ==> final(self).leafs@ == old(self).leafs@ && final(self).nodes@ == old(
                self,
            ).nodes@.update(child as int, old(self).nodes[child as int].with_node_renamed(from, to)),
            child < 0 ==> final(self).nodes@ == old(self).nodes@ && final(self).leafs@ == old(
                self,
            ).leafs@.update(-child, Leaf { parent: to, ..old(self).leafs[-child] }),
    {
        if child >= 0 {
            self.rename_links(child as usize, from, to);
        } else {
            let mut l = self.leafs[(-child) as usize];
            l.parent = to;
            self.leafs[(-child) as usize] = l;
        }
    }

    /// What the removal of the node `node` needs: the node exists, and unless it is the
    /// last node, the parent and the children that the last node names exist and are
    /// not the last node itself.
    pub open spec fn can_swap_remove_node(&self, node: usize) -> bool {
        &&& self.sized()
        &&& node < self.nodes.len()
        &&& node != self.nodes.len() - 1 ==> {
            let m = self.nodes@.last();
            &&& m.parent is Some ==> m.parent.unwrap() < self.nodes.len() - 1
            &&& m.left is Some ==> self.names_entry(m.left.unwrap()) && m.left.unwrap()
                != self.nodes.len() - 1
            &&& m.right is Some ==> self.names_entry(m.right.unwrap()) && m.right.unwrap()
                != self.nodes.len() - 1
        }
    }

    /// Whether the last node names the node `i` as its parent or as a child.
    pub open spec fn beside_last_node(&self, i: int) -> bool {
        let m = self.nodes@.last();
        m.parent == Some(i as usize) || m.left == Some(i as isize) || m.right == Some(i as isize)
    }

    /// Whether the last node names the leaf `j` as a child.
    pub open spec fn under_last_node(&self, j: int) -> bool {
        let m = self.nodes@.last();
        m.left == Some((-j) as isize) || m.right == Some((-j) as isize)
    }

    /// Removes the node `node` from the arena. The last node takes its index: its
    /// parent, or the root index, and its children name it by its new index.
    pub fn swap_remove_node(&mut self, node: usize)
        requires
            old(self).can_swap_remove_node(node),
        ensures
            final(self).nodes.len() == old(self).nodes.len() - 1,
            final(self).leafs.len() == old(self).leafs.len(),
            final(self).leafs[0] == old(self).leafs[0],
            node == old(self).nodes.len() - 1 ==> final(self).root == old(self).root && final(self).leafs@ == old(self).leafs@ && final(self).nodes@ == old(self).nodes@.drop_last(),
            node != old(self).nodes.len() - 1 ==> {
                &&& final(self).root == (if old(self).nodes@.last().parent is None {
                    node
                } else {
                    old(self).root
                })
                &&& final(self).nodes[node as int] == old(self).nodes@.last()
                &&& forall|i: int|
                    0 <= i < old(self).nodes.len() - 1 && i != node ==> #[trigger] final(self).nodes[i] == (if old(self).beside_last_node(i) {
                        old(self).nodes[i].with_node_renamed(
                            (old(self).nodes.len() - 1) as usize,
                            node,
                        )
                    } else {
                        old(self).nodes[i]
                    })
                &&& forall|j: int|
                    1 <= j < old(self).leafs.len() ==> #[trigger] final(self).leafs[j] == (if old(
                        self,
                    ).under_last_node(j) {
                        Leaf { parent: node, ..old(self).leafs[j] }
                    } else {
                        old(self).leafs[j]
                    })
            },
    {
        let last = self.nodes.len() - 1;
        if node != last {
            let moved = self.nodes[last];
            match moved.parent {
                Some(p) => {
                    self.rename_links(p, last, node);
                },
                None => {
                    self.root = node;
                },
            }
            if let Some(c) = moved.left {
                self.rename_parent(c, last, node);
            }
            if let Some(c) = moved.right {
                self.rename_parent(c, last, node);
            }
        }
        self.nodes.swap_remove(node);
    }

    /// The nodes and leaves of the tree `s` are in `f` what they are in this vector,
    /// but the leaf `from` has the slot `to`, and the nodes name it so.
    pub open spec fn leaf_renamed(&self, f: &DynamicBitVector, s: Shape, from: int, to: int) -> bool {
        &&& f.nodes.len() == self.nodes.len()
        &&& forall|i: int| #[trigger]
            s.node_ids().contains(i) ==> f.nodes[i] == self.nodes[i].with_child_renamed(
                (-from) as isize,
                (-to) as isize,
            )
        &&& forall|j: int| #[trigger]
            s.leaf_ids().contains(j) && j != from ==> j < f.leafs.len() && f.leafs[j]
                == self.leafs[j]
        &&& s.leaf_ids().contains(from) ==> to < f.leafs.len() && f.leafs[to] == self.leafs[from]
    }

    /// The nodes and leaves of the tree `s` are in `f` what they are in this vector,
    /// but the node `from` has the index `to`, and its parent and children name it so.
    pub open spec fn node_renamed(&self, f: &DynamicBitVector, s: Shape, from: int, to: int) -> bool {
        &&& f.leafs.len() == self.leafs.len()
        &&& forall|i: int| #[trigger]
            s.node_ids().contains(i) ==> {
                let i2 = if i == from {
                    to
                } else {
                    i
                };
                i2 < f.nodes.len() && f.nodes[i2] == self.nodes[i].with_node_renamed(
                    from as usize,
                    to as usize,
                )
            }
        &&& forall|j: int| #[trigger]
            s.leaf_ids().contains(j) ==> f.leafs[j] == (Leaf {
                parent: if self.leafs[j].parent == from {
                    to as usize
                } else {
                    self.leafs[j].parent
                },
                ..self.leafs[j]
            })
    }
}

/// A tree stays laid out, with the same bits, when one of its leaves moves to a slot
/// that the tree does not use.
pub proof fn lemma_rename_leaf(
    a: &DynamicBitVector,
    f: &DynamicBitVector,
    s: Shape,
    gp: Option<usize>,
    from: int,
    to: int,
)
    requires
        a.sized(),
        f.sized(),
        a.linked(s, gp),
        1 <= to <= isize::MAX,
        1 <= from <= isize::MAX,
        to != from,
        !s.leaf_ids().contains(to),
        a.leaf_renamed(f, s, from, to),
    ensures
        f.linked(s.rename_leaf(from, to), gp),
        f.bits_in(s.rename_leaf(from, to)) == a.bits_in(s),
    decreases s,
{
    lemma_child(a, s, gp);
    lemma_ids_in_range(a, s, gp);
    lemma_rename_leaf_shape(s, from, to);
    match s {
        Shape::Node { id, left, right } => {
            let l = *left;
            let r = *right;
            let idu = id as usize;
            assert(s.node_ids().contains(id));
            assert(forall|j: int| l.leaf_ids().contains(j) ==> s.leaf_ids().contains(j));
            assert(forall|j: int| r.leaf_ids().contains(j) ==> s.leaf_ids().contains(j));
            assert(forall|j: int| l.node_ids().contains(j) ==> s.node_ids().contains(j));
            assert(forall|j: int| r.node_ids().contains(j) ==> s.node_ids().contains(j));
            lemma_child(a, l, Some(idu));
            lemma_child(a, r, Some(idu));
            lemma_rename_leaf(a, f, l, Some(idu), from, to);
            lemma_rename_leaf(a, f, r, Some(idu), from, to);
            lemma_rename_leaf_shape(l, from, to);
            lemma_rename_leaf_shape(r, from, to);
            let s2 = s.rename_leaf(from, to);
            assert(s2.lhs() == l.rename_leaf(from, to));
            assert(s2.rhs() == r.rename_leaf(from, to));
            if l is Leaf {
                assert(l.leaf_ids().contains(l.idx()));
            }
            if r is Leaf {
                assert(r.leaf_ids().contains(r.idx()));
            }
            assert(f.nodes[id].left == s2.lhs().child_ref());
            assert(f.nodes[id].right == s2.rhs().child_ref());
        },
        Shape::Leaf { id } => {
            assert(s.leaf_ids().contains(id));
        },
        Shape::Nil => {},
    }
}

/// A tree stays laid out, with the same bits, when one of its nodes moves to an index
/// that the tree does not use.
pub proof fn lemma_rename_node(
    a: &DynamicBitVector,
    f: &DynamicBitVector,
    s: Shape,
    gp: Option<usize>,
    from: int,
    to: int,
)
    requires
        a.sized(),
        f.sized(),
        a.linked(s, gp),
        0 <= to <= isize::MAX,
        0 <= from <= isize::MAX,
        to != from,
        !s.node_ids().contains(to),
        a.node_renamed(f, s, from, to),
    ensures
        f.linked(
            s.rename_node(from, to),
            if gp == Some(from as usize) {
                Some(to as usize)
            } else {
                gp
            },
        ),
        f.bits_in(s.rename_node(from, to)) == a.bits_in(s),
    decreases s,
{
    lemma_child(a, s, gp);
    lemma_ids_in_range(a, s, gp);
    lemma_rename_node_shape(s, from, to);
    match s {
        Shape::Node { id, left, right } => {
            let l = *left;
            let r = *right;
            let idu = id as usize;
            assert(s.node_ids().contains(id));
            assert(forall|j: int| l.leaf_ids().contains(j) ==> s.leaf_ids().contains(j));
            assert(forall|j: int| r.leaf_ids().contains(j) ==> s.leaf_ids().contains(j));
            assert(forall|j: int| l.node_ids().contains(j) ==> s.node_ids().contains(j));
            assert(forall|j: int| r.node_ids().contains(j) ==> s.node_ids().contains(j));
            lemma_child(a, l, Some(idu));
            lemma_child(a, r, Some(idu));
            lemma_rename_node(a, f, l, Some(idu), from, to);
            lemma_rename_node(a, f, r, Some(idu), from, to);
            lemma_rename_node_shape(l, from, to);
            lemma_rename_node_shape(r, from, to);
            let s2 = s.rename_node(from, to);
            assert(s2.lhs() == l.rename_node(from, to));
            assert(s2.rhs() == r.rename_node(from, to));
            if l is Node {
                assert(l.node_ids().contains(l.idx()));
            }
            if r is Node {
                assert(r.node_ids().contains(r.idx()));
            }
            assert(f.nodes[s2.idx()].left == s2.lhs().child_ref());
            assert(f.nodes[s2.idx()].right == s2.rhs().child_ref());
        },
        Shape::Leaf { id } => {
            assert(s.leaf_ids().contains(id));
        },
        Shape::Nil => {},
    }
}

/// The leaf arena but for the slot `gone` is what the tree `s` uses.
pub open spec fn leaves_but(a: &DynamicBitVector, s: Shape, gone: int) -> bool {
    &&& 1 <= gone < a.leafs.len()
    &&& s.leaf_ids() =~= Set::new(|j: int| 1 <= j < a.leafs.len() && j != gone)
}

/// The node arena but for the index `gone` is what the tree `s` uses.
pub open spec fn nodes_but(a: &DynamicBitVector, s: Shape, gone: int) -> bool {
    &&& 0 <= gone < a.nodes.len()
    &&& s.node_ids() =~= Set::new(|i: int| 0 <= i < a.nodes.len() && i != gone)
}

/// A leaf that is not part of the tree can be removed from the arena.
pub proof fn lemma_can_swap_leaf(a: &DynamicBitVector, s: Shape, gone: int)
    requires
        a.sized(),
        a.linked(s, None),
        s.distinct(),
        s is Node,
        leaves_but(a, s, gone),
    ensures
        a.can_swap_remove_leaf((-gone) as isize),
{
    lemma_symmetry(a, s, None);
    let last = a.leafs.len() - 1;
    if gone != last {
        assert(s.leaf_ids().contains(last));
    }
}

/// After the removal of a leaf that was not part of the tree, the tree is laid out with
/// the last leaf in the slot of the removed one, and uses every leaf.
#[verifier::rlimit(60)]
pub proof fn lemma_leaf_swapped(a: &DynamicBitVector, f: &DynamicBitVector, s: Shape, gone: int)
    requires
        a.sized(),
        a.linked(s, None),
        s.distinct(),
        s is Node,
        leaves_but(a, s, gone),
        f.root == a.root,
        f.leafs@ == a.leafs@.update(gone, a.leafs@.last()).drop_last(),
        gone == a.leafs.len() - 1 ==> f.nodes@ == a.nodes@,
        gone != a.leafs.len() - 1 ==> f.nodes@ == a.nodes@.update(
            a.leafs@.last().parent as int,
            a.nodes[a.leafs@.last().parent as int].with_child(
                (-(a.leafs.len() - 1)) as isize,
                (-gone) as isize,
            ),
        ),
    ensures
        f.sized(),
        f.linked(s.rename_leaf(a.leafs.len() - 1, gone), None),
        f.bits_in(s.rename_leaf(a.leafs.len() - 1, gone)) == a.bits_in(s),
        s.rename_leaf(a.leafs.len() - 1, gone).leaf_ids() =~= Set::new(
            |j: int| 1 <= j < f.leafs.len(),
        ),
        s.rename_leaf(a.leafs.len() - 1, gone).node_ids() =~= s.node_ids(),
        s.rename_leaf(a.leafs.len() - 1, gone).distinct(),
        s.rename_leaf(a.leafs.len() - 1, gone).balanced() == s.balanced(),
        s.rename_leaf(a.leafs.len() - 1, gone).rooted() == s.rooted(),
        s.rename_leaf(a.leafs.len() - 1, gone).proper() == s.proper(),
        s.rename_leaf(a.leafs.len() - 1, gone) is Node,
        s.rename_leaf(a.leafs.len() - 1, gone).idx() == s.idx(),
        f.lengths_in(s.rename_leaf(a.leafs.len() - 1, gone)) == a.lengths_in(s),
        s.rename_leaf(a.leafs.len() - 1, gone).right_flags(false) == s.right_flags(false),
{
    let last = a.leafs.len() - 1;
    lemma_symmetry(a, s, None);
    lemma_rename_leaf_shape(s, last, gone);
    if gone == last {
        lemma_ids_in_range(a, s, None);
        assert(!s.leaf_ids().contains(last));
        assert(a.agrees(f, s));
        lemma_frame(a, f, s, None);
        lemma_lengths_frame(a, f, s);
    } else {
        lemma_leaf_swap_renames(a, f, s, gone);
        lemma_rename_leaf(a, f, s, None, last, gone);
        lemma_lengths_renamed(a, f, s, last, gone);
    }
}

/// What the removal of a leaf does to the arenas is a renaming of the last leaf.
#[verifier::rlimit(40)]
proof fn lemma_leaf_swap_renames(a: &DynamicBitVector, f: &DynamicBitVector, s: Shape, gone: int)
    requires
        a.sized(),
        a.symmetric(s, None),
        s is Node,
        leaves_but(a, s, gone),
        gone != a.leafs.len() - 1,
        f.leafs@ == a.leafs@.update(gone, a.leafs@.last()).drop_last(),
        f.nodes@ == a.nodes@.update(
            a.leafs@.last().parent as int,
            a.nodes[a.leafs@.last().parent as int].with_child(
                (-(a.leafs.len() - 1)) as isize,
                (-gone) as isize,
            ),
        ),
    ensures
        a.leaf_renamed(f, s, a.leafs.len() - 1, gone),
{
    let last = a.leafs.len() - 1;
    assert(s.leaf_ids().contains(last));
    let p = a.leafs[last].parent as int;
    assert(a.parent_ok(s, None, Some(a.leafs[last].parent), (-last) as isize));
    assert(s.node_ids().contains(p));
    assert forall|i: int| #[trigger] s.node_ids().contains(i) implies f.nodes[i]
        == a.nodes[i].with_child_renamed((-last) as isize, (-gone) as isize) by {
        assert(a.child_ok(s, a.nodes[i].left, i));
        assert(a.child_ok(s, a.nodes[i].right, i));
    }
    assert forall|j: int| #[trigger] s.leaf_ids().contains(j) && j != last implies j
        < f.leafs.len() && f.leafs[j] == a.leafs[j] by {}
}

/// A node that is not part of the tree can be removed from the arena.
pub proof fn lemma_can_swap_node(a: &DynamicBitVector, s: Shape, gone: int)
    requires
        a.sized(),
        a.linked(s, None),
        s.distinct(),
        s is Node,
        nodes_but(a, s, gone),
    ensures
        a.can_swap_remove_node(gone as usize),
{
    lemma_symmetry(a, s, None);
    lemma_ids_in_range(a, s, None);
    let last = a.nodes.len() - 1;
    if gone != last {
        assert(s.node_ids().contains(last));
        let m = a.nodes[last];
        assert(a.child_ok(s, m.left, last));
        assert(a.child_ok(s, m.right, last));
        assert(a.parent_ok(s, None, m.parent, last as isize));
        if m.parent is Some {
            let q = m.parent.unwrap() as int;
            assert(s.node_ids().contains(q));
            assert(a.child_ok(s, a.nodes[q].left, q));
            assert(a.child_ok(s, a.nodes[q].right, q));
        }
    }
}

/// After the removal of a node that was not part of the tree, the tree is laid out with
/// the last node at the index of the removed one, and uses every node.
#[verifier::rlimit(60)]
pub proof fn lemma_node_swapped(a: &DynamicBitVector, f: &DynamicBitVector, s: Shape, gone: int)
    requires
        a.sized(),
        a.linked(s, None),
        s.distinct(),
        s is Node,
        s.idx() == a.root,
        nodes_but(a, s, gone),
        f.nodes.len() == a.nodes.len() - 1,
        f.leafs.len() == a.leafs.len(),
        gone == a.nodes.len() - 1 ==> f.root == a.root && f.leafs@ == a.leafs@ && f.nodes@
            == a.nodes@.drop_last(),
        gone != a.nodes.len() - 1 ==> {
            &&& f.root == (if a.nodes@.last().parent is None {
                gone as usize
            } else {
                a.root
            })
            &&& f.nodes[gone] == a.nodes@.last()
            &&& forall|i: int|
                0 <= i < a.nodes.len() - 1 && i != gone ==> #[trigger] f.nodes[i] == (
                if a.beside_last_node(i) {
                    a.nodes[i].with_node_renamed((a.nodes.len() - 1) as usize, gone as usize)
                } else {
                    a.nodes[i]
                })
            &&& forall|j: int|
                1 <= j < a.leafs.len() ==> #[trigger] f.leafs[j] == (if a.under_last_node(j) {
                    Leaf { parent: gone as usize, ..a.leafs[j] }
                } else {
                    a.leafs[j]
                })
        },
    ensures
        f.sized(),
        f.linked(s.rename_node(a.nodes.len() - 1, gone), None),
        f.bits_in(s.rename_node(a.nodes.len() - 1, gone)) == a.bits_in(s),
        s.rename_node(a.nodes.len() - 1, gone).node_ids() =~= Set::new(
            |i: int| 0 <= i < f.nodes.len(),
        ),
        s.rename_node(a.nodes.len() - 1, gone).leaf_ids() =~= s.leaf_ids(),
        s.rename_node(a.nodes.len() - 1, gone).distinct(),
        s.rename_node(a.nodes.len() - 1, gone).balanced() == s.balanced(),
        s.rename_node(a.nodes.len() - 1, gone).rooted() == s.rooted(),
        s.rename_node(a.nodes.len() - 1, gone).proper() == s.proper(),
        s.rename_node(a.nodes.len() - 1, gone) is Node,
        s.rename_node(a.nodes.len() - 1, gone).idx() == f.root,
        f.lengths_in(s.rename_node(a.nodes.len() - 1, gone)) == a.lengths_in(s),
        s.rename_node(a.nodes.len() - 1, gone).right_flags(false) == s.right_flags(false),
{
    let last = a.nodes.len() - 1;
    lemma_symmetry(a, s, None);
    lemma_rename_node_shape(s, last, gone);
    lemma_child(a, s, None);
    assert(s.node_ids().contains(s.idx()));
    lemma_order_node_renamed(s, last, gone);
    lemma_ids_in_range(a, s, None);
    assert forall|j: int| #[trigger] s.leaf_ids().contains(j) implies f.leafs[j].nums
        == a.leafs[j].nums by {}
    lemma_lengths_frame(a, f, s);
    assert(f.lengths_in(s.rename_node(last, gone)) =~= f.lengths_in(s));
    if gone == last {
        assert(!s.node_ids().contains(last));
        assert(a.agrees(f, s));
        lemma_frame(a, f, s, None);
    } else {
        lemma_node_swap_renames(a, f, s, gone);
        lemma_rename_node(a, f, s, None, last, gone);
        let m = a.nodes[last];
        assert(s.node_ids().contains(last));
        assert(a.parent_ok(s, None, m.parent, last as isize));
    }
}

/// What the removal of a node does to the arenas is a renaming of the last node.
#[verifier::rlimit(40)]
proof fn lemma_node_swap_renames(a: &DynamicBitVector, f: &DynamicBitVector, s: Shape, gone: int)
    requires
        a.sized(),
        a.symmetric(s, None),
        s is Node,
        nodes_but(a, s, gone),
        gone != a.nodes.len() - 1,
        f.nodes.len() == a.nodes.len() - 1,
        f.leafs.len() == a.leafs.len(),
        f.nodes[gone] == a.nodes@.last(),
        forall|i: int|
            0 <= i < a.nodes.len() - 1 && i != gone ==> #[trigger] f.nodes[i] == (
            if a.beside_last_node(i) {
                a.nodes[i].with_node_renamed((a.nodes.len() - 1) as usize, gone as usize)
            } else {
                a.nodes[i]
            }),
        forall|j: int|
            1 <= j < a.leafs.len() ==> #[trigger] f.leafs[j] == (if a.under_last_node(j) {
                Leaf { parent: gone as usize, ..a.leafs[j] }
            } else {
                a.leafs[j]
            }),
    ensures
        a.node_renamed(f, s, a.nodes.len() - 1, gone),
{
    let last = a.nodes.len() - 1;
    {
        assert(s.node_ids().contains(last));
        let m = a.nodes[last];
        assert(a.child_ok(s, m.left, last));
        assert(a.child_ok(s, m.right, last));
        assert(a.parent_ok(s, None, m.parent, last as isize));
        assert forall|i: int| #[trigger] s.node_ids().contains(i) implies ({
            let i2 = if i == last {
                gone
            } else {
                i
            };
            i2 < f.nodes.len() && f.nodes[i2] == a.nodes[i].with_node_renamed(
                last as usize,
                gone as usize,
            )
        }) by {
            let n = a.nodes[i];
            assert(a.child_ok(s, n.left, i));
            assert(a.child_ok(s, n.right, i));
            assert(a.parent_ok(s, None, n.parent, i as isize));
            if n.parent is Some {
                let q = n.parent.unwrap() as int;
                assert(s.child_ref() != Some(i as isize) ==> a.nodes[q].has_child(i as isize));
            }
        }
        assert forall|j: int| #[trigger] s.leaf_ids().contains(j) implies f.leafs[j] == (Leaf {
            parent: if a.leafs[j].parent == last {
                gone as usize
            } else {
                a.leafs[j].parent
            },
            ..a.leafs[j]
        }) by {
            assert(a.parent_ok(s, None, Some(a.leafs[j].parent), (-j) as isize));
        }
    }
}

} // verus!
