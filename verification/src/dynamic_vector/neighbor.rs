use vstd::prelude::*;
use crate::dynamic_vector::laws::lemma_every_node;
use crate::dynamic_vector::balance::lemma_children_differ;
use crate::dynamic_vector::model::{lemma_child, lemma_ids_in_range, lemma_subtree};
use crate::dynamic_vector::partition::lemma_place_extremes;
use crate::dynamic_vector::shape::{lemma_node_parts, lemma_proper_height, Shape};
use crate::dynamic_vector::symmetry::lemma_symmetry;
use crate::dynamic_vector::DynamicBitVector;
use crate::side::Side;

verus! {

impl DynamicBitVector {
    /// The parent of the node or leaf named by `c`.
    pub open spec fn parent_of(&self, c: isize) -> Option<usize> {
        if c >= 0 {
            self.nodes[c as int].parent
        } else {
            Some(self.leafs[-c].parent)
        }
    }

    /// `r` is the leaf next to the subtree named by `c`, in the order of the bits, among
    /// the leaves under the parent of `c`: the first leaf under the right sibling of a
    /// left child, tagged `Right`, or the last leaf under the left sibling of a right
    /// child, tagged `Left`; nothing where `c` has no parent or no sibling.
    pub open spec fn is_neighbor_of(&self, c: isize, r: Option<Side<isize>>) -> bool {
        match self.parent_of(c) {
            None => r is None,
            Some(p) => {
                let n = self.nodes[p as int];
                if n.left == Some(c) {
                    match n.right {
                        None => r is None,
                        Some(o) => r is Some && r.unwrap() is Right && r.unwrap().value() < 0
                            && -r.unwrap().value() == self.subtree(o).leftmost(),
                    }
                } else {
                    match n.left {
                        None => r is None,
                        Some(o) => r is Some && r.unwrap() is Left && r.unwrap().value() < 0
                            && -r.unwrap().value() == self.subtree(o).rightmost(),
                    }
                }
            },
        }
    }

    /// The leaf next to the subtree of the child `c` of the node `p`, found by going
    /// down the sibling of `c` on the side that faces `c`.
    fn neighbor_under(&self, c: isize, p: usize) -> (r: Option<Side<isize>>)
        requires
            self.wf(),
            p < self.nodes.len(),
            self.nodes[p as int].has_child(c),
            self.parent_of(c) == Some(p),
        ensures
            self.is_neighbor_of(c, r),
            r is None <==> (self.nodes[p as int].left is None || self.nodes[p as int].right
                is None),
    {
        let ghost s = self.shape();
        proof {
            assert(s.node_ids().contains(p as int));
            lemma_every_node(self, s, None);
            lemma_symmetry(self, s, None);
        }
        let n = self.nodes[p];
        let on_left = match n.left {
            Some(l) => l == c,
            None => false,
        };
        if on_left {
            match n.right {
                Some(o) => {
                    let ghost so = self.subtree(o);
                    let nb = self.descend_leftmost(o, Ghost(so), Ghost(Some(p)));
                    Some(Side::Right(nb))
                },
                None => None,
            }
        } else {
            match n.left {
                Some(o) => {
                    let ghost so = self.subtree(o);
                    let nb = self.descend_rightmost(o, Ghost(so), Ghost(Some(p)));
                    Some(Side::Left(nb))
                },
                None => None,
            }
        }
    }

    /// The leaf next to the subtree of the node `child`, in the order of the bits,
    /// among the leaves under the parent of `child`, with the side on which it lies.
    /// Nothing for the root.
    #[must_use]
    pub fn closest_neighbor_child(&self, child: usize) -> (r: Option<Side<isize>>)
        requires
            self.wf(),
            child < self.nodes.len(),
        ensures
            self.is_neighbor_of(child as isize, r),
            r is None <==> child == self.root,
    {
        let ghost s = self.shape();
        proof {
            assert(s.node_ids().contains(child as int));
            lemma_symmetry(self, s, None);
            lemma_every_node(self, s, None);
            lemma_child(self, s, None);
            assert(self.parent_ok(s, None, self.nodes[child as int].parent, child as isize));
        }
        match self.nodes[child].parent {
            Some(p) => {
                proof {
                    assert(s.node_ids().contains(p as int));
                    lemma_root_children(self, s, child as int);
                }
                self.neighbor_under(child as isize, p)
            },
            None => None,
        }
    }

    /// The leaf next to the leaf `leaf` in the order of the bits, with the side on
    /// which it lies. Nothing where `leaf` is the only leaf.
    #[must_use]
    pub fn closest_neighbor_leaf(&self, leaf: isize) -> (r: Option<Side<isize>>)
        requires
            self.wf(),
            leaf < 0,
            -leaf < self.leafs.len(),
        ensures
            self.is_neighbor_of(leaf, r),
            r is None <==> self.leafs.len() == 2,
            r is Some && r.unwrap() is Right ==> self.shape().place_of(-r.unwrap().value())
                == self.shape().place_of(-leaf) + 1,
            r is Some && r.unwrap() is Left ==> self.shape().place_of(-r.unwrap().value())
                == self.shape().place_of(-leaf) - 1,
    {
        let ghost s = self.shape();
        proof {
            assert(s.leaf_ids().contains(-leaf));
            if s.proper() {
                lemma_neighbor_adjacent(self, s, None, -leaf);
                assert((-(-leaf)) as isize == leaf);
            } else {
                lemma_node_parts(s);
                lemma_child(self, s, None);
                lemma_child(self, s.lhs(), Some(self.root));
                lemma_child(self, s.rhs(), Some(self.root));
                assert(s.leaf_ids() =~= s.lhs().leaf_ids().union(s.rhs().leaf_ids()));
                assert(Shape::Nil.leaf_ids() =~= Set::<int>::empty());
                let kept = if s.lhs() is Nil {
                    s.rhs()
                } else {
                    s.lhs()
                };
                assert(kept.proper());
                lemma_proper_height(kept);
                crate::dynamic_vector::shape::lemma_height_nonneg(kept);
                assert(kept is Leaf);
                assert(kept.leaf_ids() =~= Set::<int>::empty().insert(kept.idx()));
                assert(kept.idx() == -leaf);
                assert(self.leafs[-leaf].parent == self.root);
            }
            lemma_symmetry(self, s, None);
            lemma_ids_in_range(self, s, None);
            assert(self.parent_ok(s, None, Some(self.leafs[-leaf].parent), leaf));
            lemma_sole_leaf(self, s, -leaf);
        }
        let parent = self.leafs[(-leaf) as usize].parent;
        self.neighbor_under(leaf, parent)
    }
}

/// The leaf that stands next to a leaf under the parent of that leaf stands next to it
/// in the order of all leaves: behind a left child, before a right child.
pub proof fn lemma_neighbor_adjacent(a: &DynamicBitVector, s: Shape, gp: Option<usize>, leaf: int)
    requires
        a.sized(),
        a.linked(s, gp),
        s.proper(),
        s.distinct(),
        s is Node,
        s.leaf_ids().contains(leaf),
    ensures
        ({
            let n = a.nodes[a.leafs[leaf].parent as int];
            &&& n.left is Some
            &&& n.right is Some
            &&& n.left == Some((-leaf) as isize) ==> {
                let nb = a.subtree(n.right.unwrap()).leftmost();
                s.leaf_ids().contains(nb) && s.place_of(nb) == s.place_of(leaf) + 1
            }
            &&& n.left != Some((-leaf) as isize) ==> {
                let nb = a.subtree(n.left.unwrap()).rightmost();
                s.leaf_ids().contains(nb) && s.place_of(nb) == s.place_of(leaf) - 1
            }
        }),
    decreases s,
{
    let x = s.idx() as usize;
    let l = s.lhs();
    let r = s.rhs();
    lemma_node_parts(s);
    lemma_child(a, s, gp);
    lemma_child(a, l, Some(x));
    lemma_child(a, r, Some(x));
    lemma_children_differ(a, s, gp);
    lemma_ids_in_range(a, s, gp);
    crate::dynamic_vector::shape::lemma_extremes(l);
    crate::dynamic_vector::shape::lemma_extremes(r);
    lemma_place_extremes(l);
    lemma_place_extremes(r);
    crate::dynamic_vector::partition::lemma_flags(l, false);
    crate::dynamic_vector::partition::lemma_flags(r, true);
    assert(s.leaf_ids() =~= l.leaf_ids().union(r.leaf_ids()));
    if l is Leaf && l.idx() == leaf {
        lemma_subtree(a, r, Some(x));
        assert(l.leaf_ids().contains(leaf));
        assert(!l.leaf_ids().contains(r.leftmost()));
    } else if r is Leaf && r.idx() == leaf {
        lemma_subtree(a, l, Some(x));
        assert(r.leaf_ids().contains(leaf));
        assert(!l.leaf_ids().contains(leaf));
    } else if l.leaf_ids().contains(leaf) {
        if l is Leaf {
            assert(l.leaf_ids() =~= Set::<int>::empty().insert(l.idx()));
        }
        lemma_neighbor_adjacent(a, l, Some(x), leaf);
    } else {
        if r is Leaf {
            assert(r.leaf_ids() =~= Set::<int>::empty().insert(r.idx()));
        }
        lemma_neighbor_adjacent(a, r, Some(x), leaf);
        let n = a.nodes[a.leafs[leaf].parent as int];
        if n.left == Some((-leaf) as isize) {
            assert(!l.leaf_ids().contains(a.subtree(n.right.unwrap()).leftmost()));
        } else {
            assert(!l.leaf_ids().contains(a.subtree(n.left.unwrap()).rightmost()));
        }
    }
}

/// A node that is the child of another node has a sibling.
proof fn lemma_root_children(a: &DynamicBitVector, s: Shape, child: int)
    requires
        a.tree_inv(s),
        s.node_ids().contains(child),
        a.nodes[child].parent is Some,
    ensures
        a.nodes[a.nodes[child].parent.unwrap() as int].left is Some,
        a.nodes[a.nodes[child].parent.unwrap() as int].right is Some,
{
    let p = a.nodes[child].parent.unwrap() as int;
    lemma_symmetry(a, s, None);
    lemma_every_node(a, s, None);
    lemma_child(a, s, None);
    assert(a.parent_ok(s, None, a.nodes[child].parent, child as isize));
    assert(s.node_ids().contains(p));
    if p == s.idx() {
        lemma_node_parts(s);
        lemma_child(a, s.lhs(), Some(p as usize));
        lemma_child(a, s.rhs(), Some(p as usize));
        let sc = if a.nodes[p].left == Some(child as isize) {
            s.lhs()
        } else {
            s.rhs()
        };
        assert(sc is Node);
        lemma_proper_height(sc);
        crate::dynamic_vector::shape::lemma_height_nonneg(s.lhs());
        crate::dynamic_vector::shape::lemma_height_nonneg(s.rhs());
    }
}

/// A leaf whose parent has no other child is the only leaf.
proof fn lemma_sole_leaf(a: &DynamicBitVector, s: Shape, leaf: int)
    requires
        a.tree_inv(s),
        s.leaf_ids().contains(leaf),
    ensures
        (a.nodes[a.leafs[leaf].parent as int].left is None || a.nodes[a.leafs[leaf].parent as int].right
            is None) <==> a.leafs.len() == 2,
{
    let p = a.leafs[leaf].parent as int;
    lemma_symmetry(a, s, None);
    lemma_every_node(a, s, None);
    lemma_ids_in_range(a, s, None);
    lemma_child(a, s, None);
    assert(a.parent_ok(s, None, Some(a.leafs[leaf].parent), (-leaf) as isize));
    assert(s.node_ids().contains(p));
    lemma_node_parts(s);
    lemma_child(a, s.lhs(), Some(s.idx() as usize));
    lemma_child(a, s.rhs(), Some(s.idx() as usize));
    assert(s.leaf_ids() =~= s.lhs().leaf_ids().union(s.rhs().leaf_ids()));
    assert(Shape::Nil.leaf_ids() =~= Set::<int>::empty());
    if a.nodes[p].left is None || a.nodes[p].right is None {
        assert(p == s.idx());
        let kept = if a.nodes[p].left is None {
            s.rhs()
        } else {
            s.lhs()
        };
        lemma_proper_height(kept);
        crate::dynamic_vector::shape::lemma_height_nonneg(kept);
        assert(kept is Leaf);
        assert(kept.leaf_ids() =~= Set::<int>::empty().insert(kept.idx()));
        assert(s.leaf_ids().contains(1));
        assert(!s.leaf_ids().contains(2) || !s.leaf_ids().contains(1));
    }
    if a.leafs.len() == 2 {
        assert(leaf == 1);
        if a.nodes[p].left is Some && a.nodes[p].right is Some {
            assert(a.child_ok(s, a.nodes[p].left, p));
            assert(a.child_ok(s, a.nodes[p].right, p));
            assert(a.child_laid_out(a.nodes[p].left, p));
            assert(a.child_laid_out(a.nodes[p].right, p));
            let l = a.subtree(a.nodes[p].left.unwrap());
            let r = a.subtree(a.nodes[p].right.unwrap());
            crate::dynamic_vector::shape::lemma_extremes(l);
            crate::dynamic_vector::shape::lemma_extremes(r);
            lemma_ids_in_range(a, l, Some(p as usize));
            lemma_ids_in_range(a, r, Some(p as usize));
            lemma_child(a, l, Some(p as usize));
            lemma_child(a, r, Some(p as usize));
            assert(l.leftmost() == 1);
            assert(r.leftmost() == 1);
            lemma_leftmost_ref(a, l, Some(p as usize));
            lemma_leftmost_ref(a, r, Some(p as usize));
        }
    }
}

/// A laid-out proper tree that has the leaf in slot 1 as its only possible leaf is
/// that leaf.
proof fn lemma_leftmost_ref(a: &DynamicBitVector, t: Shape, p: Option<usize>)
    requires
        a.sized(),
        a.leafs.len() == 2,
        a.linked(t, p),
        t.proper(),
        t.distinct(),
    ensures
        t == (Shape::Leaf { id: 1 }),
{
    lemma_ids_in_range(a, t, p);
    match t {
        Shape::Node { id, left, right } => {
            crate::dynamic_vector::shape::lemma_extremes(*left);
            crate::dynamic_vector::shape::lemma_extremes(*right);
            lemma_ids_in_range(a, *left, Some(id as usize));
            lemma_ids_in_range(a, *right, Some(id as usize));
            assert(left.leaf_ids().contains(1));
            assert(right.leaf_ids().contains(1));
        },
        Shape::Leaf { id } => {
            assert(t.leaf_ids().contains(id));
        },
        Shape::Nil => {},
    }
}

} // verus!
