use vstd::prelude::*;
use crate::dynamic_vector::model::{lemma_child, lemma_ids_in_range};
use crate::dynamic_vector::shape::Shape;
use crate::dynamic_vector::DynamicBitVector;

verus! {

impl DynamicBitVector {
    /// The child reference `c` of the node `i` names a node or leaf of the tree `s`
    /// whose parent is `i`.
    pub open spec fn child_ok(&self, s: Shape, c: Option<isize>, i: int) -> bool {
        match c {
            None => true,
            Some(c) => if c >= 0 {
                &&& c != i
                &&& s.node_ids().contains(c as int)
                &&& self.nodes[c as int].parent == Some(i as usize)
            } else {
                &&& s.leaf_ids().contains(-c)
                &&& self.leafs[-c].parent == i
            },
        }
    }

    /// The parent `q` of the node or leaf named by `c` is a node of the tree `s` that
    /// has `c` as a child, unless `c` names the root of `s`: then `q` is the parent
    /// `gp` of the tree.
    pub open spec fn parent_ok(&self, s: Shape, gp: Option<usize>, q: Option<usize>, c: isize) -> bool {
        if s.child_ref() == Some(c) {
            q == gp
        } else {
            &&& q is Some
            &&& s.node_ids().contains(q.unwrap() as int)
            &&& self.nodes[q.unwrap() as int].has_child(c)
        }
    }

    /// Parents and children of the tree `s` name each other: every child that a node of
    /// `s` names has that node as its parent, every node and leaf of `s` is named as a
    /// child by its parent, and no node names the same child twice.
    pub open spec fn symmetric(&self, s: Shape, gp: Option<usize>) -> bool {
        &&& forall|i: int| #[trigger]
            s.node_ids().contains(i) ==> {
                &&& 0 <= i < self.nodes.len() <= isize::MAX
                &&& self.child_ok(s, self.nodes[i].left, i)
                &&& self.child_ok(s, self.nodes[i].right, i)
                &&& self.parent_ok(s, gp, self.nodes[i].parent, i as isize)
                &&& (self.nodes[i].left is Some ==> self.nodes[i].left != self.nodes[i].right)
            }
        &&& forall|j: int| #[trigger]
            s.leaf_ids().contains(j) ==> {
                &&& 1 <= j < self.leafs.len() <= isize::MAX
                &&& self.parent_ok(s, gp, Some(self.leafs[j].parent), (-j) as isize)
            }
    }
}

/// In a laid-out tree, parents and children name each other.
pub proof fn lemma_symmetry(a: &DynamicBitVector, s: Shape, gp: Option<usize>)
    requires
        a.sized(),
        a.linked(s, gp),
        s.distinct(),
    ensures
        a.symmetric(s, gp),
    decreases s,
{
    lemma_child(a, s, gp);
    lemma_ids_in_range(a, s, gp);
    match s {
        Shape::Node { id, left, right } => {
            let l = *left;
            let r = *right;
            let idu = id as usize;
            lemma_symmetry(a, l, Some(idu));
            lemma_symmetry(a, r, Some(idu));
            lemma_child(a, l, Some(idu));
            lemma_child(a, r, Some(idu));
            lemma_ids_in_range(a, l, Some(idu));
            lemma_ids_in_range(a, r, Some(idu));
            assert(s.node_ids().contains(id));
            if l is Node {
                assert(l.node_ids().contains(l.idx()));
            }
            if r is Node {
                assert(r.node_ids().contains(r.idx()));
            }
            if l is Leaf {
                assert(l.leaf_ids().contains(l.idx()));
            }
            if r is Leaf {
                assert(r.leaf_ids().contains(r.idx()));
            }
            assert forall|i: int| #[trigger] s.node_ids().contains(i) implies {
                &&& 0 <= i < a.nodes.len() <= isize::MAX
                &&& a.child_ok(s, a.nodes[i].left, i)
                &&& a.child_ok(s, a.nodes[i].right, i)
                &&& a.parent_ok(s, gp, a.nodes[i].parent, i as isize)
                &&& (a.nodes[i].left is Some ==> a.nodes[i].left != a.nodes[i].right)
            } by {
                if i == id {
                } else if l.node_ids().contains(i) {
                    let n = a.nodes[i];
                    assert(a.child_ok(l, n.left, i));
                    assert(a.child_ok(l, n.right, i));
                    assert(a.parent_ok(l, Some(idu), n.parent, i as isize));
                    if n.parent is Some {
                        assert(l.node_ids().contains(n.parent.unwrap() as int) ==> s.node_ids().contains(
                            n.parent.unwrap() as int,
                        ));
                    }
                    if n.left is Some {
                        let c = n.left.unwrap();
                        assert(c >= 0 ==> s.node_ids().contains(c as int));
                        assert(c < 0 ==> s.leaf_ids().contains(-c));
                    }
                    if n.right is Some {
                        let c = n.right.unwrap();
                        assert(c >= 0 ==> s.node_ids().contains(c as int));
                        assert(c < 0 ==> s.leaf_ids().contains(-c));
                    }
                } else {
                    assert(r.node_ids().contains(i));
                    let n = a.nodes[i];
                    assert(a.child_ok(r, n.left, i));
                    assert(a.child_ok(r, n.right, i));
                    assert(a.parent_ok(r, Some(idu), n.parent, i as isize));
                    if n.parent is Some {
                        assert(r.node_ids().contains(n.parent.unwrap() as int) ==> s.node_ids().contains(
                            n.parent.unwrap() as int,
                        ));
                    }
                    if n.left is Some {
                        let c = n.left.unwrap();
                        assert(c >= 0 ==> s.node_ids().contains(c as int));
                        assert(c < 0 ==> s.leaf_ids().contains(-c));
                    }
                    if n.right is Some {
                        let c = n.right.unwrap();
                        assert(c >= 0 ==> s.node_ids().contains(c as int));
                        assert(c < 0 ==> s.leaf_ids().contains(-c));
                    }
                }
            }
            assert forall|j: int| #[trigger] s.leaf_ids().contains(j) implies {
                &&& 1 <= j < a.leafs.len() <= isize::MAX
                &&& a.parent_ok(s, gp, Some(a.leafs[j].parent), (-j) as isize)
            } by {
                let q = a.leafs[j].parent;
                if l.leaf_ids().contains(j) {
                    assert(a.parent_ok(l, Some(idu), Some(q), (-j) as isize));
                    assert(l.node_ids().contains(q as int) ==> s.node_ids().contains(q as int));
                } else {
                    assert(r.leaf_ids().contains(j));
                    assert(a.parent_ok(r, Some(idu), Some(q), (-j) as isize));
                    assert(r.node_ids().contains(q as int) ==> s.node_ids().contains(q as int));
                }
            }
        },
        Shape::Leaf { id } => {
            assert(s.leaf_ids().contains(id));
        },
        Shape::Nil => {},
    }
}

} // verus!
