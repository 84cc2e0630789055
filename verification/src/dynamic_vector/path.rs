use vstd::prelude::*;
use crate::dynamic_vector::shape::Shape;
use crate::dynamic_vector::frame::lemma_framed_child;
use crate::dynamic_vector::DynamicBitVector;

verus! {

impl Shape {
    /// Whether the child reference `t` names a node or a leaf of the tree.
    pub open spec fn holds_ref(self, t: isize) -> bool {
        if t >= 0 {
            self.node_ids().contains(t as int)
        } else {
            self.leaf_ids().contains(-t)
        }
    }

    /// The nodes of the tree that stand above the node or leaf named by `t`, the parent
    /// of `t` first and the root of the tree last; none where `t` names the root of the
    /// tree, or nothing in it.
    pub open spec fn path_to(self, t: isize) -> Seq<usize>
        decreases self,
    {
        match self {
            Shape::Node { id, left, right } => {
                if self.child_ref() == Some(t) {
                    Seq::empty()
                } else if left.holds_ref(t) {
                    left.path_to(t).push(id as usize)
                } else if right.holds_ref(t) {
                    right.path_to(t).push(id as usize)
                } else {
                    Seq::empty()
                }
            },
            _ => Seq::empty(),
        }
    }

    /// Of the two subtrees of the node at the root, the one that holds `t`.
    pub open spec fn toward(self, t: isize) -> Shape {
        if self.lhs().holds_ref(t) {
            self.lhs()
        } else {
            self.rhs()
        }
    }
}

/// The node or leaf that stands below the entry `j` of the path to `t`: the entry
/// before it, or `t` itself for the first entry.
pub open spec fn below(path: Seq<usize>, j: int, t: isize) -> isize {
    if j == 0 {
        t
    } else {
        path[j - 1] as isize
    }
}

/// What the path to `t` in a held tree is made of: every entry is a node of the tree
/// and the parent of what stands below it, the last entry is the root of the tree, and
/// the path is empty only where `t` names that root.
pub proof fn lemma_path(a: &DynamicBitVector, s: Shape, gp: Option<usize>, t: isize)
    requires
        a.sized(),
        a.framed(s, gp),
        s.distinct(),
        s.holds_ref(t),
    ensures
        a.names_entry(t),
        s.path_to(t).len() == 0 <==> s.child_ref() == Some(t),
        a.parent_of(t) == (if s.path_to(t).len() == 0 {
            gp
        } else {
            Some(s.path_to(t)[0])
        }),
        forall|j: int|
            0 <= j < s.path_to(t).len() ==> {
                &&& s.node_ids().contains(#[trigger] s.path_to(t)[j] as int)
                &&& s.path_to(t)[j] < a.nodes.len()
                &&& a.nodes[s.path_to(t)[j] as int].parent == (if j + 1 < s.path_to(t).len() {
                    Some(s.path_to(t)[j + 1])
                } else {
                    gp
                })
                &&& a.nodes[s.path_to(t)[j] as int].has_child(below(s.path_to(t), j, t))
            },
        s.path_to(t).len() > 0 ==> s is Node && s.path_to(t).last() == s.idx() && s.toward(
            t,
        ).holds_ref(t) && s.path_to(t).drop_last() == s.toward(t).path_to(t),
    decreases s,
{
    lemma_framed_child(a, s, gp);
    match s {
        Shape::Node { id, left, right } => {
            let idu = id as usize;
            lemma_framed_child(a, *left, Some(idu));
            lemma_framed_child(a, *right, Some(idu));
            assert(s.node_ids().contains(id));
            if s.child_ref() == Some(t) {
            } else {
                assert(left.holds_ref(t) || right.holds_ref(t));
                let c = s.toward(t);
                assert(c == *left || c == *right);
                lemma_path(a, c, Some(idu), t);
                let pc = c.path_to(t);
                let p = s.path_to(t);
                assert(p == pc.push(idu));
                assert(p.drop_last() =~= pc);
                assert(forall|i: int| c.node_ids().contains(i) ==> s.node_ids().contains(i));
                if pc.len() == 0 {
                    assert(c.child_ref() == Some(t));
                }
                assert forall|j: int| 0 <= j < p.len() implies {
                    &&& s.node_ids().contains(#[trigger] p[j] as int)
                    &&& p[j] < a.nodes.len()
                    &&& a.nodes[p[j] as int].parent == (if j + 1 < p.len() {
                        Some(p[j + 1])
                    } else {
                        gp
                    })
                    &&& a.nodes[p[j] as int].has_child(below(p, j, t))
                } by {
                    if j < pc.len() {
                        assert(p[j] == pc[j]);
                        assert(c.node_ids().contains(pc[j] as int));
                        assert(below(p, j, t) == below(pc, j, t));
                    } else {
                        if pc.len() > 0 {
                            assert(pc.last() == c.idx());
                        }
                    }
                }
            }
        },
        Shape::Leaf { id } => {
            assert(s.leaf_ids().contains(id));
        },
        Shape::Nil => {},
    }
}

impl DynamicBitVector {
    /// The nodes above the node or leaf named by `t`, the parent of `t` first and the
    /// root last, found by going from parent to parent.
    pub(crate) fn ancestors(&self, t: isize, Ghost(s): Ghost<Shape>) -> (path: Vec<usize>)
        requires
            self.sized(),
            self.framed(s, None),
            s.distinct(),
            s.holds_ref(t),
        ensures
            path@ == s.path_to(t),
    {
        let ghost want = s.path_to(t);
        proof {
            lemma_path(self, s, None, t);
        }
        let mut path: Vec<usize> = Vec::new();
        let first = if t >= 0 {
            self.nodes[t as usize].parent
        } else {
            Some(self.leafs[(-t) as usize].parent)
        };
        let mut next = first;
        while next.is_some()
            invariant
                path@.len() <= want.len(),
                path@ == want.take(path@.len() as int),
                next == (if path@.len() < want.len() {
                    Some(want[path@.len() as int])
                } else {
                    None::<usize>
                }),
                forall|j: int|
                    0 <= j < want.len() ==> (#[trigger] want[j]) < self.nodes.len()
                        && self.nodes[want[j] as int].parent == (if j + 1 < want.len() {
                        Some(want[j + 1])
                    } else {
                        None::<usize>
                    }),
            decreases want.len() - path@.len(),
        {
            let p = next.unwrap();
            path.push(p);
            next = self.nodes[p].parent;
            proof {
                assert(path@ =~= want.take(path@.len() as int));
            }
        }
        proof {
            assert(want.take(want.len() as int) =~= want);
        }
        path
    }
}

} // verus!
