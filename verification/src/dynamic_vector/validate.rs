use vstd::prelude::*;
use crate::bits::{count, lemma_count_bound, lemma_count_concat};
use crate::dynamic_vector::frame::{
    lemma_frame_unique, lemma_framed_child, lemma_framed_range, lemma_linked_framed,
};

use crate::dynamic_vector::shape::Shape;
use crate::dynamic_vector::DynamicBitVector;
use crate::traits::{BitSize, DynBitVec, StaticBitVec};

verus! {

impl DynamicBitVector {
    /// Every node of the tree `s` holds the number of bits and of one-bits under its
    /// left child.
    pub open spec fn counted(&self, s: Shape) -> bool
        decreases s,
    {
        match s {
            Shape::Node { id, left, right } => {
                &&& self.nodes[id].nums == self.bits_in(*left).len()
                &&& self.nodes[id].ones == count(self.bits_in(*left), true)
                &&& self.counted(*left)
                &&& self.counted(*right)
            },
            _ => true,
        }
    }

    /// The tree `s` is held from the root, and its bits can be counted in a `usize`.
    pub open spec fn is_frame(&self, s: Shape) -> bool {
        &&& self.sized()
        &&& s is Node
        &&& s.idx() == self.root
        &&& self.framed(s, None)
        &&& self.bits_in(s).len() <= usize::MAX
    }

    /// Some tree is held from the root.
    pub open spec fn has_frame(&self) -> bool {
        exists|s: Shape| self.is_frame(s)
    }

    /// The tree that is held from the root.
    pub open spec fn frame(&self) -> Shape {
        choose|s: Shape| self.is_frame(s)
    }

    /// Walks over the tree under the child `child` and checks the counters of every
    /// node against what lies under its left child. Returns the number of bits and of
    /// one-bits under `child`, or the index of a node whose counters are wrong.
    fn validate_node(&self, child: isize, Ghost(s): Ghost<Shape>, Ghost(p): Ghost<
        Option<usize>,
    >) -> (r: Result<(usize, usize), usize>)
        requires
            self.sized(),
            self.framed(s, p),
            s.child_ref() == Some(child),
            self.bits_in(s).len() <= usize::MAX,
        ensures
            match r {
                Ok(t) => self.counted(s) && t.0 == self.bits_in(s).len() && t.1 == count(
                    self.bits_in(s),
                    true,
                ),
                Err(i) => !self.counted(s) && s.node_ids().contains(i as int),
            },
        decreases s,
    {
        proof {
            lemma_count_bound(self.bits_in(s), true);
            lemma_framed_child(self, s, p);
            lemma_counted_parts(self, s);
        }
        if child >= 0 {
            let node = child as usize;
            let nd = self.nodes[node];
            let ghost l = s.lhs();
            let ghost r = s.rhs();
            proof {
                lemma_counted_parts(self, s);
                lemma_framed_child(self, l, Some(node));
                lemma_framed_child(self, r, Some(node));
                lemma_count_bound(self.bits_in(l), true);
                lemma_count_bound(self.bits_in(r), true);
                lemma_count_concat(self.bits_in(l), self.bits_in(r), true);
                assert(s.node_ids().contains(node as int));
                assert(forall|i: int| l.node_ids().contains(i) ==> s.node_ids().contains(i));
                assert(forall|i: int| r.node_ids().contains(i) ==> s.node_ids().contains(i));
                assert(count(Seq::<bool>::empty(), true) == 0);
            }
            let (ln, lo) = match nd.left {
                Some(c) => match self.validate_node(c, Ghost(l), Ghost(Some(node))) {
                    Ok(t) => t,
                    Err(i) => {
                        return Err(i);
                    },
                },
                None => (0, 0),
            };
            if nd.nums != ln || nd.ones != lo {
                return Err(node);
            }
            let (rn, ro) = match nd.right {
                Some(c) => match self.validate_node(c, Ghost(r), Ghost(Some(node))) {
                    Ok(t) => t,
                    Err(i) => {
                        return Err(i);
                    },
                },
                None => (0, 0),
            };
            Ok((ln + rn, lo + ro))
        } else {
            let leaf = &self.leafs[(-child) as usize];
            Ok((leaf.nums(), leaf.ones()))
        }
    }

    /// Walks over the whole tree and checks the counters of every node against the
    /// leaves under its left child. Returns the number of bits and of one-bits held,
    /// or the index of a node whose counters are wrong.
    pub fn validate(&self) -> (r: Result<(usize, usize), usize>)
        requires
            self.has_frame(),
        ensures
            match r {
                Ok(t) => self.counted(self.frame()) && t.0 == self.bits_in(self.frame()).len()
                    && t.1 == count(self.bits_in(self.frame()), true),
                Err(i) => !self.counted(self.frame()) && i < self.nodes.len(),
            },
            self.wf() ==> r == Ok::<(usize, usize), usize>(
                (self@.len() as usize, count(self@, true) as usize),
            ),
    {
        let ghost s = self.frame();
        proof {
            assert(self.is_frame(s));
            lemma_framed_range(self, s, None);
            if self.wf() {
                lemma_linked_framed(self, self.shape(), None);
                lemma_linked_counted(self, self.shape(), None);
                lemma_frame_unique(self, s, None, self.shape(), None);
            }
        }
        self.validate_node(self.root as isize, Ghost(s), Ghost(None))
    }

    /// What the vector takes in memory, in bits: 448 for the vector itself, 200 for
    /// each leaf and 325 for each node.
    pub open spec fn spec_size_bits(&self) -> nat {
        (448 + self.leafs.len() * 200 + self.nodes.len() * 325) as nat
    }

    /// What the vector takes in memory, in bits.
    pub fn size_bits(&self) -> (r: usize)
        requires
            self.spec_size_bits() <= usize::MAX,
        ensures
            r == self.spec_size_bits(),
    {
        448 + self.leafs.len() * 200 + self.nodes.len() * 325
    }
}

impl BitSize for DynamicBitVector {
    open spec fn full_size(&self) -> nat {
        self.spec_size_bits()
    }

    fn bitsize_full(&self) -> (r: usize) {
        self.size_bits()
    }
}

/// In a tree that is laid out every node has the right counters.
pub proof fn lemma_linked_counted(a: &DynamicBitVector, s: Shape, p: Option<usize>)
    requires
        a.linked(s, p),
    ensures
        a.counted(s),
    decreases s,
{
    match s {
        Shape::Node { id, left, right } => {
            lemma_linked_counted(a, *left, Some(id as usize));
            lemma_linked_counted(a, *right, Some(id as usize));
        },
        _ => {},
    }
}

/// What `counted` says of a node: it has the right counters, and so has every node
/// under it.
proof fn lemma_counted_parts(a: &DynamicBitVector, t: Shape)
    ensures
        t is Node ==> a.counted(t) == (a.nodes[t.idx()].nums == a.bits_in(t.lhs()).len()
            && a.nodes[t.idx()].ones == count(a.bits_in(t.lhs()), true) && a.counted(t.lhs())
            && a.counted(t.rhs())),
        !(t is Node) ==> a.counted(t),
{
}

} // verus!
