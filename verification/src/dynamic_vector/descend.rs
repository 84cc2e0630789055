use vstd::prelude::*;
use vstd::std_specs::ops::AddSpec;
use core::ops::Add;
use crate::dynamic_vector::model::lemma_child;
use crate::dynamic_vector::shape::Shape;
use crate::dynamic_vector::DynamicBitVector;
use crate::traits::StaticBitVec;

verus! {

/// The index of the node at the root of the tree `s`.
pub open spec fn node_index(s: Shape) -> usize {
    s.idx() as usize
}

/// The name of the leaf `s` as a child.
pub open spec fn leaf_ref(s: Shape) -> isize {
    (-s.idx()) as isize
}

impl DynamicBitVector {
    /// Where the descent for position `index` ends under the tree `s`: the name of the
    /// leaf, and what is left of the position there. At a node the descent goes left
    /// while the position is below the number of bits on the left, and right otherwise,
    /// with that number taken off. It ends nowhere where it comes to an absent child.
    pub open spec fn descent(&self, s: Shape, index: usize) -> Option<(isize, usize)>
        decreases s,
    {
        match s {
            Shape::Node { id, left, right } => if self.nodes[id].nums <= index {
                self.descent(*right, (index - self.nodes[id].nums) as usize)
            } else {
                self.descent(*left, index)
            },
            Shape::Leaf { id } => Some(((-id) as isize, index)),
            Shape::Nil => None,
        }
    }

    /// Whether the descent for position `index` goes left at the node `s`.
    pub open spec fn goes_left(&self, s: Shape, index: usize) -> bool {
        index < self.nodes[s.idx()].nums
    }

    /// The subtree of the node `s` that the descent for position `index` goes into.
    pub open spec fn subtree_toward(&self, s: Shape, index: usize) -> Shape {
        if self.goes_left(s, index) {
            s.lhs()
        } else {
            s.rhs()
        }
    }

    /// What is left of position `index` below the node `s`.
    pub open spec fn index_below(&self, s: Shape, index: usize) -> usize {
        if self.goes_left(s, index) {
            index
        } else {
            (index - self.nodes[s.idx()].nums) as usize
        }
    }

    /// The descent for position `index` can be made under the tree `s` with `f` called
    /// at the leaf and `g` at each node on the way, and every sum on the way back can
    /// be formed.
    pub open spec fn can_fold<T: Add<Output = T>, F: Fn(&Self, isize, usize, bool) -> T, G: Fn(
        &Self,
        usize,
        bool,
    ) -> T>(&self, s: Shape, f: F, g: G, index: usize, bit: bool) -> bool
        decreases s,
    {
        match s {
            Shape::Node { id, left, right } => {
                let c = if self.goes_left(s, index) {
                    *left
                } else {
                    *right
                };
                &&& g.requires((self, node_index(s), self.goes_left(s, index)))
                &&& self.can_fold(c, f, g, self.index_below(s, index), bit)
                &&& forall|x: T, y: T|
                    g.ensures((self, node_index(s), self.goes_left(s, index)), x) && self.folds(
                        self.subtree_toward(s, index),
                        f,
                        g,
                        self.index_below(s, index),
                        bit,
                        y,
                    ) ==> #[trigger] x.add_req(y)
            },
            Shape::Leaf { id } => f.requires((self, leaf_ref(s), index, bit)),
            Shape::Nil => false,
        }
    }

    /// `r` is a sum that the descent for position `index` under the tree `s` can give:
    /// what `g` returns at each node on the way, from the top down, and last what `f`
    /// returns at the leaf, each added to the sum of what comes after it.
    pub open spec fn folds<T: Add<Output = T>, F: Fn(&Self, isize, usize, bool) -> T, G: Fn(
        &Self,
        usize,
        bool,
    ) -> T>(&self, s: Shape, f: F, g: G, index: usize, bit: bool, r: T) -> bool
        decreases s,
    {
        match s {
            Shape::Node { id, left, right } => {
                let c = if self.goes_left(s, index) {
                    *left
                } else {
                    *right
                };
                exists|x: T, y: T|
                    g.ensures((self, node_index(s), self.goes_left(s, index)), x) && self.folds(
                        c,
                        f,
                        g,
                        self.index_below(s, index),
                        bit,
                        y,
                    ) && r == #[trigger] x.add_spec(y)
            },
            Shape::Leaf { id } => f.ensures((self, leaf_ref(s), index, bit), r),
            Shape::Nil => false,
        }
    }

    /// Descends to position `index` and returns what `f` returns for the leaf that the
    /// descent ends in and the position in that leaf.
    #[inline]
    pub fn apply<T, F: Fn(&Self, isize, usize) -> T>(&self, f: F, index: usize) -> (r: T)
        requires
            self.wf(),
            self.descent(self.shape(), index) is Some,
            f.requires(
                (
                    self,
                    self.descent(self.shape(), index).unwrap().0,
                    self.descent(self.shape(), index).unwrap().1,
                ),
            ),
        ensures
            f.ensures(
                (
                    self,
                    self.descent(self.shape(), index).unwrap().0,
                    self.descent(self.shape(), index).unwrap().1,
                ),
                r,
            ),
    {
        let ghost s = self.shape();
        self.apply_node(self.root, f, index, Ghost(s), Ghost(None))
    }

    fn apply_node<T, F: Fn(&Self, isize, usize) -> T>(
        &self,
        node: usize,
        f: F,
        index: usize,
        Ghost(s): Ghost<Shape>,
        Ghost(p): Ghost<Option<usize>>,
    ) -> (r: T)
        requires
            self.sized(),
            self.linked(s, p),
            s is Node,
            s.idx() == node,
            self.descent(s, index) is Some,
            f.requires((self, self.descent(s, index).unwrap().0, self.descent(s, index).unwrap().1)),
        ensures
            f.ensures(
                (self, self.descent(s, index).unwrap().0, self.descent(s, index).unwrap().1),
                r,
            ),
        decreases s,
    {
        let n = self.nodes[node];
        proof {
            lemma_child(self, s, p);
            lemma_child(self, s.lhs(), Some(node));
            lemma_child(self, s.rhs(), Some(node));
            let c = self.subtree_toward(s, index);
            assert(self.descent(s, index) == self.descent(c, self.index_below(s, index)));
            assert(!(c is Nil));
            if c is Leaf {
                assert(self.descent(c, self.index_below(s, index)) == Some(
                    (leaf_ref(c), self.index_below(s, index)),
                ));
            }
        }
        if n.nums <= index {
            let right_id = n.right.unwrap();
            if right_id >= 0 {
                self.apply_node(
                    right_id as usize,
                    f,
                    index - n.nums,
                    Ghost(s.rhs()),
                    Ghost(Some(node)),
                )
            } else {
                f(self, right_id, index - n.nums)
            }
        } else {
            let left_id = n.left.unwrap();
            if left_id >= 0 {
                self.apply_node(left_id as usize, f, index, Ghost(s.lhs()), Ghost(Some(node)))
            } else {
                f(self, left_id, index)
            }
        }
    }

    /// Descends to position `index` and returns the sum of what `g` returns for each
    /// node on the way, with the side that the descent takes there (`true` for the
    /// left), and of what `f` returns for the leaf that the descent ends in, the
    /// position in that leaf, and `bit`.
    #[inline]
    pub fn apply_bitop<T: Add<Output = T>, F: Fn(&Self, isize, usize, bool) -> T, G: Fn(
        &Self,
        usize,
        bool,
    ) -> T>(&self, f: F, g: G, index: usize, bit: bool) -> (r: T)
        requires
            self.wf(),
            T::obeys_add_spec(),
            self.can_fold(self.shape(), f, g, index, bit),
        ensures
            self.folds(self.shape(), f, g, index, bit, r),
    {
        let ghost s = self.shape();
        self.apply_bitop_node(self.root, f, g, index, bit, Ghost(s), Ghost(None))
    }

    fn apply_bitop_node<T: Add<Output = T>, F: Fn(&Self, isize, usize, bool) -> T, G: Fn(
        &Self,
        usize,
        bool,
    ) -> T>(
        &self,
        node: usize,
        f: F,
        g: G,
        index: usize,
        bit: bool,
        Ghost(s): Ghost<Shape>,
        Ghost(p): Ghost<Option<usize>>,
    ) -> (r: T)
        requires
            self.sized(),
            self.linked(s, p),
            s is Node,
            s.idx() == node,
            T::obeys_add_spec(),
            self.can_fold(s, f, g, index, bit),
        ensures
            self.folds(s, f, g, index, bit, r),
        decreases s,
    {
        let n = self.nodes[node];
        proof {
            lemma_child(self, s, p);
            lemma_child(self, s.lhs(), Some(node));
            lemma_child(self, s.rhs(), Some(node));
            let c = self.subtree_toward(s, index);
            assert(self.can_fold(c, f, g, self.index_below(s, index), bit));
            assert(!(c is Nil));
        }
        if n.nums <= index {
            let right_id = n.right.unwrap();
            let x = g(self, node, false);
            let y = if right_id >= 0 {
                self.apply_bitop_node(
                    right_id as usize,
                    f,
                    g,
                    index - n.nums,
                    bit,
                    Ghost(s.rhs()),
                    Ghost(Some(node)),
                )
            } else {
                f(self, right_id, index - n.nums, bit)
            };
            proof {
                let c = self.subtree_toward(s, index);
                assert(g.ensures((self, node_index(s), self.goes_left(s, index)), x));
                assert(self.folds(c, f, g, self.index_below(s, index), bit, y));
            }
            let r = x + y;
            proof {
                assert(r == x.add_spec(y));
            }
            r
        } else {
            let left_id = n.left.unwrap();
            let x = g(self, node, true);
            let y = if left_id >= 0 {
                self.apply_bitop_node(
                    left_id as usize,
                    f,
                    g,
                    index,
                    bit,
                    Ghost(s.lhs()),
                    Ghost(Some(node)),
                )
            } else {
                f(self, left_id, index, bit)
            };
            proof {
                let c = self.subtree_toward(s, index);
                assert(g.ensures((self, node_index(s), self.goes_left(s, index)), x));
                assert(self.folds(c, f, g, self.index_below(s, index), bit, y));
            }
            let r = x + y;
            proof {
                assert(r == x.add_spec(y));
            }
            r
        }
    }
}

/// The descent for a position of a laid-out tree ends in a leaf of the tree, at a
/// position of that leaf, and the bit there is the bit at the position in the tree.
pub proof fn lemma_descent(a: &DynamicBitVector, s: Shape, p: Option<usize>, index: usize)
    requires
        a.sized(),
        a.linked(s, p),
        index < a.bits_in(s).len(),
    ensures
        a.descent(s, index) matches Some(at) && {
            &&& at.0 < 0
            &&& s.leaf_ids().contains(-at.0)
            &&& -at.0 < a.leafs.len()
            &&& a.leafs[-at.0].wf()
            &&& at.1 < a.leafs[-at.0].nums
            &&& a.leafs[-at.0].bits()[at.1 as int] == a.bits_in(s)[index as int]
        },
    decreases s,
{
    lemma_child(a, s, p);
    match s {
        Shape::Node { id, left, right } => {
            lemma_child(a, *left, Some(id as usize));
            lemma_child(a, *right, Some(id as usize));
            if a.nodes[id].nums <= index {
                lemma_descent(a, *right, Some(id as usize), (index - a.nodes[id].nums) as usize);
            } else {
                lemma_descent(a, *left, Some(id as usize), index);
            }
        },
        Shape::Leaf { id } => {
            assert(s.leaf_ids().contains(id));
        },
        Shape::Nil => {},
    }
}

} // verus!
