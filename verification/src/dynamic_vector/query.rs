use vstd::prelude::*;
use crate::bits::{
    count, is_select, lemma_count_complement, lemma_count_concat, lemma_rank_concat_left,
    lemma_rank_concat_right, lemma_rank_full, rank_of,
};
use crate::dynamic_vector::frame::{lemma_frame_unique, lemma_framed_child, lemma_linked_framed};
use crate::dynamic_vector::model::{lemma_child, lemma_view};
use crate::dynamic_vector::validate::lemma_linked_counted;
use crate::bits::lemma_count_bound;
use crate::dynamic_vector::shape::Shape;
use crate::dynamic_vector::DynamicBitVector;
use crate::error::BitVecError;
use crate::leaf::Leaf;
use crate::node::Node;
use crate::traits::{DynBitVec, StaticBitVec};

verus! {

impl DynamicBitVector {
    /// An empty vector: a root node without children, and the unused leaf slot.
    #[must_use]
    pub fn new() -> (r: Self)
        ensures
            r.wf(),
            r@ == Seq::<bool>::empty(),
            r.root == 0,
            r.nodes@ == seq![Node { parent: None, left: None, right: None, nums: 0, ones: 0, rank: 0 }],
            r.leafs@ == seq![Leaf { parent: 0, value: 0, nums: 0 }],
    {
        let r = DynamicBitVector { root: 0, nodes: vec![Node::new()], leafs: vec![Leaf::new(0)] };
        proof {
            let s = Shape::Node { id: 0, left: Box::new(Shape::Nil), right: Box::new(Shape::Nil) };
            assert(r.bits_in(Shape::Nil) =~= Seq::<bool>::empty());
            assert(r.bits_in(s) =~= Seq::<bool>::empty());
            assert(r.linked(Shape::Nil, Some(0usize)));
            assert(Shape::Nil.height() == 0);
            assert(r.nodes@[0] == Node { parent: None, left: None, right: None, nums: 0, ones: 0, rank: 0 });
            assert(r.linked(s, None));
            assert(Shape::Nil.node_ids() =~= Set::<int>::empty());
            assert(Shape::Nil.leaf_ids() =~= Set::<int>::empty());
            assert(Shape::Nil.balanced() && Shape::Nil.distinct());
            assert(s.node_ids() =~= Set::new(|i: int| 0 <= i < r.nodes.len()));
            assert(s.leaf_ids() =~= Set::new(|i: int| 1 <= i < r.leafs.len()));
            assert(r.tree_inv(s));
            lemma_view(&r, s);
        }
        r
    }

    /// The tree `s` is held under the child reference `child`, and every node of it has
    /// the right counters; nothing is asked of the ranks.
    pub open spec fn is_counted_under(&self, s: Shape, child: isize) -> bool {
        &&& s.child_ref() == Some(child)
        &&& self.counted(s)
        &&& exists|p: Option<usize>| #[trigger] self.framed(s, p)
    }

    /// Some tree with the right counters is held under the child reference `child`.
    pub open spec fn has_counted(&self, child: isize) -> bool {
        exists|s: Shape| #[trigger] self.is_counted_under(s, child)
    }

    /// The tree with the right counters that is held under the child reference `child`.
    pub open spec fn counted_under(&self, child: isize) -> Shape {
        choose|s: Shape| #[trigger] self.is_counted_under(s, child)
    }

    /// Number of bits and number of one-bits under the tree `s`, found by following right
    /// children down to a leaf.
    fn full_nums_ones_in(&self, child: isize, Ghost(s): Ghost<Shape>, Ghost(p): Ghost<
        Option<usize>,
    >) -> (r: (usize, usize))
        requires
            self.sized(),
            self.framed(s, p),
            self.counted(s),
            s.child_ref() == Some(child),
            self.bits_in(s).len() <= usize::MAX,
        ensures
            r.0 == self.bits_in(s).len(),
            r.1 == count(self.bits_in(s), true),
        decreases s,
    {
        proof {
            lemma_framed_child(self, s, p);
            lemma_count_bound(self.bits_in(s), true);
        }
        if child >= 0 {
            let node = child as usize;
            let n = self.nodes[node];
            proof {
                lemma_framed_child(self, s.rhs(), Some(node));
                lemma_count_concat(
                    self.bits_in(s.lhs()),
                    self.bits_in(s.rhs()),
                    true,
                );
            }
            if let Some(r) = n.right {
                let (nr, or) = self.full_nums_ones_in(
                    r,
                    Ghost(s.rhs()),
                    Ghost(Some(node)),
                );
                (nr + n.nums, or + n.ones)
            } else {
                (n.nums, n.ones)
            }
        } else {
            let leaf = &self.leafs[(-child) as usize];
            (leaf.nums(), leaf.ones())
        }
    }

    /// Number of bits and number of one-bits under the child `child`, both subtrees of
    /// every node on the way counted.
    #[must_use]
    pub fn full_nums_ones(&self, child: isize) -> (r: (usize, usize))
        requires
            self.sized(),
            self.has_counted(child),
            self.bits_in(self.counted_under(child)).len() <= usize::MAX,
        ensures
            r.0 == self.bits_in(self.counted_under(child)).len(),
            r.1 == count(self.bits_in(self.counted_under(child)), true),
    {
        let ghost s = self.counted_under(child);
        let ghost p = choose|p: Option<usize>| #[trigger] self.framed(s, p);
        self.full_nums_ones_in(child, Ghost(s), Ghost(p))
    }

    /// Where `child` is the left child of `node`, counts the bits and one-bits under
    /// `child` anew and writes them into `node`. Returns whether `child` is the left
    /// child of `node`.
    pub fn update_left_values_only(&mut self, node: usize, child: isize) -> (r: bool)
        requires
            old(self).sized(),
            node < old(self).nodes.len(),
            old(self).nodes[node as int].left == Some(child) ==> old(self).has_counted(child)
                && old(self).bits_in(old(self).counted_under(child)).len() <= usize::MAX,
        ensures
            r == (old(self).nodes[node as int].left == Some(child)),
            final(self).root == old(self).root,
            final(self).leafs@ == old(self).leafs@,
            r ==> final(self).nodes@ == old(self).nodes@.update(
                node as int,
                Node {
                    nums: old(self).bits_in(old(self).counted_under(child)).len() as usize,
                    ones: count(old(self).bits_in(old(self).counted_under(child)), true) as usize,
                    ..old(self).nodes[node as int]
                },
            ),
            !r ==> final(self).nodes@ == old(self).nodes@,
    {
        if let Some(l) = self.nodes[node].left {
            if l == child {
                let (n, o) = self.full_nums_ones(child);
                let mut nd = self.nodes[node];
                nd.nums = n;
                nd.ones = o;
                self.nodes[node] = nd;
                return true;
            }
        }
        false
    }

    /// Number of bits held.
    pub fn len(&self) -> (r: usize)
        requires
            self.wf(),
        ensures
            r == self@.len(),
    {
        let ghost s = self.shape();
        proof {
            lemma_linked_framed(self, s, None);
            lemma_linked_counted(self, s, None);
        }
        self.full_nums_ones_in(self.root as isize, Ghost(s), Ghost(None)).0
    }

    /// Number of bits held.
    #[inline]
    pub fn nums(&self) -> (r: usize)
        requires
            self.wf(),
        ensures
            r == self@.len(),
    {
        self.len()
    }

    /// Whether no bit is held.
    #[inline]
    pub fn is_empty(&self) -> (r: bool)
        requires
            self.wf(),
        ensures
            r == (self@.len() == 0),
    {
        self.len() == 0
    }

    /// Number of one-bits held.
    pub fn ones(&self) -> (r: usize)
        requires
            self.wf(),
        ensures
            r == count(self@, true),
    {
        let ghost s = self.shape();
        proof {
            lemma_linked_framed(self, s, None);
            lemma_linked_counted(self, s, None);
        }
        self.full_nums_ones_in(self.root as isize, Ghost(s), Ghost(None)).1
    }

    /// The bit at position `index` under the node `node`.
    fn get_node(&self, node: usize, index: usize, Ghost(s): Ghost<Shape>, Ghost(p): Ghost<
        Option<usize>,
    >) -> (r: bool)
        requires
            self.sized(),
            self.linked(s, p),
            s is Node,
            s.idx() == node,
            index < self.bits_in(s).len(),
        ensures
            r == self.bits_in(s)[index as int],
        decreases s,
    {
        let n = self.nodes[node];
        proof {
            lemma_child(self, s.lhs(), Some(node));
            lemma_child(self, s.rhs(), Some(node));
        }
        if n.nums <= index {
            let right_id = n.right.unwrap();
            if right_id >= 0 {
                self.get_node(
                    right_id as usize,
                    index - n.nums,
                    Ghost(s.rhs()),
                    Ghost(Some(node)),
                )
            } else {
                self.get_leaf(right_id, index - n.nums)
            }
        } else {
            let left_id = n.left.unwrap();
            if left_id >= 0 {
                self.get_node(left_id as usize, index, Ghost(s.lhs()), Ghost(Some(node)))
            } else {
                self.get_leaf(left_id, index)
            }
        }
    }

    /// The bit at position `index` of the leaf named by `leaf`.
    #[inline]
    fn get_leaf(&self, leaf: isize, index: usize) -> (r: bool)
        requires
            self.sized(),
            leaf < 0,
            -leaf < self.leafs.len(),
            self.leafs[-leaf].wf(),
            index < self.leafs[-leaf].nums,
        ensures
            r == self.leafs[-leaf].bits()[index as int],
    {
        self.leafs[(-leaf) as usize].access(index)
    }

    /// The bit at position `index`.
    #[inline]
    pub fn access(&self, index: usize) -> (r: bool)
        requires
            self.wf(),
            index < self@.len(),
        ensures
            r == self@[index as int],
    {
        let ghost s = self.shape();
        self.get_node(self.root, index, Ghost(s), Ghost(None))
    }

    /// The bit at position `index`.
    #[inline]
    pub fn get(&self, index: usize) -> (r: bool)
        requires
            self.wf(),
            index < self@.len(),
        ensures
            r == self@[index as int],
    {
        self.access(index)
    }

    /// Number of `bit` values before position `index` of the leaf named by `leaf`.
    #[inline]
    fn rank_leaf(&self, leaf: isize, index: usize, bit: bool) -> (r: usize)
        requires
            self.sized(),
            leaf < 0,
            -leaf < self.leafs.len(),
            self.leafs[-leaf].wf(),
            index <= self.leafs[-leaf].nums,
        ensures
            r == rank_of(self.leafs[-leaf].bits(), bit, index as int),
    {
        self.leafs[(-leaf) as usize].rank(bit, index)
    }

    /// Number of `bit` values under the left child of `node`.
    #[inline]
    fn rank_add(&self, node: usize, bit: bool) -> (r: usize)
        requires
            node < self.nodes.len(),
            self.nodes[node as int].ones <= self.nodes[node as int].nums,
        ensures
            r == if bit {
                self.nodes[node as int].ones
            } else {
                (self.nodes[node as int].nums - self.nodes[node as int].ones) as usize
            },
    {
        if bit {
            self.nodes[node].ones
        } else {
            self.nodes[node].nums - self.nodes[node].ones
        }
    }

    /// Number of `bit` values before position `index` under the node `node`.
    fn rank_node(
        &self,
        node: usize,
        bit: bool,
        index: usize,
        Ghost(s): Ghost<Shape>,
        Ghost(p): Ghost<Option<usize>>,
    ) -> (r: usize)
        requires
            self.sized(),
            self.linked(s, p),
            s is Node,
            s.idx() == node,
            index <= self.bits_in(s).len(),
        ensures
            r == rank_of(self.bits_in(s), bit, index as int),
        decreases s,
    {
        let n = self.nodes[node];
        let ghost l = self.bits_in(s.lhs());
        let ghost r = self.bits_in(s.rhs());
        proof {
            lemma_child(self, s.lhs(), Some(node));
            lemma_child(self, s.rhs(), Some(node));
            lemma_count_bound(l, true);
            lemma_count_complement(l);
            lemma_rank_full(l, bit);
            lemma_rank_full(self.bits_in(s), bit);
        }
        if n.nums <= index {
            proof {
                lemma_rank_concat_right(l, r, bit, index - n.nums);
                lemma_count_bound((l + r).take(index as int), bit);
            }
            let before = self.rank_add(node, bit);
            match n.right {
                Some(right_id) => {
                    if right_id >= 0 {
                        before + self.rank_node(
                            right_id as usize,
                            bit,
                            index - n.nums,
                            Ghost(s.rhs()),
                            Ghost(Some(node)),
                        )
                    } else {
                        before + self.rank_leaf(right_id, index - n.nums, bit)
                    }
                },
                None => {
                    proof {
                        assert(r.take(0) =~= Seq::<bool>::empty());
                    }
                    before
                },
            }
        } else {
            proof {
                lemma_rank_concat_left(l, r, bit, index as int);
            }
            let left_id = n.left.unwrap();
            if left_id >= 0 {
                self.rank_node(left_id as usize, bit, index, Ghost(s.lhs()), Ghost(Some(node)))
            } else {
                self.rank_leaf(left_id, index, bit)
            }
        }
    }

    /// Number of `bit` values in the positions before `index`.
    #[inline]
    pub fn rank(&self, bit: bool, index: usize) -> (r: usize)
        requires
            self.wf(),
            index <= self@.len(),
        ensures
            r == rank_of(self@, bit, index as int),
    {
        let ghost s = self.shape();
        self.rank_node(self.root, bit, index, Ghost(s), Ghost(None))
    }

    /// Position, in the leaf named by `leaf`, of the occurrence of `bit` with `n`
    /// occurrences before it.
    #[inline]
    fn select_leaf(&self, leaf: isize, n: usize, bit: bool) -> (r: Result<usize, BitVecError>)
        requires
            self.sized(),
            leaf < 0,
            -leaf < self.leafs.len(),
            self.leafs[-leaf].wf(),
        ensures
            match r {
                Ok(pos) => is_select(self.leafs[-leaf].bits(), bit, n as nat, pos as int),
                Err(e) => e == BitVecError::NotFound && count(self.leafs[-leaf].bits(), bit) <= n,
            },
    {
        self.leafs[(-leaf) as usize].select(bit, n)
    }

    /// Position, under the node `node`, of the occurrence of `bit` with `n` occurrences
    /// before it.
    fn select_node(
        &self,
        node: usize,
        n: usize,
        bit: bool,
        Ghost(s): Ghost<Shape>,
        Ghost(p): Ghost<Option<usize>>,
    ) -> (r: Result<usize, BitVecError>)
        requires
            self.sized(),
            self.linked(s, p),
            s is Node,
            s.idx() == node,
            self.bits_in(s).len() <= usize::MAX,
        ensures
            match r {
                Ok(pos) => is_select(self.bits_in(s), bit, n as nat, pos as int),
                Err(e) => e == BitVecError::NotFound && count(self.bits_in(s), bit) <= n,
            },
        decreases s,
    {
        let nd = self.nodes[node];
        let ghost l = self.bits_in(s.lhs());
        let ghost r = self.bits_in(s.rhs());
        proof {
            lemma_child(self, s.lhs(), Some(node));
            lemma_child(self, s.rhs(), Some(node));
            lemma_count_bound(l, true);
            lemma_count_complement(l);
            lemma_count_concat(l, r, bit);
        }
        let before = self.rank_add(node, bit);
        if before <= n {
            match nd.right {
                Some(right_id) => {
                    let found = if right_id >= 0 {
                        self.select_node(
                            right_id as usize,
                            n - before,
                            bit,
                            Ghost(s.rhs()),
                            Ghost(Some(node)),
                        )
                    } else {
                        self.select_leaf(right_id, n - before, bit)
                    };
                    match found {
                        Ok(pos) => {
                            proof {
                                lemma_rank_concat_right(l, r, bit, pos as int);
                            }
                            Ok(nd.nums + pos)
                        },
                        Err(e) => Err(e),
                    }
                },
                None => Err(BitVecError::NotFound),
            }
        } else {
            let left_id = nd.left.unwrap();
            let found = if left_id >= 0 {
                self.select_node(left_id as usize, n, bit, Ghost(s.lhs()), Ghost(Some(node)))
            } else {
                self.select_leaf(left_id, n, bit)
            };
            match found {
                Ok(pos) => {
                    proof {
                        lemma_rank_concat_left(l, r, bit, pos as int);
                    }
                    Ok(pos)
                },
                Err(e) => Err(e),
            }
        }
    }

    /// Position of the occurrence of `bit` that has `n` occurrences before it, or
    /// `NotFound` where the vector holds at most `n` of them.
    #[inline]
    pub fn select(&self, bit: bool, n: usize) -> (r: Result<usize, BitVecError>)
        requires
            self.wf(),
        ensures
            match r {
                Ok(pos) => is_select(self@, bit, n as nat, pos as int),
                Err(e) => e == BitVecError::NotFound && count(self@, bit) <= n,
            },
    {
        let ghost s = self.shape();
        self.select_node(self.root, n, bit, Ghost(s), Ghost(None))
    }
}

/// The tree that is laid out under a child reference is the tree with the right
/// counters that is held there.
pub proof fn lemma_counted_under(a: &DynamicBitVector, s: Shape, p: Option<usize>)
    requires
        a.sized(),
        a.linked(s, p),
        !(s is Nil),
    ensures
        a.has_counted(s.child_ref().unwrap()),
        a.counted_under(s.child_ref().unwrap()) == s,
{
    let c = s.child_ref().unwrap();
    lemma_linked_framed(a, s, p);
    lemma_linked_counted(a, s, p);
    assert(a.is_counted_under(s, c));
    let t = a.counted_under(c);
    let q = choose|q: Option<usize>| #[trigger] a.framed(t, q);
    lemma_frame_unique(a, s, p, t, q);
}

} // verus!
