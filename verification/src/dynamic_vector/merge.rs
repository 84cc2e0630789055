use vstd::prelude::*;
use crate::bits::{count, lemma_count_bound, lemma_count_concat};
use crate::dynamic_vector::balance::{lemma_child_changed, lemma_children_differ, subtree_on};
use crate::dynamic_vector::model::{
    lemma_child, lemma_frame, lemma_ids_in_range, lemma_reparent, parent_outside,
};
use crate::node::Node;
use crate::dynamic_vector::shape::{lemma_extremes, lemma_node_parts, Shape};
use crate::dynamic_vector::DynamicBitVector;
use crate::leaf::Leaf;
use crate::side::Side;
use crate::traits::{DynBitVec, StaticBitVec};

verus! {

/// Replacing the last leaf of a laid-out proper tree by a leaf with other bits and the
/// same parent leaves the tree laid out: the last leaf lies in no left subtree, so no
/// counter has to change. The bits of the tree end with the bits of its last leaf.
pub proof fn lemma_replace_rightmost(
    a: &DynamicBitVector,
    f: &DynamicBitVector,
    o: Shape,
    p: Option<usize>,
)
    requires
        a.sized(),
        a.linked(o, p),
        o.distinct(),
        o.proper(),
        f.root == a.root,
        f.nodes@ == a.nodes@,
        f.leafs.len() == a.leafs.len(),
        forall|j: int|
            0 <= j < a.leafs.len() && j != o.rightmost() ==> #[trigger] f.leafs[j] == a.leafs[j],
        f.leafs[o.rightmost()].wf(),
        f.leafs[o.rightmost()].parent == a.leafs[o.rightmost()].parent,
    ensures
        f.linked(o, p),
        a.bits_in(o).len() >= a.leafs[o.rightmost()].nums,
        f.bits_in(o) == a.bits_in(o).take(a.bits_in(o).len() - a.leafs[o.rightmost()].nums)
            + f.leafs[o.rightmost()].bits(),
        a.bits_in(o).skip(a.bits_in(o).len() - a.leafs[o.rightmost()].nums)
            == a.leafs[o.rightmost()].bits(),
        a.same_but(f, o),
    decreases o,
{
    lemma_extremes(o);
    match o {
        Shape::Node { id, left, right } => {
            let l = *left;
            let r = *right;
            lemma_extremes(r);
            lemma_child(a, o, p);
            lemma_replace_rightmost(a, f, r, Some(id as usize));
            assert(a.agrees(f, l)) by {
                lemma_ids_in_range(a, l, Some(id as usize));
                assert forall|j: int| #[trigger] l.leaf_ids().contains(j) implies j
                    != o.rightmost() by {}
            }
            lemma_frame(a, f, l, Some(id as usize));
            let k = a.leafs[o.rightmost()].nums as int;
            let bl = a.bits_in(l);
            let br = a.bits_in(r);
            assert((bl + br).take(bl.len() + br.len() - k) =~= bl + br.take(br.len() - k));
            assert((bl + br).skip(bl.len() + br.len() - k) =~= br.skip(br.len() - k));
            assert(f.bits_in(o) =~= a.bits_in(o).take(a.bits_in(o).len() - k)
                + f.leafs[o.rightmost()].bits());
            assert(forall|j: int| r.leaf_ids().contains(j) ==> o.leaf_ids().contains(j));
            assert(forall|j: int| r.node_ids().contains(j) ==> o.node_ids().contains(j));
        },
        Shape::Leaf { id } => {
            let b = a.bits_in(o);
            assert(b.take(0) + f.leafs[id].bits() =~= f.leafs[id].bits());
            assert(b.skip(0) =~= b);
        },
        Shape::Nil => {},
    }
}

impl DynamicBitVector {
    /// The name of the first leaf under the child `child`.
    pub(crate) fn descend_leftmost(&self, child: isize, Ghost(o): Ghost<Shape>, Ghost(p): Ghost<
        Option<usize>,
    >) -> (r: isize)
        requires
            self.sized(),
            self.linked(o, p),
            o.proper(),
            o.child_ref() == Some(child),
        ensures
            r < 0,
            -r == o.leftmost(),
            1 <= -r < self.leafs.len(),
        decreases o,
    {
        proof {
            lemma_child(self, o, p);
        }
        if child >= 0 {
            let left = self.nodes[child as usize].left;
            proof {
                lemma_node_parts(o);
                lemma_child(self, o.lhs(), Some(child as usize));
            }
            self.descend_leftmost(left.unwrap(), Ghost(o.lhs()), Ghost(Some(child as usize)))
        } else {
            child
        }
    }

    /// The name of the last leaf under the child `child`.
    pub(crate) fn descend_rightmost(&self, child: isize, Ghost(o): Ghost<Shape>, Ghost(p): Ghost<
        Option<usize>,
    >) -> (r: isize)
        requires
            self.sized(),
            self.linked(o, p),
            o.proper(),
            o.child_ref() == Some(child),
        ensures
            r < 0,
            -r == o.rightmost(),
            1 <= -r < self.leafs.len(),
        decreases o,
    {
        proof {
            lemma_child(self, o, p);
        }
        if child >= 0 {
            let right = self.nodes[child as usize].right;
            proof {
                lemma_node_parts(o);
                lemma_child(self, o.rhs(), Some(child as usize));
            }
            self.descend_rightmost(right.unwrap(), Ghost(o.rhs()), Ghost(Some(child as usize)))
        } else {
            child
        }
    }

    /// Puts `new_leaf` in the place of the first leaf under the child `child`, and
    /// adjusts the counters of the nodes that have this leaf in their left subtree:
    /// they give up the `old_nums` bits and `old_ones` one-bits of the former leaf and
    /// take in those of the new one.
    #[verifier::rlimit(40)]
    pub(crate) fn replace_leftmost(
        &mut self,
        child: isize,
        new_leaf: Leaf,
        old_nums: usize,
        old_ones: usize,
        Ghost(o): Ghost<Shape>,
        Ghost(p): Ghost<Option<usize>>,
    )
        requires
            old(self).sized(),
            old(self).linked(o, p),
            o.distinct(),
            o.proper(),
            o.child_ref() == Some(child),
            parent_outside(old(self), o, p),
            new_leaf.wf(),
            new_leaf.parent == old(self).leafs[o.leftmost()].parent,
            old_nums == old(self).leafs[o.leftmost()].nums,
            old_ones == count(old(self).leafs[o.leftmost()].bits(), true),
            old(self).bits_in(o).len() - old_nums + new_leaf.nums <= usize::MAX,
        ensures
            final(self).sized(),
            final(self).linked(o, p),
            old(self).bits_in(o).len() >= old_nums,
            final(self).bits_in(o) == new_leaf.bits() + old(self).bits_in(o).skip(old_nums as int),
            old(self).bits_in(o).take(old_nums as int) == old(self).leafs[o.leftmost()].bits(),
            final(self).root == old(self).root,
            final(self).nodes.len() == old(self).nodes.len(),
            final(self).leafs.len() == old(self).leafs.len(),
            old(self).same_but(final(self), o),
            final(self).leafs[o.leftmost()] == new_leaf,
            forall|j: int|
                0 <= j < old(self).leafs.len() && j != o.leftmost() ==> #[trigger] final(self).leafs[j]
                    == old(self).leafs[j],
        decreases o,
    {
        let ghost a = *self;
        proof {
            lemma_child(&a, o, p);
            lemma_extremes(o);
            lemma_ids_in_range(&a, o, p);
        }
        if child >= 0 {
            let node = child as usize;
            let ghost l = o.lhs();
            let ghost bl = a.bits_in(l);
            let ghost br = a.bits_in(o.rhs());
            proof {
                lemma_node_parts(o);
                lemma_child(&a, l, Some(node));
                lemma_children_differ(&a, o, p);
                assert(o.node_ids().contains(o.idx()));
                assert(forall|j: int| l.leaf_ids().contains(j) ==> o.leaf_ids().contains(j));
                assert(forall|j: int| l.node_ids().contains(j) ==> o.node_ids().contains(j));
            }
            let left = self.nodes[node].left.unwrap();
            self.replace_leftmost(left, new_leaf, old_nums, old_ones, Ghost(l), Ghost(Some(node)));
            let ghost m = *self;
            let mut n = self.nodes[node];
            proof {
                let k = old_nums as int;
                lemma_count_concat(new_leaf.bits(), bl.skip(k), true);
                lemma_count_concat(bl.take(k), bl.skip(k), true);
                assert(bl.take(k) + bl.skip(k) =~= bl);
                lemma_count_bound(new_leaf.bits() + bl.skip(k), true);
                lemma_count_bound(bl, true);
                lemma_count_bound(bl.skip(k), true);
                assert((new_leaf.bits() + bl.skip(k)) + br =~= new_leaf.bits() + (bl + br).skip(k));
                assert((bl + br).take(k) =~= bl.take(k));
            }
            n.nums = n.nums - old_nums + new_leaf.nums();
            n.ones = n.ones - old_ones + new_leaf.ones();
            self.nodes[node] = n;
            proof {
                assert(a.same_outside(&m, l, Some(node)));
                assert(a.regrafted(&m, l, l, Some(node)));
                lemma_child_changed(&a, &m, self, o, p, false, l);
            }
        } else {
            self.leafs[(-child) as usize] = new_leaf;
            proof {
                let b = a.bits_in(o);
                assert(new_leaf.bits() + b.skip(old_nums as int) =~= new_leaf.bits());
                assert(b.take(old_nums as int) =~= b);
                assert(o.leaf_ids().contains(o.idx()));
            }
        }
    }

    /// The leaf next to the leaf child of a node, in the order of the bits: the first
    /// leaf under the right child for a left leaf, the last leaf under the left child
    /// for a right leaf.
    pub open spec fn neighbor_of(s: Shape, right_side: bool) -> int {
        if right_side {
            s.lhs().rightmost()
        } else {
            s.rhs().leftmost()
        }
    }

    /// Moves all but the first 32 bits of the leaf `nb`, the last leaf under the left
    /// child of `parent`, to the front of the leaf that is the right child of `parent`.
    /// The counters of `parent` follow. The bits of the subtree stay as they are.
    #[verifier::rlimit(40)]
    pub(crate) fn steal_from_previous(
        &mut self,
        parent: usize,
        nb: isize,
        Ghost(s): Ghost<Shape>,
        Ghost(gp): Ghost<Option<usize>>,
    )
        requires
            old(self).sized(),
            old(self).linked(s, gp),
            s.distinct(),
            s.proper(),
            s is Node,
            s.idx() == parent,
            parent_outside(old(self), s, gp),
            subtree_on(s, true) is Leaf,
            nb < 0,
            -nb == Self::neighbor_of(s, true),
            old(self).leafs[-nb].nums >= 32,
            old(self).leafs[subtree_on(s, true).idx()].nums <= 32,
            old(self).bits_in(s).len() <= usize::MAX,
        ensures
            final(self).sized(),
            final(self).linked(s, gp),
            final(self).bits_in(s) == old(self).bits_in(s),
            final(self).root == old(self).root,
            final(self).nodes.len() == old(self).nodes.len(),
            final(self).leafs.len() == old(self).leafs.len(),
            old(self).same_but(final(self), s),
            final(self).leafs[-nb].nums == 32,
            final(self).leafs[s.rhs().idx()].nums == old(self).leafs[s.rhs().idx()].nums + old(self).leafs[-nb].nums
                - 32,
            forall|j: int|
                0 <= j < old(self).leafs.len() && j != -nb && j != s.rhs().idx() ==> (
                #[trigger] final(self).leafs[j]).nums == old(self).leafs[j].nums,
    {
        let ghost a = *self;
        let ghost sl = subtree_on(s, true);
        let ghost o = subtree_on(s, !true);
        proof {
            lemma_node_parts(s);
            lemma_child(&a, s, gp);
            lemma_child(&a, s.lhs(), Some(parent));
            lemma_child(&a, s.rhs(), Some(parent));
            lemma_children_differ(&a, s, gp);
            lemma_extremes(o);
            lemma_ids_in_range(&a, s, gp);
            lemma_ids_in_range(&a, o, Some(parent));
            lemma_count_bound(a.bits_in(s.lhs()), true);
            assert(s.node_ids().contains(s.idx()));
            assert(sl.leaf_ids().contains(sl.idx()));
            assert(sl.node_ids() =~= Set::<int>::empty());
            assert(forall|j: int| o.leaf_ids().contains(j) ==> s.leaf_ids().contains(j));
            assert(forall|j: int| o.node_ids().contains(j) ==> s.node_ids().contains(j));
            assert(forall|j: int| sl.leaf_ids().contains(j) ==> s.leaf_ids().contains(j));
        }
        let n0 = self.nodes[parent];
        let ni = (-nb) as usize;
        let mut neighbor = self.leafs[ni];
        let ghost nb_bits = neighbor.bits();
        let old_nums = neighbor.nums();
        let old_ones = neighbor.ones();
        let leaf = n0.right.unwrap();
        let li = (-leaf) as usize;
        let k: u8 = neighbor.nums - 32;
        let v = neighbor.split_to_right();
        proof {
            lemma_count_concat(nb_bits.take(32), nb_bits.skip(32), true);
            assert(nb_bits.take(32) + nb_bits.skip(32) =~= nb_bits);
            lemma_count_bound(nb_bits.skip(32), true);
        }
        let stolen_ones = old_ones - neighbor.ones();
        self.leafs[ni] = neighbor;
        let ghost m = *self;
        let mut l = self.leafs[li];
        let ghost l_bits = l.bits();
        l.extend(Side::Left(v), k);
        self.leafs[li] = l;
        let mut n = self.nodes[parent];
        let ghost bo = a.bits_in(o);
        let ghost cut = bo.len() - old_nums;
        proof {
            lemma_replace_rightmost(&a, &m, o, Some(parent));
            lemma_count_concat(bo.take(cut), bo.skip(cut), true);
            assert(bo.take(cut) + bo.skip(cut) =~= bo);
            lemma_count_concat(bo.take(cut), nb_bits.take(32), true);
            lemma_count_bound(bo.take(cut), true);
        }
        n.nums = n.nums - k as usize;
        n.ones = n.ones - stolen_ones;
        self.nodes[parent] = n;
        proof {
            assert(m.agrees(self, o));
            lemma_frame(&m, self, o, Some(parent));
            assert(self.linked(sl, Some(parent)));
            assert(self.bits_in(sl) == nb_bits.skip(32) + l_bits);
            assert(self.bits_in(o) == bo.take(cut) + nb_bits.take(32));
            assert(self.bits_in(s) == self.bits_in(o) + self.bits_in(sl));
            assert((bo.take(cut) + nb_bits.take(32)) + (nb_bits.skip(32) + l_bits) =~= (bo.take(cut)
                + bo.skip(cut)) + l_bits);
            assert(self.linked(s, gp));
        }
    }

    /// Moves the first 32 bits of the leaf `nb`, the first leaf under the right child
    /// of `parent`, to the end of the leaf that is the left child of `parent`. The
    /// counters of `parent` and of the nodes over `nb` follow. The bits of the subtree
    /// stay as they are.
    #[verifier::rlimit(40)]
    pub(crate) fn steal_from_next(
        &mut self,
        parent: usize,
        nb: isize,
        Ghost(s): Ghost<Shape>,
        Ghost(gp): Ghost<Option<usize>>,
    )
        requires
            old(self).sized(),
            old(self).linked(s, gp),
            s.distinct(),
            s.proper(),
            s is Node,
            s.idx() == parent,
            parent_outside(old(self), s, gp),
            subtree_on(s, false) is Leaf,
            nb < 0,
            -nb == Self::neighbor_of(s, false),
            old(self).leafs[-nb].nums >= 32,
            old(self).leafs[subtree_on(s, false).idx()].nums <= 32,
            old(self).bits_in(s).len() <= usize::MAX,
        ensures
            final(self).sized(),
            final(self).linked(s, gp),
            final(self).bits_in(s) == old(self).bits_in(s),
            final(self).root == old(self).root,
            final(self).nodes.len() == old(self).nodes.len(),
            final(self).leafs.len() == old(self).leafs.len(),
            old(self).same_but(final(self), s),
            final(self).leafs[-nb].nums == old(self).leafs[-nb].nums - 32,
            final(self).leafs[s.lhs().idx()].nums == old(self).leafs[s.lhs().idx()].nums + 32,
            forall|j: int|
                0 <= j < old(self).leafs.len() && j != -nb && j != s.lhs().idx() ==> (
                #[trigger] final(self).leafs[j]).nums == old(self).leafs[j].nums,
    {
        let ghost a = *self;
        let ghost sl = subtree_on(s, false);
        let ghost o = subtree_on(s, !false);
        proof {
            lemma_node_parts(s);
            lemma_child(&a, s, gp);
            lemma_child(&a, s.lhs(), Some(parent));
            lemma_child(&a, s.rhs(), Some(parent));
            lemma_children_differ(&a, s, gp);
            lemma_extremes(o);
            lemma_ids_in_range(&a, s, gp);
            lemma_ids_in_range(&a, o, Some(parent));
            lemma_count_bound(a.bits_in(s.lhs()), true);
            assert(s.node_ids().contains(s.idx()));
            assert(sl.leaf_ids().contains(sl.idx()));
            assert(sl.node_ids() =~= Set::<int>::empty());
            assert(forall|j: int| o.leaf_ids().contains(j) ==> s.leaf_ids().contains(j));
            assert(forall|j: int| o.node_ids().contains(j) ==> s.node_ids().contains(j));
            assert(forall|j: int| sl.leaf_ids().contains(j) ==> s.leaf_ids().contains(j));
        }
        let n0 = self.nodes[parent];
        let ni = (-nb) as usize;
        let mut neighbor = self.leafs[ni];
        let ghost nb_bits = neighbor.bits();
        let old_nums = neighbor.nums();
        let old_ones = neighbor.ones();
        let leaf = n0.left.unwrap();
        let other = n0.right.unwrap();
        let li = (-leaf) as usize;
        let v = neighbor.split_to_left();
        self.replace_leftmost(other, neighbor, old_nums, old_ones, Ghost(o), Ghost(Some(parent)));
        let ghost m = *self;
        let mut l = self.leafs[li];
        let ghost l_bits = l.bits();
        l.extend(Side::Right(v), 32);
        self.leafs[li] = l;
        let mut n = self.nodes[parent];
        n.nums = l.nums();
        n.ones = l.ones();
        self.nodes[parent] = n;
        proof {
            let bo = a.bits_in(o);
            lemma_count_bound(l.bits(), true);
            assert(m.agrees(self, o));
            lemma_frame(&m, self, o, Some(parent));
            assert(self.linked(sl, Some(parent)));
            assert(self.bits_in(sl) == l_bits + nb_bits.take(32));
            assert(self.bits_in(o) == nb_bits.skip(32) + bo.skip(old_nums as int));
            assert(self.bits_in(s) == self.bits_in(sl) + self.bits_in(o));
            assert(bo.take(old_nums as int) + bo.skip(old_nums as int) =~= bo);
            assert(nb_bits.take(32) + nb_bits.skip(32) =~= nb_bits);
            assert((l_bits + nb_bits.take(32)) + (nb_bits.skip(32) + bo.skip(old_nums as int))
                =~= l_bits + (bo.take(old_nums as int) + bo.skip(old_nums as int)));
            assert(self.linked(s, gp));
        }
    }

    /// `new` is this vector after the subtree `s` under `gp` gave up bits and became
    /// `s2`: `s2` is laid out, balanced and proper, made of the nodes and leaves of `s`
    /// but for the leaf and the node named by `gone`, as high as `s` or lower by one, as
    /// `delta` says; nothing outside was touched but the name by which the parent calls
    /// the subtree.
    pub open spec fn shrunk(
        &self,
        new: &DynamicBitVector,
        s: Shape,
        s2: Shape,
        gp: Option<usize>,
        delta: int,
        gone: Option<(usize, usize)>,
    ) -> bool {
        &&& new.sized()
        &&& new.nodes.len() == self.nodes.len()
        &&& new.leafs.len() == self.leafs.len()
        &&& new.linked(s2, gp)
        &&& s2.balanced()
        &&& s2.distinct()
        &&& s2.proper()
        &&& s2.height() == s.height() + delta
        &&& (delta == 0 || delta == -1)
        &&& match gone {
            Some(g) => {
                &&& s.leaf_ids().contains(g.0 as int)
                &&& s.node_ids().contains(g.1 as int)
                &&& s2.leaf_ids() =~= s.leaf_ids().remove(g.0 as int)
                &&& s2.node_ids() =~= s.node_ids().remove(g.1 as int)
            },
            None => s2.leaf_ids() =~= s.leaf_ids() && s2.node_ids() =~= s.node_ids(),
        }
        &&& self.same_outside(new, s, gp)
        &&& self.regrafted(new, s, s2, gp)
        &&& parent_outside(new, s2, gp)
    }

    /// Takes the node `parent` out of the tree and puts its child `other` in its place:
    /// the parent of `parent`, or the root index, names `other`, and `other` gets the
    /// parent that `parent` had.
    fn splice_out(&mut self, parent: usize, other: isize, Ghost(o): Ghost<Shape>, Ghost(gp): Ghost<
        Option<usize>,
    >)
        requires
            old(self).sized(),
            old(self).linked(o, Some(parent)),
            o.distinct(),
            o.child_ref() == Some(other),
            parent < old(self).nodes.len(),
            !o.node_ids().contains(parent as int),
            old(self).nodes[parent as int].parent == gp,
            match gp {
                Some(p) => {
                    &&& p < old(self).nodes.len()
                    &&& p != parent
                    &&& !o.node_ids().contains(p as int)
                    &&& old(self).nodes[p as int].has_child(parent as isize)
                },
                None => o is Node,
            },
        ensures
            final(self).sized(),
            final(self).nodes.len() == old(self).nodes.len(),
            final(self).leafs.len() == old(self).leafs.len(),
            final(self).linked(o, gp),
            final(self).bits_in(o) == old(self).bits_in(o),
            parent_outside(final(self), o, gp),
            match gp {
                Some(p) => final(self).root == old(self).root && final(self).nodes[p as int] == old(
                    self,
                ).nodes[p as int].with_child(parent as isize, other),
                None => final(self).root == o.idx(),
            },
            forall|i: int|
                0 <= i < old(self).nodes.len() && gp != Some(i as usize) && !o.node_ids().contains(i)
                    ==> #[trigger] final(self).nodes[i] == old(self).nodes[i],
            forall|j: int|
                0 <= j < old(self).leafs.len() && !o.leaf_ids().contains(j)
                    ==> #[trigger] final(self).leafs[j] == old(self).leafs[j],
            old(self).same_contents(final(self)),
    {
        let ghost a = *self;
        proof {
            lemma_child(&a, o, Some(parent));
            lemma_ids_in_range(&a, o, Some(parent));
            if o is Node {
                assert(o.node_ids().contains(o.idx()));
                lemma_node_parts(o);
                assert(forall|j: int| o.lhs().node_ids().contains(j) ==> o.node_ids().contains(j));
                assert(forall|j: int| o.rhs().node_ids().contains(j) ==> o.node_ids().contains(j));
                assert(forall|j: int| o.lhs().leaf_ids().contains(j) ==> o.leaf_ids().contains(j));
                assert(forall|j: int| o.rhs().leaf_ids().contains(j) ==> o.leaf_ids().contains(j));
            } else {
                assert(o.leaf_ids().contains(o.idx()));
            }
        }
        match self.nodes[parent].parent {
            Some(p) => {
                let mut np = self.nodes[p];
                np.replace_child_with(parent as isize, other);
                self.nodes[p] = np;
                self.set_parent(other, p);
            },
            None => {
                self.root = other as usize;
                let mut no = self.nodes[other as usize];
                no.parent = None;
                self.nodes[other as usize] = no;
            },
        }
        proof {
            if o is Node {
                assert forall|i: int| #[trigger] o.lhs().node_ids().contains(i) implies i
                    != o.idx() && o.node_ids().contains(i) by {}
                assert forall|i: int| #[trigger] o.rhs().node_ids().contains(i) implies i
                    != o.idx() && o.node_ids().contains(i) by {}
                assert forall|i: int| #[trigger] o.lhs().leaf_ids().contains(i) implies o.leaf_ids().contains(
                    i,
                ) by {}
                assert forall|i: int| #[trigger] o.rhs().leaf_ids().contains(i) implies o.leaf_ids().contains(
                    i,
                ) by {}
                assert(a.agrees(self, o.lhs()));
                assert(a.agrees(self, o.rhs()));
            }
            lemma_reparent(&a, self, o, Some(parent), gp);
        }
    }

    /// Appends the bits of the leaf that is the right child of `parent` to the leaf
    /// `nb`, the last leaf under the left child, and takes `parent` out of the tree: its
    /// left child takes its place. Returns the slot of the leaf and the index of the
    /// node that are no longer part of the tree.
    #[verifier::rlimit(40)]
    pub(crate) fn merge_into_previous(
        &mut self,
        parent: usize,
        nb: isize,
        Ghost(s): Ghost<Shape>,
        Ghost(gp): Ghost<Option<usize>>,
    ) -> (gone: (usize, usize))
        requires
            old(self).sized(),
            old(self).linked(s, gp),
            s.balanced(),
            s.distinct(),
            s.proper(),
            s is Node,
            s.idx() == parent,
            parent_outside(old(self), s, gp),
            subtree_on(s, true) is Leaf,
            gp is None ==> subtree_on(s, !true) is Node,
            nb < 0,
            -nb == Self::neighbor_of(s, true),
            old(self).leafs[-nb].nums + old(self).leafs[subtree_on(s, true).idx()].nums <= 64,
            old(self).bits_in(s).len() <= usize::MAX,
        ensures
            old(self).shrunk(final(self), s, subtree_on(s, !true), gp, -1, Some(gone)),
            final(self).bits_in(subtree_on(s, !true)) == old(self).bits_in(s),
            gone.0 == subtree_on(s, true).idx(),
            gone.1 == parent,
            final(self).leafs[-nb].nums == old(self).leafs[-nb].nums + old(self).leafs[s.rhs().idx()].nums,
            forall|j: int|
                0 <= j < old(self).leafs.len() && j != -nb ==> (#[trigger] final(self).leafs[j]).nums
                    == old(self).leafs[j].nums,
    {
        let ghost a = *self;
        let ghost sl = subtree_on(s, true);
        let ghost o = subtree_on(s, !true);
        proof {
            lemma_node_parts(s);
            lemma_child(&a, s, gp);
            lemma_child(&a, s.lhs(), Some(parent));
            lemma_child(&a, s.rhs(), Some(parent));
            lemma_children_differ(&a, s, gp);
            lemma_extremes(o);
            lemma_ids_in_range(&a, s, gp);
            lemma_ids_in_range(&a, o, Some(parent));
            crate::dynamic_vector::shape::lemma_proper_height(o);
            assert(s.node_ids().contains(s.idx()));
            assert(sl.leaf_ids().contains(sl.idx()));
            assert(sl.leaf_ids() =~= Set::<int>::empty().insert(sl.idx()));
            assert(sl.node_ids() =~= Set::<int>::empty());
            assert(forall|j: int| o.leaf_ids().contains(j) ==> s.leaf_ids().contains(j));
            assert(forall|j: int| o.node_ids().contains(j) ==> s.node_ids().contains(j));
            assert(forall|j: int| sl.leaf_ids().contains(j) ==> s.leaf_ids().contains(j));
            assert(s.node_ids() =~= s.lhs().node_ids().union(s.rhs().node_ids()).insert(s.idx()));
            assert(s.leaf_ids() =~= s.lhs().leaf_ids().union(s.rhs().leaf_ids()));
        }
        let n0 = self.nodes[parent];
        let ni = (-nb) as usize;
        let mut neighbor = self.leafs[ni];
        let ghost nb_bits = neighbor.bits();
        let old_nums = neighbor.nums();
        let old_ones = neighbor.ones();
        let leaf = n0.right.unwrap();
        let other = n0.left.unwrap();
        let li = (-leaf) as usize;
        let small = self.leafs[li];
        neighbor.extend_from(&small);
        self.leafs[ni] = neighbor;
        proof {
            let m = *self;
            lemma_replace_rightmost(&a, &m, o, Some(parent));
            let bo = a.bits_in(o);
            let cut = bo.len() - old_nums;
            assert(bo.take(cut) + bo.skip(cut) =~= bo);
            assert(bo.take(cut) + (nb_bits + small.bits()) =~= (bo.take(cut) + bo.skip(cut))
                + small.bits());
            assert(m.bits_in(o) == a.bits_in(s));
        }
        let ghost m = *self;
        proof {
            assert(m.nodes[parent as int] == a.nodes[parent as int]);
        }
        self.splice_out(parent, other, Ghost(o), Ghost(gp));
        proof {
            assert(o.node_ids() =~= s.node_ids().remove(parent as int));
            assert(o.leaf_ids() =~= s.leaf_ids().remove(sl.idx()));
            assert(a.same_outside(self, s, gp));
            assert(a.regrafted(self, s, o, gp));
        }
        (li, parent)
    }

    /// Puts the bits of the leaf that is the left child of `parent` in front of the
    /// leaf `nb`, the first leaf under the right child, and takes `parent` out of the
    /// tree: its right child takes its place. The counters of the nodes over `nb`
    /// follow. Returns the slot of the leaf and the index of the node that are no
    /// longer part of the tree.
    #[verifier::rlimit(40)]
    pub(crate) fn merge_into_next(
        &mut self,
        parent: usize,
        nb: isize,
        Ghost(s): Ghost<Shape>,
        Ghost(gp): Ghost<Option<usize>>,
    ) -> (gone: (usize, usize))
        requires
            old(self).sized(),
            old(self).linked(s, gp),
            s.balanced(),
            s.distinct(),
            s.proper(),
            s is Node,
            s.idx() == parent,
            parent_outside(old(self), s, gp),
            subtree_on(s, false) is Leaf,
            gp is None ==> subtree_on(s, !false) is Node,
            nb < 0,
            -nb == Self::neighbor_of(s, false),
            old(self).leafs[-nb].nums + old(self).leafs[subtree_on(s, false).idx()].nums <= 64,
            old(self).bits_in(s).len() <= usize::MAX,
        ensures
            old(self).shrunk(final(self), s, subtree_on(s, !false), gp, -1, Some(gone)),
            final(self).bits_in(subtree_on(s, !false)) == old(self).bits_in(s),
            gone.0 == subtree_on(s, false).idx(),
            gone.1 == parent,
            final(self).leafs[-nb].nums == old(self).leafs[-nb].nums + old(self).leafs[s.lhs().idx()].nums,
            forall|j: int|
                0 <= j < old(self).leafs.len() && j != -nb ==> (#[trigger] final(self).leafs[j]).nums
                    == old(self).leafs[j].nums,
    {
        let ghost a = *self;
        let ghost sl = subtree_on(s, false);
        let ghost o = subtree_on(s, !false);
        proof {
            lemma_node_parts(s);
            lemma_child(&a, s, gp);
            lemma_child(&a, s.lhs(), Some(parent));
            lemma_child(&a, s.rhs(), Some(parent));
            lemma_children_differ(&a, s, gp);
            lemma_extremes(o);
            lemma_ids_in_range(&a, s, gp);
            lemma_ids_in_range(&a, o, Some(parent));
            crate::dynamic_vector::shape::lemma_proper_height(o);
            assert(s.node_ids().contains(s.idx()));
            assert(sl.leaf_ids().contains(sl.idx()));
            assert(sl.leaf_ids() =~= Set::<int>::empty().insert(sl.idx()));
            assert(sl.node_ids() =~= Set::<int>::empty());
            assert(forall|j: int| o.leaf_ids().contains(j) ==> s.leaf_ids().contains(j));
            assert(forall|j: int| o.node_ids().contains(j) ==> s.node_ids().contains(j));
            assert(forall|j: int| sl.leaf_ids().contains(j) ==> s.leaf_ids().contains(j));
            assert(s.node_ids() =~= s.lhs().node_ids().union(s.rhs().node_ids()).insert(s.idx()));
            assert(s.leaf_ids() =~= s.lhs().leaf_ids().union(s.rhs().leaf_ids()));
        }
        let n0 = self.nodes[parent];
        let ni = (-nb) as usize;
        let mut neighbor = self.leafs[ni];
        let ghost nb_bits = neighbor.bits();
        let old_nums = neighbor.nums();
        let old_ones = neighbor.ones();
        let leaf = n0.left.unwrap();
        let other = n0.right.unwrap();
        let li = (-leaf) as usize;
        let small = self.leafs[li];
        neighbor.prepend(&small);
        self.replace_leftmost(other, neighbor, old_nums, old_ones, Ghost(o), Ghost(Some(parent)));
        proof {
            let m = *self;
            let bo = a.bits_in(o);
            assert(bo.take(old_nums as int) + bo.skip(old_nums as int) =~= bo);
            assert((small.bits() + nb_bits) + bo.skip(old_nums as int) =~= small.bits() + (bo.take(
                old_nums as int,
            ) + bo.skip(old_nums as int)));
            assert(m.bits_in(o) == a.bits_in(s));
        }
        let ghost m = *self;
        proof {
            assert(m.nodes[parent as int] == a.nodes[parent as int]);
        }
        self.splice_out(parent, other, Ghost(o), Ghost(gp));
        proof {
            assert(o.node_ids() =~= s.node_ids().remove(parent as int));
            assert(o.leaf_ids() =~= s.leaf_ids().remove(sl.idx()));
            assert(a.same_outside(self, s, gp));
            assert(a.regrafted(self, s, o, gp));
        }
        (li, parent)
    }
}

} // verus!
