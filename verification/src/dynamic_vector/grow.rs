use vstd::prelude::*;
use crate::bits::count;
use crate::dynamic_vector::model::{lemma_child, parent_outside};
use crate::dynamic_vector::shape::Shape;
use crate::dynamic_vector::DynamicBitVector;
use crate::leaf::Leaf;
use crate::node::Node;
use crate::traits::{DynBitVec, StaticBitVec};

verus! {

impl DynamicBitVector {
    /// `new` is this vector after a subtree `s` under `gp` took in bits and became `s2`:
    /// `s2` is laid out, balanced and proper, made of the nodes and leaves of `s` and of
    /// those that were added to the arenas, as high as `s` or, where `grew`, higher by
    /// one; nothing outside was touched but the name by which the parent calls the
    /// subtree.
    pub open spec fn grown(
        &self,
        new: &DynamicBitVector,
        s: Shape,
        s2: Shape,
        gp: Option<usize>,
        grew: bool,
    ) -> bool {
        &&& new.sized()
        &&& new.nodes.len() <= self.nodes.len() + 1
        &&& new.leafs.len() <= self.leafs.len() + 1
        &&& new.linked(s2, gp)
        &&& s2.balanced()
        &&& s2.distinct()
        &&& s2.proper()
        &&& s2.height() == s.height() + if grew {
            1int
        } else {
            0int
        }
        &&& s2.node_ids() =~= s.node_ids().union(
            Set::new(|i: int| self.nodes.len() <= i < new.nodes.len()),
        )
        &&& s2.leaf_ids() =~= s.leaf_ids().union(
            Set::new(|i: int| self.leafs.len() <= i < new.leafs.len()),
        )
        &&& self.same_outside(new, s, gp)
        &&& self.regrafted(new, s, s2, gp)
        &&& parent_outside(new, s2, gp)
    }

    /// There is room for one more node and one more leaf.
    pub open spec fn has_room(&self) -> bool {
        &&& self.nodes.len() < isize::MAX
        &&& self.leafs.len() < isize::MAX
    }

    /// Appends an empty leaf to the leaf arena and makes it the right child of `node`,
    /// whose rank goes up by one. Returns the name of the new leaf.
    pub fn create_right_leaf(&mut self, node: usize) -> (leaf_id: isize)
        requires
            old(self).sized(),
            old(self).leafs.len() < isize::MAX,
            node < old(self).nodes.len(),
            old(self).nodes[node as int].rank < 127,
        ensures
            leaf_id == -(old(self).leafs.len() as int),
            final(self).root == old(self).root,
            final(self).leafs@ == old(self).leafs@.push(Leaf { parent: node, value: 0, nums: 0 }),
            (Leaf { parent: node, value: 0, nums: 0 }).wf(),
            (Leaf { parent: node, value: 0, nums: 0 }).bits() == Seq::<bool>::empty(),
            final(self).nodes@ == old(self).nodes@.update(
                node as int,
                Node {
                    right: Some(leaf_id),
                    rank: (old(self).nodes[node as int].rank + 1) as i8,
                    ..old(self).nodes[node as int]
                },
            ),
    {
        let leaf_id: isize = -(self.leafs.len() as isize);
        self.leafs.push(Leaf::new(node));
        let mut n = self.nodes[node];
        n.right = Some(leaf_id);
        n.rank = n.rank + 1;
        self.nodes[node] = n;
        leaf_id
    }

    /// Gives the node `int_id`, which stands between the leaf `child_id` and the node
    /// `parent_id`, its links and counters: the leaf becomes its left child.
    #[inline]
    fn insert_node_common(&mut self, child_id: isize, parent_id: usize, int_id: usize)
        requires
            old(self).sized(),
            child_id < 0,
            -child_id < old(self).leafs.len(),
            old(self).leafs[-child_id].wf(),
            int_id < old(self).nodes.len(),
        ensures
            final(self).root == old(self).root,
            final(self).leafs@ == old(self).leafs@.update(
                -child_id,
                Leaf { parent: int_id, ..old(self).leafs[-child_id] },
            ),
            final(self).nodes@ == old(self).nodes@.update(
                int_id as int,
                Node {
                    parent: Some(parent_id),
                    left: Some(child_id),
                    nums: old(self).leafs[-child_id].nums as usize,
                    ones: count(old(self).leafs[-child_id].bits(), true) as usize,
                    rank: -1i8,
                    ..old(self).nodes[int_id as int]
                },
            ),
    {
        let mut l = self.leafs[(-child_id) as usize];
        l.parent = int_id;
        self.leafs[(-child_id) as usize] = l;
        let mut n = self.nodes[int_id];
        n.parent = Some(parent_id);
        n.left = Some(child_id);
        n.nums = l.nums();
        n.ones = l.ones();
        n.rank = -1;
        self.nodes[int_id] = n;
    }

    /// Puts the node `int_node_id` between the leaf `child_id` and its parent: the
    /// parent names the node where it named the leaf, and the leaf becomes the left
    /// child of the node.
    fn insert_intermediary_node(&mut self, child_id: isize, int_node_id: usize)
        requires
            old(self).sized(),
            child_id < 0,
            -child_id < old(self).leafs.len(),
            old(self).leafs[-child_id].wf(),
            int_node_id < old(self).nodes.len(),
            old(self).leafs[-child_id].parent < old(self).nodes.len(),
            old(self).leafs[-child_id].parent != int_node_id,
            old(self).nodes[old(self).leafs[-child_id].parent as int].has_child(child_id),
        ensures
            final(self).root == old(self).root,
            final(self).leafs@ == old(self).leafs@.update(
                -child_id,
                Leaf { parent: int_node_id, ..old(self).leafs[-child_id] },
            ),
            final(self).nodes@ == old(self).nodes@.update(
                old(self).leafs[-child_id].parent as int,
                old(self).nodes[old(self).leafs[-child_id].parent as int].with_child(
                    child_id,
                    int_node_id as isize,
                ),
            ).update(
                int_node_id as int,
                Node {
                    parent: Some(old(self).leafs[-child_id].parent),
                    left: Some(child_id),
                    nums: old(self).leafs[-child_id].nums as usize,
                    ones: count(old(self).leafs[-child_id].bits(), true) as usize,
                    rank: -1i8,
                    ..old(self).nodes[int_node_id as int]
                },
            ),
    {
        let parent_id = self.leafs[(-child_id) as usize].parent;
        let mut p = self.nodes[parent_id];
        p.replace_child_with(child_id, int_node_id as isize);
        self.nodes[parent_id] = p;
        self.insert_node_common(child_id, parent_id, int_node_id);
    }

    /// Appends a node to the node arena and puts it in the place of the leaf `leaf`,
    /// which becomes its left child. Returns the index of the new node.
    #[inline]
    pub(crate) fn insert_node_at_leaf(&mut self, leaf: isize) -> (new_node: usize)
        requires
            old(self).sized(),
            old(self).nodes.len() < isize::MAX,
            leaf < 0,
            -leaf < old(self).leafs.len(),
            old(self).leafs[-leaf].wf(),
            old(self).leafs[-leaf].parent < old(self).nodes.len(),
            old(self).nodes[old(self).leafs[-leaf].parent as int].has_child(leaf),
        ensures
            new_node == old(self).nodes.len(),
            final(self).root == old(self).root,
            final(self).leafs@ == old(self).leafs@.update(
                -leaf,
                Leaf { parent: new_node, ..old(self).leafs[-leaf] },
            ),
            final(self).nodes@ == old(self).nodes@.update(
                old(self).leafs[-leaf].parent as int,
                old(self).nodes[old(self).leafs[-leaf].parent as int].with_child(
                    leaf,
                    new_node as isize,
                ),
            ).push(
                Node {
                    parent: Some(old(self).leafs[-leaf].parent),
                    left: Some(leaf),
                    right: None,
                    nums: old(self).leafs[-leaf].nums as usize,
                    ones: count(old(self).leafs[-leaf].bits(), true) as usize,
                    rank: -1i8,
                },
            ),
    {
        let new_node_id = self.nodes.len();
        self.nodes.push(Node::new());
        self.insert_intermediary_node(leaf, new_node_id);
        proof {
            let p = old(self).leafs[-leaf].parent as int;
            let np = old(self).nodes[p].with_child(leaf, new_node_id as isize);
            let nn = Node {
                parent: Some(old(self).leafs[-leaf].parent),
                left: Some(leaf),
                right: None,
                nums: old(self).leafs[-leaf].nums as usize,
                ones: count(old(self).leafs[-leaf].bits(), true) as usize,
                rank: -1i8,
            };
            assert(self.nodes@ =~= old(self).nodes@.update(p, np).push(nn));
        }
        new_node_id
    }

    /// Makes the leaf that is the right child of `node` its left child, and leaves it
    /// without a right child: the counters of `node` become those of the leaf, and its
    /// rank goes down by two.
    pub(crate) fn move_right_child_left(&mut self, node: usize)
        requires
            old(self).sized(),
            node < old(self).nodes.len(),
            old(self).nodes[node as int].right is Some,
            old(self).nodes[node as int].right.unwrap() < 0,
            -old(self).nodes[node as int].right.unwrap() < old(self).leafs.len(),
            old(self).leafs[-old(self).nodes[node as int].right.unwrap()].wf(),
            old(self).nodes[node as int].rank >= -126,
        ensures
            final(self).root == old(self).root,
            final(self).leafs@ == old(self).leafs@,
            final(self).nodes@ == old(self).nodes@.update(
                node as int,
                Node {
                    left: old(self).nodes[node as int].right,
                    right: None,
                    nums: old(self).leafs[-old(self).nodes[node as int].right.unwrap()].nums as usize,
                    ones: count(
                        old(self).leafs[-old(self).nodes[node as int].right.unwrap()].bits(),
                        true,
                    ) as usize,
                    rank: (old(self).nodes[node as int].rank - 2) as i8,
                    ..old(self).nodes[node as int]
                },
            ),
    {
        let mut n = self.nodes[node];
        let left_id = n.right.unwrap();
        n.left = n.right;
        n.right = None;
        let l = &self.leafs[(-left_id) as usize];
        n.nums = l.nums();
        n.ones = l.ones();
        n.rank = n.rank - 2;
        self.nodes[node] = n;
    }
}

/// A leaf that changed its bits and nothing else is laid out where it was.
pub proof fn lemma_leaf_changed(a: &DynamicBitVector, f: &DynamicBitVector, l: int, p: usize)
    requires
        a.sized(),
        a.linked(Shape::Leaf { id: l }, Some(p)),
        parent_outside(a, Shape::Leaf { id: l }, Some(p)),
        f.root == a.root,
        f.nodes@ == a.nodes@,
        f.leafs.len() == a.leafs.len(),
        forall|j: int| 0 <= j < a.leafs.len() && j != l ==> #[trigger] f.leafs[j] == a.leafs[j],
        f.leafs[l].parent == p,
        f.leafs[l].wf(),
    ensures
        a.grown(f, Shape::Leaf { id: l }, Shape::Leaf { id: l }, Some(p), false),
        f.bits_in(Shape::Leaf { id: l }) == f.leafs[l].bits(),
        a.bits_in(Shape::Leaf { id: l }) == a.leafs[l].bits(),
{
    let s = Shape::Leaf { id: l };
    lemma_child(a, s, Some(p));
    assert(s.leaf_ids().contains(l));
    assert(s.node_ids() =~= Set::<int>::empty());
}

/// A new node over the leaf whose place it took and a new leaf is laid out in that
/// place.
pub proof fn lemma_fresh_node(a: &DynamicBitVector, f: &DynamicBitVector, l: int, p: usize)
    requires
        a.sized(),
        a.has_room(),
        a.linked(Shape::Leaf { id: l }, Some(p)),
        parent_outside(a, Shape::Leaf { id: l }, Some(p)),
        f.root == a.root,
        f.nodes.len() == a.nodes.len() + 1,
        f.leafs.len() == a.leafs.len() + 1,
        forall|i: int| 0 <= i < a.nodes.len() && i != p ==> #[trigger] f.nodes[i] == a.nodes[i],
        forall|j: int| 0 <= j < a.leafs.len() && j != l ==> #[trigger] f.leafs[j] == a.leafs[j],
        f.nodes[p as int] == a.nodes[p as int].with_child(
            (-l) as isize,
            a.nodes.len() as isize,
        ),
        f.nodes[a.nodes.len() as int] == (Node {
            parent: Some(p),
            left: Some((-l) as isize),
            right: Some((-a.leafs.len()) as isize),
            nums: f.leafs[l].nums as usize,
            ones: count(f.leafs[l].bits(), true) as usize,
            rank: 0,
        }),
        f.leafs[l].parent == a.nodes.len(),
        f.leafs[l].wf(),
        f.leafs[a.leafs.len() as int].parent == a.nodes.len(),
        f.leafs[a.leafs.len() as int].wf(),
    ensures
        a.grown(
            f,
            Shape::Leaf { id: l },
            Shape::node(
                a.nodes.len() as int,
                Shape::Leaf { id: l },
                Shape::Leaf { id: a.leafs.len() as int },
            ),
            Some(p),
            true,
        ),
        f.bits_in(
            Shape::node(
                a.nodes.len() as int,
                Shape::Leaf { id: l },
                Shape::Leaf { id: a.leafs.len() as int },
            ),
        ) == f.leafs[l].bits() + f.leafs[a.leafs.len() as int].bits(),
        a.bits_in(Shape::Leaf { id: l }) == a.leafs[l].bits(),
{
    let s = Shape::Leaf { id: l };
    let k = a.leafs.len() as int;
    let n = a.nodes.len() as int;
    let sl = Shape::Leaf { id: l };
    let sk = Shape::Leaf { id: k };
    let s2 = Shape::node(n, sl, sk);
    lemma_child(a, s, Some(p));
    crate::bits::lemma_count_bound(f.leafs[l].bits(), true);
    assert(f.linked(sl, Some(n as usize)));
    assert(f.linked(sk, Some(n as usize)));
    assert(sl.height() == 1 && sk.height() == 1);
    assert(f.bits_in(sl) == f.leafs[l].bits());
    assert(f.bits_in(sk) == f.leafs[k].bits());
    assert(f.bits_in(s2) == f.bits_in(sl) + f.bits_in(sk));
    assert(f.linked(s2, Some(p)));
    assert(sl.leaf_ids() =~= Set::<int>::empty().insert(l));
    assert(sk.leaf_ids() =~= Set::<int>::empty().insert(k));
    assert(sl.node_ids() =~= Set::<int>::empty());
    assert(sk.node_ids() =~= Set::<int>::empty());
    assert(s2.node_ids() =~= Set::<int>::empty().insert(n));
    assert(s2.leaf_ids() =~= sl.leaf_ids().union(sk.leaf_ids()));
    assert(sl.proper() && sk.proper() && sl.balanced() && sk.balanced() && sl.distinct()
        && sk.distinct());
    assert(s2.distinct());
    assert(s2.balanced());
    assert(s2.proper());
    assert(s2.height() == 2);
    assert(s2.node_ids() =~= s.node_ids().union(
        Set::new(|i: int| a.nodes.len() <= i < f.nodes.len()),
    ));
    assert(s2.leaf_ids() =~= s.leaf_ids().union(
        Set::new(|i: int| a.leafs.len() <= i < f.leafs.len()),
    ));
    assert(a.same_outside(f, s, Some(p)));
    assert(a.regrafted(f, s, s2, Some(p)));
    assert(parent_outside(f, s2, Some(p)));
}

} // verus!
