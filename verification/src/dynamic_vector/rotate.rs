use vstd::prelude::*;
use crate::bits::lemma_count_concat;
use crate::dynamic_vector::model::{
    lemma_child, lemma_frame, lemma_ids_in_range, lemma_reparent, parent_outside,
};
use crate::dynamic_vector::shape::{max, min, Shape};
use crate::dynamic_vector::DynamicBitVector;
use crate::leaf::Leaf;
use crate::node::Node;

verus! {

impl DynamicBitVector {
    /// `child` names a node or a leaf that exists.
    pub open spec fn names_entry(&self, child: isize) -> bool {
        if child >= 0 {
            child < self.nodes.len()
        } else {
            1 <= -child < self.leafs.len()
        }
    }

    /// The arenas of `new` are those of this vector but for the parent field of the node
    /// or leaf named by `child`, which is `parent`.
    pub open spec fn reparents(&self, new: &DynamicBitVector, child: isize, parent: usize) -> bool {
        &&& new.root == self.root
        &&& if child >= 0 {
            &&& new.leafs@ == self.leafs@
            &&& new.nodes@ == self.nodes@.update(
                child as int,
                Node { parent: Some(parent), ..self.nodes[child as int] },
            )
        } else {
            &&& new.nodes@ == self.nodes@
            &&& new.leafs@ == self.leafs@.update(
                -child,
                Leaf { parent: parent, ..self.leafs[-child] },
            )
        }
    }

    /// Makes `parent` the parent of the node or leaf named by `child`.
    pub fn set_parent(&mut self, child: isize, parent: usize)
        requires
            old(self).sized(),
            old(self).names_entry(child),
        ensures
            old(self).reparents(final(self), child, parent),
    {
        if child >= 0 {
            let mut n = self.nodes[child as usize];
            n.parent = Some(parent);
            self.nodes[child as usize] = n;
        } else {
            let mut l = self.leafs[(-child) as usize];
            l.parent = parent;
            self.leafs[(-child) as usize] = l;
        }
    }

    /// What a left rotation needs: `x` and `z` are different nodes, `z` has a left child,
    /// the parent of `x`, if any, has `x` as a child, the four of them are different
    /// entries, and the counters of `x` and `z` can be added. The rotation is meant for
    /// a `z` that is the right child of `x`; what `x` holds as its right child is
    /// overwritten whatever it was.
    pub open spec fn can_rotate_left(&self, z: usize, x: usize) -> bool {
        &&& self.sized()
        &&& x < self.nodes.len()
        &&& z < self.nodes.len()
        &&& x != z
        &&& self.nodes[z as int].left is Some
        &&& self.can_rotate(z, x, self.nodes[z as int].left.unwrap())
        &&& self.nodes[z as int].nums + self.nodes[x as int].nums <= usize::MAX
        &&& self.nodes[z as int].ones + self.nodes[x as int].ones <= usize::MAX
    }

    /// What a right rotation needs: `x` and `z` are different nodes, `z` has a right
    /// child, the parent of `x`, if any, has `x` as a child, the four of them are
    /// different entries, and the counters of `z` can be taken from those of `x`. The
    /// rotation is meant for a `z` that is the left child of `x`; what `x` holds as its
    /// left child is overwritten whatever it was.
    pub open spec fn can_rotate_right(&self, z: usize, x: usize) -> bool {
        &&& self.sized()
        &&& x < self.nodes.len()
        &&& z < self.nodes.len()
        &&& x != z
        &&& self.nodes[z as int].right is Some
        &&& self.can_rotate(z, x, self.nodes[z as int].right.unwrap())
        &&& self.nodes[z as int].nums <= self.nodes[x as int].nums
        &&& self.nodes[z as int].ones <= self.nodes[x as int].ones
    }

    /// What both rotations need of the subtree `moved` that changes its parent, of the
    /// parent of `x` and of the two ranks.
    pub open spec fn can_rotate(&self, z: usize, x: usize, moved: isize) -> bool {
        &&& self.names_entry(moved)
        &&& moved != x
        &&& moved != z
        &&& -2 <= self.nodes[x as int].rank <= 2
        &&& -2 <= self.nodes[z as int].rank <= 2
        &&& match self.nodes[x as int].parent {
            Some(p) => {
                &&& p < self.nodes.len()
                &&& p != x
                &&& p != z
                &&& p != moved
                &&& self.nodes[p as int].has_child(x as isize)
            },
            None => true,
        }
    }

    /// The nodes after a rotation that puts `z` in the place of `x`: the parent of `x`
    /// names `z`, `x` and `z` have their new fields, and the subtree that moved has `x`
    /// as its parent.
    pub open spec fn rotation_nodes(&self, z: usize, x: usize, moved: isize, x2: Node, z2: Node) -> Seq<
        Node,
    > {
        let n0 = self.nodes@;
        let n1 = match self.nodes[x as int].parent {
            Some(p) => n0.update(p as int, n0[p as int].with_child(x as isize, z as isize)),
            None => n0,
        };
        let n2 = n1.update(x as int, x2).update(z as int, z2);
        if moved >= 0 {
            n2.update(moved as int, Node { parent: Some(x), ..n0[moved as int] })
        } else {
            n2
        }
    }

    /// The leaves after a rotation in which the subtree `moved` got `x` as its parent.
    pub open spec fn rotation_leafs(&self, x: usize, moved: isize) -> Seq<Leaf> {
        if moved >= 0 {
            self.leafs@
        } else {
            self.leafs@.update(-moved, Leaf { parent: x, ..self.leafs[-moved] })
        }
    }

    /// The root after a rotation that puts `z` in the place of `x`.
    pub open spec fn rotation_root(&self, z: usize, x: usize) -> usize {
        if self.nodes[x as int].parent is None {
            z
        } else {
            self.root
        }
    }

    /// `new` is this vector after the left rotation of `x` with its right child `z`.
    pub open spec fn rotates_left(&self, new: &DynamicBitVector, z: usize, x: usize) -> bool {
        let nx = self.nodes[x as int];
        let nz = self.nodes[z as int];
        let moved = nz.left.unwrap();
        let xr = nx.rank - 1 - max(nz.rank as int, 0);
        let zr = nz.rank - 1 + min(xr, 0);
        let x2 = Node { parent: Some(z), right: Some(moved), rank: xr as i8, ..nx };
        let z2 = Node {
            parent: nx.parent,
            left: Some(x as isize),
            nums: (nz.nums + nx.nums) as usize,
            ones: (nz.ones + nx.ones) as usize,
            rank: zr as i8,
            ..nz
        };
        &&& new.root == self.rotation_root(z, x)
        &&& new.nodes@ == self.rotation_nodes(z, x, moved, x2, z2)
        &&& new.leafs@ == self.rotation_leafs(x, moved)
    }

    /// `new` is this vector after the right rotation of `x` with its left child `z`.
    pub open spec fn rotates_right(&self, new: &DynamicBitVector, z: usize, x: usize) -> bool {
        let nx = self.nodes[x as int];
        let nz = self.nodes[z as int];
        let moved = nz.right.unwrap();
        let xr = nx.rank + 1 - min(nz.rank as int, 0);
        let zr = nz.rank + 1 + max(xr, 0);
        let x2 = Node {
            parent: Some(z),
            left: Some(moved),
            nums: (nx.nums - nz.nums) as usize,
            ones: (nx.ones - nz.ones) as usize,
            rank: xr as i8,
            ..nx
        };
        let z2 = Node { parent: nx.parent, right: Some(x as isize), rank: zr as i8, ..nz };
        &&& new.root == self.rotation_root(z, x)
        &&& new.nodes@ == self.rotation_nodes(z, x, moved, x2, z2)
        &&& new.leafs@ == self.rotation_leafs(x, moved)
    }

    /// Puts `z` in the place of `x`, gives `x` and `z` the fields `x2` and `z2`, and makes
    /// `x` the parent of the subtree `moved`.
    fn rotate_with(&mut self, z: usize, x: usize, moved: isize, x2: Node, z2: Node)
        requires
            old(self).sized(),
            x < old(self).nodes.len(),
            z < old(self).nodes.len(),
            x != z,
            old(self).can_rotate(z, x, moved),
        ensures
            final(self).root == old(self).rotation_root(z, x),
            final(self).nodes@ == old(self).rotation_nodes(z, x, moved, x2, z2),
            final(self).leafs@ == old(self).rotation_leafs(x, moved),
    {
        match self.nodes[x].parent {
            Some(p) => {
                let mut np = self.nodes[p];
                np.replace_child_with(x as isize, z as isize);
                self.nodes[p] = np;
            },
            None => {
                self.root = z;
            },
        }
        self.nodes[x] = x2;
        self.nodes[z] = z2;
        self.set_parent(moved, x);
    }

    /// Left rotation: `z`, the right child of `x`, takes the place of `x`; `x` becomes
    /// the left child of `z` and takes over the former left child of `z` as its right
    /// child. The parent of `x`, or the root, then names `z`. The counters of `z` grow by
    /// those of `x`, and both ranks are set to what the new heights give.
    pub fn rotate_left(&mut self, z: usize, x: usize)
        requires
            old(self).can_rotate_left(z, x),
        ensures
            old(self).rotates_left(final(self), z, x),
    {
        let nx = self.nodes[x];
        let nz = self.nodes[z];
        let moved = nz.left.unwrap();
        let xr: i8 = nx.rank - 1 - (if nz.rank > 0 {
            nz.rank
        } else {
            0
        });
        let zr: i8 = nz.rank - 1 + (if xr < 0 {
            xr
        } else {
            0
        });
        let x2 = Node {
            parent: Some(z),
            left: nx.left,
            right: Some(moved),
            nums: nx.nums,
            ones: nx.ones,
            rank: xr,
        };
        let z2 = Node {
            parent: nx.parent,
            left: Some(x as isize),
            right: nz.right,
            nums: nz.nums + nx.nums,
            ones: nz.ones + nx.ones,
            rank: zr,
        };
        self.rotate_with(z, x, moved, x2, z2);
    }

    /// Right rotation: `z`, the left child of `x`, takes the place of `x`; `x` becomes
    /// the right child of `z` and takes over the former right child of `z` as its left
    /// child. The parent of `x`, or the root, then names `z`. The counters of `x` shrink
    /// by those of `z`, and both ranks are set to what the new heights give.
    pub fn rotate_right(&mut self, z: usize, x: usize)
        requires
            old(self).can_rotate_right(z, x),
        ensures
            old(self).rotates_right(final(self), z, x),
    {
        let nx = self.nodes[x];
        let nz = self.nodes[z];
        let moved = nz.right.unwrap();
        let xr: i8 = nx.rank + 1 - (if nz.rank < 0 {
            nz.rank
        } else {
            0
        });
        let zr: i8 = nz.rank + 1 + (if xr > 0 {
            xr
        } else {
            0
        });
        let x2 = Node {
            parent: Some(z),
            left: Some(moved),
            right: nx.right,
            nums: nx.nums - nz.nums,
            ones: nx.ones - nz.ones,
            rank: xr,
        };
        let z2 = Node {
            parent: nx.parent,
            left: nz.left,
            right: Some(x as isize),
            nums: nz.nums,
            ones: nz.ones,
            rank: zr,
        };
        self.rotate_with(z, x, moved, x2, z2);
    }
}

/// A left rotation lays out the rotated tree: it keeps every node and leaf, the order of
/// the bits, and the parent of the subtree.
#[verifier::rlimit(40)]
pub proof fn lemma_rotate_left(
    a: &DynamicBitVector,
    b: &DynamicBitVector,
    s: Shape,
    parent: Option<usize>,
)
    requires
        a.sized(),
        a.linked(s, parent),
        s.distinct(),
        s is Node,
        s.rhs() is Node,
        !(s.rhs().lhs() is Nil),
        parent_outside(a, s, parent),
        a.can_rotate_left(s.rhs().idx() as usize, s.idx() as usize),
        a.rotates_left(b, s.rhs().idx() as usize, s.idx() as usize),
    ensures
        b.linked(s.rotated_left(), parent),
        s.rotated_left().distinct(),
        b.bits_in(s.rotated_left()) == a.bits_in(s),
        s.rotated_left().node_ids() == s.node_ids(),
        s.rotated_left().leaf_ids() == s.leaf_ids(),
        b.sized(),
        b.nodes.len() == a.nodes.len(),
        b.leafs.len() == a.leafs.len(),
        a.same_outside(b, s, parent),
        a.regrafted(b, s, s.rotated_left(), parent),
        a.same_contents(b),
{
    let x = s.idx();
    let t1 = s.lhs();
    let sz = s.rhs();
    let z = sz.idx();
    let t23 = sz.lhs();
    let t4 = sz.rhs();
    let xu = x as usize;
    let zu = z as usize;
    lemma_child(a, s, parent);
    lemma_child(a, sz, Some(xu));
    lemma_child(a, t1, Some(xu));
    lemma_child(a, t23, Some(zu));
    lemma_child(a, t4, Some(zu));
    lemma_ids_in_range(a, t1, Some(xu));
    lemma_ids_in_range(a, t23, Some(zu));
    lemma_ids_in_range(a, t4, Some(zu));
    let moved = t23.child_ref().unwrap();
    assert(sz.node_ids().contains(z));
    assert(s.node_ids().contains(x));
    assert(forall|i: int| t23.node_ids().contains(i) ==> sz.node_ids().contains(i));
    assert(forall|i: int| t4.node_ids().contains(i) ==> sz.node_ids().contains(i));
    assert(forall|i: int| sz.node_ids().contains(i) ==> s.node_ids().contains(i));
    assert(forall|i: int| t1.node_ids().contains(i) ==> s.node_ids().contains(i));
    assert(forall|i: int| t23.leaf_ids().contains(i) ==> sz.leaf_ids().contains(i));
    assert(forall|i: int| t4.leaf_ids().contains(i) ==> sz.leaf_ids().contains(i));
    if t23 is Node {
        assert(t23.node_ids().contains(moved as int));
    } else {
        assert(t23.leaf_ids().contains(-moved));
    }
    assert(sz.distinct());
    assert(t23.distinct());
    assert(a.agrees(b, t1));
    assert(a.agrees(b, t4)) by {
        assert forall|i: int| #[trigger] t4.node_ids().contains(i) implies !t23.node_ids().contains(
            i,
        ) && i != z && i != x by {
            assert(sz.node_ids().contains(i));
        }
        assert forall|i: int| #[trigger] t4.leaf_ids().contains(i) implies !t23.leaf_ids().contains(
            i,
        ) by {}
    }
    lemma_frame(a, b, t1, Some(xu));
    lemma_frame(a, b, t4, Some(zu));
    if t23 is Node {
        let l = t23.lhs();
        let r = t23.rhs();
        assert(forall|i: int| l.node_ids().contains(i) ==> t23.node_ids().contains(i));
        assert(forall|i: int| r.node_ids().contains(i) ==> t23.node_ids().contains(i));
        assert(forall|i: int| l.leaf_ids().contains(i) ==> t23.leaf_ids().contains(i));
        assert(forall|i: int| r.leaf_ids().contains(i) ==> t23.leaf_ids().contains(i));
        assert forall|i: int| #[trigger] l.node_ids().contains(i) implies i != moved && i != z
            && i != x by {
            assert(t23.node_ids().contains(i));
            assert(sz.node_ids().contains(i));
        }
        assert forall|i: int| #[trigger] r.node_ids().contains(i) implies i != moved && i != z
            && i != x by {
            assert(t23.node_ids().contains(i));
            assert(sz.node_ids().contains(i));
        }
        assert(a.agrees(b, l));
        assert(a.agrees(b, r));
    }
    lemma_reparent(a, b, t23, Some(zu), Some(xu));
    let nx = Shape::node(x, t1, t23);
    let ns = s.rotated_left();
    assert(ns == Shape::node(z, nx, t4));
    lemma_count_concat(a.bits_in(t1), a.bits_in(t23), true);
    assert(b.bits_in(nx) == a.bits_in(t1) + a.bits_in(t23));
    assert(b.linked(nx, Some(zu)));
    assert(b.bits_in(ns) =~= a.bits_in(s));
    assert(b.linked(ns, parent));
    assert(nx.node_ids() =~= t1.node_ids().union(t23.node_ids()).insert(x));
    assert(ns.node_ids() =~= s.node_ids());
    assert(nx.leaf_ids() =~= nx.lhs().leaf_ids().union(nx.rhs().leaf_ids()));
    assert(sz.leaf_ids() =~= sz.lhs().leaf_ids().union(sz.rhs().leaf_ids()));
    assert(ns.leaf_ids() =~= ns.lhs().leaf_ids().union(ns.rhs().leaf_ids()));
    assert(s.leaf_ids() =~= s.lhs().leaf_ids().union(s.rhs().leaf_ids()));
    assert(ns.leaf_ids() =~= s.leaf_ids());
    assert(nx.distinct());
    assert(ns.distinct());
}

/// A right rotation lays out the rotated tree: it keeps every node and leaf, the order
/// of the bits, and the parent of the subtree.
#[verifier::rlimit(40)]
pub proof fn lemma_rotate_right(
    a: &DynamicBitVector,
    b: &DynamicBitVector,
    s: Shape,
    parent: Option<usize>,
)
    requires
        a.sized(),
        a.linked(s, parent),
        s.distinct(),
        s is Node,
        s.lhs() is Node,
        !(s.lhs().rhs() is Nil),
        parent_outside(a, s, parent),
        a.can_rotate_right(s.lhs().idx() as usize, s.idx() as usize),
        a.rotates_right(b, s.lhs().idx() as usize, s.idx() as usize),
    ensures
        b.linked(s.rotated_right(), parent),
        s.rotated_right().distinct(),
        b.bits_in(s.rotated_right()) == a.bits_in(s),
        s.rotated_right().node_ids() == s.node_ids(),
        s.rotated_right().leaf_ids() == s.leaf_ids(),
        b.sized(),
        b.nodes.len() == a.nodes.len(),
        b.leafs.len() == a.leafs.len(),
        a.same_outside(b, s, parent),
        a.regrafted(b, s, s.rotated_right(), parent),
        a.same_contents(b),
{
    let x = s.idx();
    let t4 = s.rhs();
    let sz = s.lhs();
    let z = sz.idx();
    let t1 = sz.lhs();
    let t23 = sz.rhs();
    let xu = x as usize;
    let zu = z as usize;
    lemma_child(a, s, parent);
    lemma_child(a, sz, Some(xu));
    lemma_child(a, t4, Some(xu));
    lemma_child(a, t23, Some(zu));
    lemma_child(a, t1, Some(zu));
    lemma_ids_in_range(a, t1, Some(zu));
    lemma_ids_in_range(a, t23, Some(zu));
    lemma_ids_in_range(a, t4, Some(xu));
    let moved = t23.child_ref().unwrap();
    assert(sz.node_ids().contains(z));
    assert(s.node_ids().contains(x));
    assert(forall|i: int| t23.node_ids().contains(i) ==> sz.node_ids().contains(i));
    assert(forall|i: int| t1.node_ids().contains(i) ==> sz.node_ids().contains(i));
    assert(forall|i: int| sz.node_ids().contains(i) ==> s.node_ids().contains(i));
    assert(forall|i: int| t4.node_ids().contains(i) ==> s.node_ids().contains(i));
    assert(forall|i: int| t23.leaf_ids().contains(i) ==> sz.leaf_ids().contains(i));
    assert(forall|i: int| t1.leaf_ids().contains(i) ==> sz.leaf_ids().contains(i));
    if t23 is Node {
        assert(t23.node_ids().contains(moved as int));
    } else {
        assert(t23.leaf_ids().contains(-moved));
    }
    assert(sz.distinct());
    assert(t23.distinct());
    assert(a.agrees(b, t4));
    assert(a.agrees(b, t1)) by {
        assert forall|i: int| #[trigger] t1.node_ids().contains(i) implies !t23.node_ids().contains(
            i,
        ) && i != z && i != x by {
            assert(sz.node_ids().contains(i));
        }
        assert forall|i: int| #[trigger] t1.leaf_ids().contains(i) implies !t23.leaf_ids().contains(
            i,
        ) by {}
    }
    lemma_frame(a, b, t1, Some(zu));
    lemma_frame(a, b, t4, Some(xu));
    if t23 is Node {
        let l = t23.lhs();
        let r = t23.rhs();
        assert(forall|i: int| l.node_ids().contains(i) ==> t23.node_ids().contains(i));
        assert(forall|i: int| r.node_ids().contains(i) ==> t23.node_ids().contains(i));
        assert(forall|i: int| l.leaf_ids().contains(i) ==> t23.leaf_ids().contains(i));
        assert(forall|i: int| r.leaf_ids().contains(i) ==> t23.leaf_ids().contains(i));
        assert forall|i: int| #[trigger] l.node_ids().contains(i) implies i != moved && i != z
            && i != x by {
            assert(t23.node_ids().contains(i));
            assert(sz.node_ids().contains(i));
        }
        assert forall|i: int| #[trigger] r.node_ids().contains(i) implies i != moved && i != z
            && i != x by {
            assert(t23.node_ids().contains(i));
            assert(sz.node_ids().contains(i));
        }
        assert(a.agrees(b, l));
        assert(a.agrees(b, r));
    }
    lemma_reparent(a, b, t23, Some(zu), Some(xu));
    let nx = Shape::node(x, t23, t4);
    let ns = s.rotated_right();
    assert(ns == Shape::node(z, t1, nx));
    lemma_count_concat(a.bits_in(t1), a.bits_in(t23), true);
    assert(a.bits_in(sz) == a.bits_in(t1) + a.bits_in(t23));
    assert(b.bits_in(nx) == a.bits_in(t23) + a.bits_in(t4));
    assert(b.linked(nx, Some(zu)));
    assert(b.bits_in(ns) =~= a.bits_in(s));
    assert(b.linked(ns, parent));
    assert(nx.node_ids() =~= t23.node_ids().union(t4.node_ids()).insert(x));
    assert(ns.node_ids() =~= s.node_ids());
    assert(nx.leaf_ids() =~= nx.lhs().leaf_ids().union(nx.rhs().leaf_ids()));
    assert(sz.leaf_ids() =~= sz.lhs().leaf_ids().union(sz.rhs().leaf_ids()));
    assert(ns.leaf_ids() =~= ns.lhs().leaf_ids().union(ns.rhs().leaf_ids()));
    assert(s.leaf_ids() =~= s.lhs().leaf_ids().union(s.rhs().leaf_ids()));
    assert(ns.leaf_ids() =~= s.leaf_ids());
    assert(nx.distinct());
    assert(ns.distinct());
}

/// A laid-out tree whose right child has a left child can be rotated to the left.
pub proof fn lemma_can_rotate_left(a: &DynamicBitVector, s: Shape, parent: Option<usize>)
    requires
        a.sized(),
        a.linked(s, parent),
        s.distinct(),
        s is Node,
        s.rhs() is Node,
        !(s.rhs().lhs() is Nil),
        parent_outside(a, s, parent),
        -2 <= s.rhs().height() - s.lhs().height() <= 2,
        -2 <= s.rhs().rhs().height() - s.rhs().lhs().height() <= 2,
        a.bits_in(s).len() <= usize::MAX,
    ensures
        a.can_rotate_left(s.rhs().idx() as usize, s.idx() as usize),
{
    let sz = s.rhs();
    let t23 = sz.lhs();
    lemma_child(a, s, parent);
    lemma_child(a, sz, Some(s.idx() as usize));
    lemma_child(a, s.lhs(), Some(s.idx() as usize));
    lemma_child(a, t23, Some(sz.idx() as usize));
    assert(sz.distinct());
    assert(s.node_ids().contains(s.idx()));
    assert(sz.node_ids().contains(sz.idx()));
    assert(forall|i: int| sz.node_ids().contains(i) ==> s.node_ids().contains(i));
    assert(forall|i: int| t23.node_ids().contains(i) ==> sz.node_ids().contains(i));
    if t23 is Node {
        assert(t23.node_ids().contains(t23.idx()));
    }
    crate::bits::lemma_count_bound(a.bits_in(s.lhs()), true);
    crate::bits::lemma_count_bound(a.bits_in(t23), true);
}

/// A laid-out tree whose left child has a right child can be rotated to the right.
pub proof fn lemma_can_rotate_right(a: &DynamicBitVector, s: Shape, parent: Option<usize>)
    requires
        a.sized(),
        a.linked(s, parent),
        s.distinct(),
        s is Node,
        s.lhs() is Node,
        !(s.lhs().rhs() is Nil),
        parent_outside(a, s, parent),
        -2 <= s.rhs().height() - s.lhs().height() <= 2,
        -2 <= s.lhs().rhs().height() - s.lhs().lhs().height() <= 2,
    ensures
        a.can_rotate_right(s.lhs().idx() as usize, s.idx() as usize),
{
    let sz = s.lhs();
    let t23 = sz.rhs();
    lemma_child(a, s, parent);
    lemma_child(a, sz, Some(s.idx() as usize));
    lemma_child(a, sz.lhs(), Some(sz.idx() as usize));
    lemma_child(a, t23, Some(sz.idx() as usize));
    assert(sz.distinct());
    assert(s.node_ids().contains(s.idx()));
    assert(sz.node_ids().contains(sz.idx()));
    assert(forall|i: int| sz.node_ids().contains(i) ==> s.node_ids().contains(i));
    assert(forall|i: int| t23.node_ids().contains(i) ==> sz.node_ids().contains(i));
    if t23 is Node {
        assert(t23.node_ids().contains(t23.idx()));
    }
    lemma_count_concat(a.bits_in(sz.lhs()), a.bits_in(t23), true);
}

} // verus!
