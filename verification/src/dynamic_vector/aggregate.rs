use vstd::prelude::*;
use crate::bits::{count, lemma_count_bound};
use crate::dynamic_vector::frame::{
    lemma_framed_child, lemma_framed_children_differ, lemma_framed_range, lemma_linked_framed,
};
use crate::dynamic_vector::model::{lemma_child, lemma_frame, lemma_ids_in_range};
use crate::dynamic_vector::path::lemma_path;
use crate::dynamic_vector::shape::Shape;
use crate::dynamic_vector::DynamicBitVector;

verus! {

/// Where the walk from the node or leaf named by `t` towards the root of `s` ends that
/// goes on for as long as it comes from a left child: the name of the first subtree on
/// the way that is no left child, or of `s` itself.
pub open spec fn chain_top(s: Shape, t: isize) -> isize
    decreases s,
{
    match s {
        Shape::Node { id, left, right } => {
            if s.child_ref() == Some(t) {
                t
            } else if left.holds_ref(t) {
                if Some(chain_top(*left, t)) == left.child_ref() {
                    id as isize
                } else {
                    chain_top(*left, t)
                }
            } else {
                chain_top(*right, t)
            }
        },
        _ => t,
    }
}

/// The nodes of `s` whose counters the walk upwards from the node or leaf named by `t`
/// writes: the nodes above `t` up to the first one that the walk reaches from its right
/// child, that one left out.
pub open spec fn recounted(s: Shape, t: isize) -> Set<int>
    decreases s,
{
    match s {
        Shape::Node { id, left, right } => {
            if s.child_ref() == Some(t) {
                Set::empty()
            } else if left.holds_ref(t) {
                if Some(chain_top(*left, t)) == left.child_ref() {
                    recounted(*left, t).insert(id)
                } else {
                    recounted(*left, t)
                }
            } else {
                recounted(*right, t)
            }
        },
        _ => Set::empty(),
    }
}

impl DynamicBitVector {
    /// `new` has every node of this vector as it is but for the nodes in `but`.
    pub open spec fn same_nodes_but(&self, new: &DynamicBitVector, but: Set<int>) -> bool {
        &&& new.nodes.len() == self.nodes.len()
        &&& forall|i: int|
            0 <= i < self.nodes.len() && !but.contains(i) ==> #[trigger] new.nodes[i]
                == self.nodes[i]
    }

    /// The arenas lay out the tree `s` under `gp`, but for the counters of the nodes
    /// that have the subtree named by `t` under their left child: those may hold
    /// anything.
    #[verifier::opaque]
    pub open spec fn stale_counts(&self, s: Shape, gp: Option<usize>, t: isize) -> bool
        decreases s,
    {
        if s.child_ref() == Some(t) {
            self.linked(s, gp)
        } else {
            match s {
                Shape::Node { id, left, right } => {
                    &&& left.holds_ref(t) || right.holds_ref(t)
                    &&& 0 <= id < self.nodes.len()
                    &&& self.nodes[id].parent == gp
                    &&& self.nodes[id].left == left.child_ref()
                    &&& self.nodes[id].right == right.child_ref()
                    &&& self.nodes[id].rank == right.height() - left.height()
                    &&& if left.holds_ref(t) {
                        &&& self.stale_counts(*left, Some(id as usize), t)
                        &&& self.linked(*right, Some(id as usize))
                    } else {
                        &&& self.linked(*left, Some(id as usize))
                        &&& self.stale_counts(*right, Some(id as usize), t)
                        &&& self.nodes[id].nums == self.bits_in(*left).len()
                        &&& self.nodes[id].ones == count(self.bits_in(*left), true)
                    }
                },
                _ => false,
            }
        }
    }

    /// `new` has the nodes and leaves of this vector; only counters of nodes of the
    /// tree `s` may differ.
    pub open spec fn same_but_counts(&self, new: &DynamicBitVector, s: Shape) -> bool {
        &&& new.root == self.root
        &&& new.leafs@ == self.leafs@
        &&& new.nodes.len() == self.nodes.len()
        &&& forall|i: int|
            0 <= i < self.nodes.len() ==> (#[trigger] new.nodes[i]).parent == self.nodes[i].parent
                && new.nodes[i].left == self.nodes[i].left && new.nodes[i].right
                == self.nodes[i].right && new.nodes[i].rank == self.nodes[i].rank
        &&& forall|i: int|
            0 <= i < self.nodes.len() && !s.node_ids().contains(i) ==> #[trigger] new.nodes[i]
                == self.nodes[i]
    }
}

/// A tree with stale counters is held, and holds the subtree named by `t`; where `t`
/// names the tree itself, the tree is laid out.
pub proof fn lemma_stale_counts_framed(a: &DynamicBitVector, s: Shape, gp: Option<usize>, t: isize)
    requires
        a.stale_counts(s, gp, t),
        a.sized(),
    ensures
        a.framed(s, gp),
        s.holds_ref(t),
        s.child_ref() == Some(t) <==> a.linked(s, gp) && s.child_ref() == Some(t),
        s.child_ref() == Some(t) ==> chain_top(s, t) == t,
    decreases s,
{
    reveal(DynamicBitVector::stale_counts);
    if s.child_ref() == Some(t) {
        lemma_linked_framed(a, s, gp);
        lemma_child(a, s, gp);
        if s is Node {
            assert(s.node_ids().contains(s.idx()));
        } else if s is Leaf {
            assert(s.leaf_ids().contains(s.idx()));
        }
    } else {
        match s {
            Shape::Node { id, left, right } => {
                if left.holds_ref(t) {
                    lemma_stale_counts_framed(a, *left, Some(id as usize), t);
                    lemma_linked_framed(a, *right, Some(id as usize));
                } else {
                    lemma_stale_counts_framed(a, *right, Some(id as usize), t);
                    lemma_linked_framed(a, *left, Some(id as usize));
                }
            },
            _ => {},
        }
    }
}

/// Stale counters of a tree stay what they are where nothing changes but entries
/// outside the tree.
pub proof fn lemma_stale_counts_frame(
    a: &DynamicBitVector,
    b: &DynamicBitVector,
    s: Shape,
    gp: Option<usize>,
    t: isize,
)
    requires
        a.sized(),
        a.stale_counts(s, gp, t),
        a.agrees(b, s),
    ensures
        b.stale_counts(s, gp, t),
        b.bits_in(s) == a.bits_in(s),
    decreases s,
{
    reveal(DynamicBitVector::stale_counts);
    lemma_stale_counts_framed(a, s, gp, t);
    if s.child_ref() == Some(t) {
        lemma_frame(a, b, s, gp);
    } else {
        match s {
            Shape::Node { id, left, right } => {
                assert(s.node_ids().contains(id));
                assert forall|i: int| #[trigger] left.node_ids().contains(i) implies s.node_ids().contains(
                    i,
                ) by {}
                assert forall|i: int| #[trigger] right.node_ids().contains(i) implies s.node_ids().contains(
                    i,
                ) by {}
                assert forall|i: int| #[trigger] left.leaf_ids().contains(i) implies s.leaf_ids().contains(
                    i,
                ) by {}
                assert forall|i: int| #[trigger] right.leaf_ids().contains(i) implies s.leaf_ids().contains(
                    i,
                ) by {}
                if left.holds_ref(t) {
                    lemma_stale_counts_frame(a, b, *left, Some(id as usize), t);
                    lemma_frame(a, b, *right, Some(id as usize));
                } else {
                    lemma_stale_counts_frame(a, b, *right, Some(id as usize), t);
                    lemma_frame(a, b, *left, Some(id as usize));
                }
            },
            _ => {},
        }
    }
}

/// What stale counters say of the node at the root of a tree that holds the subtree
/// named by `t` below its root.
pub proof fn lemma_counts_level(a: &DynamicBitVector, s: Shape, gp: Option<usize>, t: isize)
    requires
        a.sized(),
        a.stale_counts(s, gp, t),
        s.child_ref() != Some(t),
        s.distinct(),
    ensures
        s is Node,
        0 <= s.idx() < a.nodes.len(),
        s.toward(t).holds_ref(t),
        s.toward(t).distinct(),
        s.toward(t).child_ref() is Some,
        a.stale_counts(s.toward(t), Some(s.idx() as usize), t),
        (a.nodes[s.idx()].left == s.toward(t).child_ref()) == s.lhs().holds_ref(t),
        a.bits_in(s.toward(t)).len() <= a.bits_in(s).len(),
        s.path_to(t).len() > 0,
        s.path_to(t).last() == s.idx(),
        s.path_to(t).drop_last() == s.toward(t).path_to(t),
        s.toward(t).path_to(t).len() == 0 <==> s.toward(t).child_ref() == Some(t),
        s.toward(t).path_to(t).len() > 0 ==> s.toward(t).path_to(t).last() == s.toward(t).idx(),
{
    reveal(DynamicBitVector::stale_counts);
    let c = s.toward(t);
    let xu = s.idx() as usize;
    lemma_stale_counts_framed(a, s, gp, t);
    lemma_path(a, s, gp, t);
    lemma_framed_child(a, s, gp);
    lemma_framed_child(a, c, Some(xu));
    lemma_framed_children_differ(a, s, gp);
    lemma_stale_counts_framed(a, c, Some(xu), t);
    lemma_path(a, c, Some(xu), t);
}

/// One step of the walk: where the subtree on the side of `t` has been dealt with
/// (`a` to `m`) and the node at the root of `s` has then been counted anew or left as
/// it was (`m` to `f`), the tree `s` has stale counters only above the place where the
/// walk ended.
#[verifier::rlimit(40)]
pub proof fn lemma_counts_step(
    a: &DynamicBitVector,
    m: &DynamicBitVector,
    f: &DynamicBitVector,
    s: Shape,
    gp: Option<usize>,
    t: isize,
    recount: bool,
)
    requires
        a.sized(),
        a.stale_counts(s, gp, t),
        s.child_ref() != Some(t),
        s.distinct(),
        a.same_but_counts(m, s.toward(t)),
        m.stale_counts(s.toward(t), Some(s.idx() as usize), chain_top(s.toward(t), t)),
        s.toward(t).holds_ref(chain_top(s.toward(t), t)),
        m.bits_in(s.toward(t)) == a.bits_in(s.toward(t)),
        recount == (s.lhs().holds_ref(t) && Some(chain_top(s.toward(t), t)) == s.toward(
            t,
        ).child_ref()),
        f.root == m.root,
        f.leafs@ == m.leafs@,
        f.nodes.len() == m.nodes.len(),
        forall|i: int|
            0 <= i < m.nodes.len() && i != s.idx() ==> #[trigger] f.nodes[i] == m.nodes[i],
        recount ==> f.nodes[s.idx()] == (crate::node::Node {
            nums: m.bits_in(s.toward(t)).len() as usize,
            ones: count(m.bits_in(s.toward(t)), true) as usize,
            ..m.nodes[s.idx()]
        }),
        !recount ==> f.nodes[s.idx()] == m.nodes[s.idx()],
        a.bits_in(s).len() <= usize::MAX,
        a.same_nodes_but(m, recounted(s.toward(t), t)),
    ensures
        f.stale_counts(s, gp, chain_top(s, t)),
        (Some(chain_top(s, t)) == s.child_ref()) == recount,
        recount ==> f.linked(s, gp),
        s.holds_ref(chain_top(s, t)),
        f.bits_in(s) == a.bits_in(s),
        a.same_but_counts(f, s),
        a.same_nodes_but(f, recounted(s, t)),
{
    reveal(DynamicBitVector::stale_counts);
    let c = s.toward(t);
    let o = if s.lhs().holds_ref(t) {
        s.rhs()
    } else {
        s.lhs()
    };
    let x = s.idx();
    let xu = x as usize;
    let top = chain_top(c, t);
    lemma_stale_counts_framed(a, s, gp, t);
    lemma_framed_child(a, s, gp);
    lemma_framed_range(a, s, gp);
    lemma_framed_children_differ(a, s, gp);
    lemma_child(a, o, Some(xu));
    lemma_ids_in_range(a, o, Some(xu));
    lemma_stale_counts_framed(a, c, Some(xu), t);
    lemma_stale_counts_framed(m, c, Some(xu), top);
    lemma_framed_range(m, c, Some(xu));
    lemma_framed_child(m, c, Some(xu));
    lemma_count_bound(m.bits_in(c), true);
    assert(s.node_ids().contains(x));
    assert(forall|i: int| c.node_ids().contains(i) ==> s.node_ids().contains(i));
    assert(forall|i: int| o.node_ids().contains(i) ==> s.node_ids().contains(i));
    assert(forall|i: int| c.leaf_ids().contains(i) ==> s.leaf_ids().contains(i));
    assert(forall|i: int| o.leaf_ids().contains(i) ==> s.leaf_ids().contains(i));
    assert(a.agrees(f, o)) by {
        assert forall|i: int| #[trigger] o.node_ids().contains(i) implies !c.node_ids().contains(i)
            && i != x by {}
    }
    lemma_frame(a, f, o, Some(xu));
    assert(m.agrees(f, c)) by {
        assert forall|i: int| #[trigger] c.node_ids().contains(i) implies i != x by {}
    }
    lemma_stale_counts_frame(m, f, c, Some(xu), top);
    lemma_holds_one_side(s, top);
    assert(m.nodes[x] == a.nodes[x]);
    if Some(top) == c.child_ref() {
        assert(f.linked(c, Some(xu)));
        assert(f.linked(s, gp));
    }
}

impl DynamicBitVector {
    /// Counts anew what lies under the left child of each of the nodes `path[0..=k]`
    /// above the node or leaf named by `t`, from the parent of `t` upwards, for as long
    /// as the way up comes from a left child. Returns whether it came as far as
    /// `path[k]` and counted it anew.
    #[verifier::rlimit(40)]
    fn update_path(&mut self, path: &Vec<usize>, k: usize, t: isize, Ghost(s): Ghost<Shape>, Ghost(
        gp,
    ): Ghost<Option<usize>>) -> (reached: bool)
        requires
            old(self).sized(),
            k < path@.len(),
            path@.take(k + 1) == s.path_to(t),
            old(self).stale_counts(s, gp, t),
            s.distinct(),
            old(self).bits_in(s).len() <= usize::MAX,
        ensures
            final(self).stale_counts(s, gp, chain_top(s, t)),
            reached == (Some(chain_top(s, t)) == s.child_ref()),
            reached ==> final(self).linked(s, gp),
            s.holds_ref(chain_top(s, t)),
            final(self).bits_in(s) == old(self).bits_in(s),
            old(self).same_but_counts(final(self), s),
            old(self).same_nodes_but(final(self), recounted(s, t)),
        decreases k,
    {
        let ghost a = *self;
        let ghost c = s.toward(t);
        let cur = path[k];
        proof {
            assert(s.path_to(t).len() == k + 1);
            assert(s.path_to(t).last() == path@[k as int]);
            if s.child_ref() == Some(t) {
                lemma_stale_counts_framed(&a, s, gp, t);
                lemma_path(&a, s, gp, t);
            }
            lemma_counts_level(&a, s, gp, t);
            assert(c.path_to(t) =~= path@.take(k as int));
            if k > 0 {
                assert(c.path_to(t).last() == path@[k - 1]);
            }
        }
        let below: isize = if k == 0 {
            t
        } else {
            path[k - 1] as isize
        };
        let reached_below = if k == 0 {
            proof {
                lemma_stale_counts_framed(&a, c, Some(cur), t);
            }
            true
        } else {
            self.update_path(path, k - 1, t, Ghost(c), Ghost(Some(cur)))
        };
        let ghost m = *self;
        let recount = if reached_below {
            proof {
                lemma_stale_counts_framed(&m, c, Some(cur), chain_top(c, t));
                crate::dynamic_vector::query::lemma_counted_under(&m, c, Some(cur));
                assert(m.nodes[cur as int].left == a.nodes[cur as int].left);
            }
            self.update_left_values_only(cur, below)
        } else {
            false
        };
        proof {
            lemma_counts_step(&a, &m, self, s, gp, t, recount);
        }
        recount
    }
}

impl DynamicBitVector {
    /// The tree `s` is the whole content, laid out from the root but for the counters
    /// of the nodes that have the node or leaf named by `child` under their left child.
    pub open spec fn recount_tree(&self, s: Shape, child: isize) -> bool {
        &&& self.sized()
        &&& s is Node
        &&& s.idx() == self.root
        &&& self.stale_counts(s, None, child)
        &&& s.distinct()
        &&& self.bits_in(s).len() <= usize::MAX
    }

    /// Some tree is the whole content but for counters above `child`.
    pub open spec fn needs_recount(&self, child: isize) -> bool {
        exists|s: Shape| self.recount_tree(s, child)
    }

    /// The tree that is the whole content but for counters above `child`.
    pub open spec fn recount_shape(&self, child: isize) -> Shape {
        choose|s: Shape| self.recount_tree(s, child)
    }

    /// Counts anew what lies under the left child of `node`, the parent of `child`,
    /// where `child` is that left child, then does the same for the parent of `node`
    /// with `node` as the child, and so on upwards for as long as the way up comes from
    /// a left child. The counters are right afterwards from the place where the walk
    /// ended downwards to `child`; where the walk came to the root, they are right
    /// everywhere. No node but those that the walk counted anew has changed.
    pub fn update_left_values(&mut self, node: usize, child: isize)
        requires
            old(self).needs_recount(child),
            old(self).parent_of(child) == Some(node),
        ensures
            final(self).stale_counts(
                old(self).recount_shape(child),
                None,
                chain_top(old(self).recount_shape(child), child),
            ),
            old(self).recount_shape(child).holds_ref(
                chain_top(old(self).recount_shape(child), child),
            ),
            chain_top(old(self).recount_shape(child), child) == old(self).root ==> final(self).linked(old(self).recount_shape(child), None),
            final(self).bits_in(old(self).recount_shape(child)) == old(self).bits_in(
                old(self).recount_shape(child),
            ),
            old(self).same_but_counts(final(self), old(self).recount_shape(child)),
            old(self).same_nodes_but(
                final(self),
                recounted(old(self).recount_shape(child), child),
            ),
    {
        let ghost s = self.recount_shape(child);
        let ghost a = *self;
        proof {
            lemma_stale_counts_framed(&a, s, None, child);
            lemma_path(&a, s, None, child);
        }
        let path = self.ancestors(child, Ghost(s));
        if path.len() > 0 {
            proof {
                assert(path@.take(path@.len() as int) =~= path@);
            }
            self.update_path(&path, path.len() - 1, child, Ghost(s), Ghost(None));
        }
    }
}

/// A node or leaf of one subtree of a tree without repetition is none of the other
/// subtree, and is not the root.
pub proof fn lemma_holds_one_side(s: Shape, t: isize)
    requires
        s is Node,
        s.distinct(),
        s.lhs().holds_ref(t) || s.rhs().holds_ref(t),
    ensures
        !(s.lhs().holds_ref(t) && s.rhs().holds_ref(t)),
        t >= 0 ==> t != s.idx(),
        s.holds_ref(t),
{
}

} // verus!
