use vstd::prelude::*;

verus! {

/// The tree that an arena of nodes and leaves lays out, as a mathematical value: which
/// node or leaf stands where. A node or leaf is named by its index in its arena.
pub enum Shape {
    /// no child
    Nil,
    /// the leaf in slot `id`
    Leaf { id: int },
    /// the node at index `id` with the subtrees under its left and right child
    Node { id: int, left: Box<Shape>, right: Box<Shape> },
}

/// The larger of two numbers.
pub open spec fn max(a: int, b: int) -> int {
    if a >= b {
        a
    } else {
        b
    }
}

/// The smaller of two numbers.
pub open spec fn min(a: int, b: int) -> int {
    if a <= b {
        a
    } else {
        b
    }
}

impl Shape {
    /// The signed index by which a parent names the root of this tree: a node by its
    /// index, a leaf by its negated slot.
    pub open spec fn child_ref(self) -> Option<isize> {
        match self {
            Shape::Nil => None,
            Shape::Leaf { id } => Some((-id) as isize),
            Shape::Node { id, .. } => Some(id as isize),
        }
    }

    /// Number of levels: none for no child, one for a leaf.
    pub open spec fn height(self) -> int
        decreases self,
    {
        match self {
            Shape::Nil => 0,
            Shape::Leaf { .. } => 1,
            Shape::Node { left, right, .. } => 1 + max(left.height(), right.height()),
        }
    }

    /// Indices of the nodes in the tree.
    pub open spec fn node_ids(self) -> Set<int>
        decreases self,
    {
        match self {
            Shape::Nil => Set::empty(),
            Shape::Leaf { .. } => Set::empty(),
            Shape::Node { id, left, right } => left.node_ids().union(right.node_ids()).insert(id),
        }
    }

    /// Slots of the leaves in the tree.
    pub open spec fn leaf_ids(self) -> Set<int>
        decreases self,
    {
        match self {
            Shape::Nil => Set::empty(),
            Shape::Leaf { id } => Set::empty().insert(id),
            Shape::Node { left, right, .. } => left.leaf_ids().union(right.leaf_ids()),
        }
    }

    /// At every node the heights of the two subtrees differ by at most one.
    pub open spec fn balanced(self) -> bool
        decreases self,
    {
        match self {
            Shape::Nil => true,
            Shape::Leaf { .. } => true,
            Shape::Node { left, right, .. } => {
                &&& left.balanced()
                &&& right.balanced()
                &&& -1 <= right.height() - left.height() <= 1
            },
        }
    }

    /// The tree is a leaf, or a node whose two children both exist and are proper.
    pub open spec fn proper(self) -> bool
        decreases self,
    {
        match self {
            Shape::Nil => false,
            Shape::Leaf { .. } => true,
            Shape::Node { left, right, .. } => left.proper() && right.proper(),
        }
    }

    /// No node and no leaf occurs twice.
    pub open spec fn distinct(self) -> bool
        decreases self,
    {
        match self {
            Shape::Nil => true,
            Shape::Leaf { .. } => true,
            Shape::Node { id, left, right } => {
                &&& left.distinct()
                &&& right.distinct()
                &&& !left.node_ids().contains(id)
                &&& !right.node_ids().contains(id)
                &&& left.node_ids().disjoint(right.node_ids())
                &&& left.leaf_ids().disjoint(right.leaf_ids())
            },
        }
    }

    /// The subtree under the left child; nothing where the tree is no node.
    pub open spec fn lhs(self) -> Shape {
        match self {
            Shape::Node { left, .. } => *left,
            _ => Shape::Nil,
        }
    }

    /// The subtree under the right child; nothing where the tree is no node.
    pub open spec fn rhs(self) -> Shape {
        match self {
            Shape::Node { right, .. } => *right,
            _ => Shape::Nil,
        }
    }

    /// The index of the node or the slot of the leaf at the root.
    pub open spec fn idx(self) -> int {
        match self {
            Shape::Node { id, .. } => id,
            Shape::Leaf { id } => id,
            Shape::Nil => 0,
        }
    }

    /// The node `id` over the subtrees `left` and `right`.
    pub open spec fn node(id: int, left: Shape, right: Shape) -> Shape {
        Shape::Node { id, left: Box::new(left), right: Box::new(right) }
    }

    /// The slot of the first leaf of a proper tree.
    pub open spec fn leftmost(self) -> int
        decreases self,
    {
        match self {
            Shape::Node { left, .. } => left.leftmost(),
            Shape::Leaf { id } => id,
            Shape::Nil => 0,
        }
    }

    /// The slot of the last leaf of a proper tree.
    pub open spec fn rightmost(self) -> int
        decreases self,
    {
        match self {
            Shape::Node { right, .. } => right.rightmost(),
            Shape::Leaf { id } => id,
            Shape::Nil => 0,
        }
    }

    /// The tree with the leaf slot `to` in the place of the leaf slot `from`.
    pub open spec fn rename_leaf(self, from: int, to: int) -> Shape
        decreases self,
    {
        match self {
            Shape::Node { id, left, right } => Shape::Node {
                id,
                left: Box::new(left.rename_leaf(from, to)),
                right: Box::new(right.rename_leaf(from, to)),
            },
            Shape::Leaf { id } => Shape::Leaf {
                id: if id == from {
                    to
                } else {
                    id
                },
            },
            Shape::Nil => Shape::Nil,
        }
    }

    /// The tree with the node index `to` in the place of the node index `from`.
    pub open spec fn rename_node(self, from: int, to: int) -> Shape
        decreases self,
    {
        match self {
            Shape::Node { id, left, right } => Shape::Node {
                id: if id == from {
                    to
                } else {
                    id
                },
                left: Box::new(left.rename_node(from, to)),
                right: Box::new(right.rename_node(from, to)),
            },
            Shape::Leaf { id } => Shape::Leaf { id },
            Shape::Nil => Shape::Nil,
        }
    }

    /// The tree after a left rotation at its root: the right child comes up, the root
    /// goes down to its left and takes over the left subtree of the right child.
    pub open spec fn rotated_left(self) -> Shape
        recommends
            self is Node,
            self.rhs() is Node,
    {
        Shape::node(
            self.rhs().idx(),
            Shape::node(self.idx(), self.lhs(), self.rhs().lhs()),
            self.rhs().rhs(),
        )
    }

    /// The tree after a right rotation at its root: the left child comes up, the root
    /// goes down to its right and takes over the right subtree of the left child.
    pub open spec fn rotated_right(self) -> Shape
        recommends
            self is Node,
            self.lhs() is Node,
    {
        Shape::node(
            self.lhs().idx(),
            self.lhs().lhs(),
            Shape::node(self.idx(), self.lhs().rhs(), self.rhs()),
        )
    }

    /// The tree after the rotations that mend a difference in height of two at its root:
    /// one rotation towards the lower side where the outer grandchild on the higher side
    /// is at least as high as the inner one, otherwise first a rotation of the higher
    /// child away from the root.
    pub open spec fn rebalanced(self) -> Shape {
        if self.rhs().height() > self.lhs().height() {
            if self.rhs().rhs().height() >= self.rhs().lhs().height() {
                self.rotated_left()
            } else {
                Shape::node(self.idx(), self.lhs(), self.rhs().rotated_right()).rotated_left()
            }
        } else {
            if self.lhs().lhs().height() >= self.lhs().rhs().height() {
                self.rotated_right()
            } else {
                Shape::node(self.idx(), self.lhs().rotated_left(), self.rhs()).rotated_right()
            }
        }
    }

    /// The tree rebalanced where its two subtrees differ in height by two, otherwise
    /// as it is.
    pub open spec fn settled(self) -> Shape {
        let d = self.rhs().height() - self.lhs().height();
        if d == 2 || d == -2 {
            self.rebalanced()
        } else {
            self
        }
    }

    /// Whether the two subtrees of the higher child of the root are equally high.
    pub open spec fn heavy_child_even(self) -> bool {
        if self.rhs().height() > self.lhs().height() {
            self.rhs().rhs().height() == self.rhs().lhs().height()
        } else {
            self.lhs().lhs().height() == self.lhs().rhs().height()
        }
    }

    /// What a tree must be to stand at the root: a node, each of whose children is
    /// absent or proper.
    pub open spec fn rooted(self) -> bool {
        match self {
            Shape::Node { left, right, .. } => {
                &&& (*left is Nil || left.proper())
                &&& (*right is Nil || right.proper())
            },
            _ => false,
        }
    }
}

pub proof fn lemma_height_nonneg(s: Shape)
    ensures
        s.height() >= 0,
        s is Nil <==> s.height() == 0,
        s is Node ==> s.height() >= 1,
    decreases s,
{
    match s {
        Shape::Node { left, right, .. } => {
            lemma_height_nonneg(*left);
            lemma_height_nonneg(*right);
        },
        _ => {},
    }
}

/// A proper tree of height one is a leaf.
pub proof fn lemma_proper_height(s: Shape)
    requires
        s.proper(),
    ensures
        s.height() >= 1,
        s.height() == 1 <==> s is Leaf,
    decreases s,
{
    match s {
        Shape::Node { left, right, .. } => {
            lemma_proper_height(*left);
            lemma_proper_height(*right);
        },
        _ => {},
    }
}

/// The parts of a node: its height, balance and properness in terms of its children.
pub proof fn lemma_node_parts(s: Shape)
    requires
        s is Node,
    ensures
        s == Shape::node(s.idx(), s.lhs(), s.rhs()),
        s.height() == 1 + max(s.lhs().height(), s.rhs().height()),
        s.balanced() == (s.lhs().balanced() && s.rhs().balanced() && -1 <= s.rhs().height()
            - s.lhs().height() <= 1),
        s.proper() == (s.lhs().proper() && s.rhs().proper()),
        s.lhs().height() >= 0,
        s.rhs().height() >= 0,
{
    lemma_height_nonneg(s.lhs());
    lemma_height_nonneg(s.rhs());
}

/// Rebalancing a proper tree whose subtrees are balanced and differ in height by two
/// gives a balanced proper tree. It is lower by one than before, unless the two
/// subtrees of the higher child were equally high: then it is as high as before.
pub proof fn lemma_rebalanced(s: Shape)
    requires
        s is Node,
        s.proper(),
        s.lhs().balanced(),
        s.rhs().balanced(),
        s.rhs().height() - s.lhs().height() == 2 || s.rhs().height() - s.lhs().height() == -2,
    ensures
        s.rebalanced() is Node,
        s.rebalanced().balanced(),
        s.rebalanced().proper(),
        s.heavy_child_even() ==> s.rebalanced().height() == s.height(),
        !s.heavy_child_even() ==> s.rebalanced().height() == s.height() - 1,
        s.rhs().height() > s.lhs().height() ==> s.rhs() is Node && (s.rhs().rhs().height()
            < s.rhs().lhs().height() ==> s.rhs().lhs() is Node),
        s.rhs().height() < s.lhs().height() ==> s.lhs() is Node && (s.lhs().lhs().height()
            < s.lhs().rhs().height() ==> s.lhs().rhs() is Node),
{
    lemma_node_parts(s);
    lemma_proper_height(s.lhs());
    lemma_proper_height(s.rhs());
    if s.rhs().height() > s.lhs().height() {
        let z = s.rhs();
        lemma_node_parts(z);
        lemma_proper_height(z.lhs());
        lemma_proper_height(z.rhs());
        if z.rhs().height() >= z.lhs().height() {
            let nx = Shape::node(s.idx(), s.lhs(), z.lhs());
            lemma_node_parts(nx);
            lemma_node_parts(s.rotated_left());
        } else {
            let y = z.lhs();
            lemma_node_parts(y);
            lemma_proper_height(y.lhs());
            lemma_proper_height(y.rhs());
            let nz = Shape::node(z.idx(), y.rhs(), z.rhs());
            lemma_node_parts(nz);
            let mid = Shape::node(s.idx(), s.lhs(), z.rotated_right());
            lemma_node_parts(z.rotated_right());
            lemma_node_parts(mid);
            let nx = Shape::node(s.idx(), s.lhs(), y.lhs());
            lemma_node_parts(nx);
            lemma_node_parts(mid.rotated_left());
        }
    } else {
        let z = s.lhs();
        lemma_node_parts(z);
        lemma_proper_height(z.lhs());
        lemma_proper_height(z.rhs());
        if z.lhs().height() >= z.rhs().height() {
            let nx = Shape::node(s.idx(), z.rhs(), s.rhs());
            lemma_node_parts(nx);
            lemma_node_parts(s.rotated_right());
        } else {
            let y = z.rhs();
            lemma_node_parts(y);
            lemma_proper_height(y.lhs());
            lemma_proper_height(y.rhs());
            let nz = Shape::node(z.idx(), z.lhs(), y.lhs());
            lemma_node_parts(nz);
            let mid = Shape::node(s.idx(), z.rotated_left(), s.rhs());
            lemma_node_parts(z.rotated_left());
            lemma_node_parts(mid);
            let nx = Shape::node(s.idx(), y.rhs(), s.rhs());
            lemma_node_parts(nx);
            lemma_node_parts(mid.rotated_right());
        }
    }
}

/// The first and the last leaf of a proper tree are leaves of the tree.
pub proof fn lemma_extremes(s: Shape)
    requires
        s.proper(),
    ensures
        s.leaf_ids().contains(s.leftmost()),
        s.leaf_ids().contains(s.rightmost()),
    decreases s,
{
    match s {
        Shape::Node { left, right, .. } => {
            lemma_extremes(*left);
            lemma_extremes(*right);
        },
        _ => {},
    }
}

/// Giving a leaf of a tree a slot that the tree does not use changes nothing but the
/// set of its leaf slots.
pub proof fn lemma_rename_leaf_shape(s: Shape, from: int, to: int)
    requires
        !s.leaf_ids().contains(to),
    ensures
        s.rename_leaf(from, to).height() == s.height(),
        s.rename_leaf(from, to).balanced() == s.balanced(),
        s.rename_leaf(from, to).proper() == s.proper(),
        s.rename_leaf(from, to).rooted() == s.rooted(),
        s.rename_leaf(from, to) is Node == s is Node,
        s.rename_leaf(from, to) is Nil == s is Nil,
        s is Node ==> s.rename_leaf(from, to).idx() == s.idx(),
        s.rename_leaf(from, to).node_ids() =~= s.node_ids(),
        s.leaf_ids().contains(from) ==> s.rename_leaf(from, to).leaf_ids() =~= s.leaf_ids().remove(
            from,
        ).insert(to),
        !s.leaf_ids().contains(from) ==> s.rename_leaf(from, to) == s,
        s.distinct() ==> s.rename_leaf(from, to).distinct(),
    decreases s,
{
    match s {
        Shape::Node { id, left, right } => {
            lemma_rename_leaf_shape(*left, from, to);
            lemma_rename_leaf_shape(*right, from, to);
            let r = s.rename_leaf(from, to);
            assert(r.lhs() == left.rename_leaf(from, to));
            assert(r.rhs() == right.rename_leaf(from, to));
            assert(r.leaf_ids() =~= r.lhs().leaf_ids().union(r.rhs().leaf_ids()));
            assert(s.leaf_ids() =~= left.leaf_ids().union(right.leaf_ids()));
            if s.distinct() {
                assert(r.lhs().leaf_ids().disjoint(r.rhs().leaf_ids()));
            }
        },
        Shape::Leaf { id } => {
            assert(s.leaf_ids() =~= Set::<int>::empty().insert(id));
            let r = s.rename_leaf(from, to);
            assert(r.leaf_ids() =~= Set::<int>::empty().insert(r.idx()));
        },
        Shape::Nil => {},
    }
}

/// Giving a node of a tree an index that the tree does not use changes nothing but the
/// set of its node indices.
pub proof fn lemma_rename_node_shape(s: Shape, from: int, to: int)
    requires
        !s.node_ids().contains(to),
    ensures
        s.rename_node(from, to).height() == s.height(),
        s.rename_node(from, to).balanced() == s.balanced(),
        s.rename_node(from, to).proper() == s.proper(),
        s.rename_node(from, to).rooted() == s.rooted(),
        s.rename_node(from, to) is Node == s is Node,
        s.rename_node(from, to) is Nil == s is Nil,
        s is Node ==> s.rename_node(from, to).idx() == (if s.idx() == from {
            to
        } else {
            s.idx()
        }),
        s.rename_node(from, to).leaf_ids() =~= s.leaf_ids(),
        s.node_ids().contains(from) ==> s.rename_node(from, to).node_ids() =~= s.node_ids().remove(
            from,
        ).insert(to),
        !s.node_ids().contains(from) ==> s.rename_node(from, to) == s,
        s.distinct() ==> s.rename_node(from, to).distinct(),
    decreases s,
{
    match s {
        Shape::Node { id, left, right } => {
            lemma_rename_node_shape(*left, from, to);
            lemma_rename_node_shape(*right, from, to);
            let r = s.rename_node(from, to);
            assert(r.lhs() == left.rename_node(from, to));
            assert(r.rhs() == right.rename_node(from, to));
            assert(r.node_ids() =~= r.lhs().node_ids().union(r.rhs().node_ids()).insert(r.idx()));
            assert(s.node_ids() =~= left.node_ids().union(right.node_ids()).insert(id));
            if s.distinct() {
                assert(r.lhs().node_ids().disjoint(r.rhs().node_ids()));
                assert(!r.lhs().node_ids().contains(r.idx()));
                assert(!r.rhs().node_ids().contains(r.idx()));
            }
        },
        _ => {},
    }
}

} // verus!
