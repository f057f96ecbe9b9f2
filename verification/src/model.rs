//! The mathematical model of a tree: what the contracts of the executable
//! types speak about.

use vstd::prelude::*;
use vstd::std_specs::cmp::PartialEqIs;
use vstd::std_specs::cmp::PartialEqSpec;
use vstd::std_specs::cmp::PartialOrdIs;
use vstd::std_specs::cmp::PartialOrdSpec;

verus! {

/// One of the two child positions of a node.
pub enum Side {
    Left,
    Right,
}

/// A walk from a node downwards, one turn per level.
pub type Path = Seq<Side>;

/// A binary tree of elements: either nothing, or an element with two subtrees.
pub enum Tree<T> {
    Empty,
    Node { elm: T, left: Box<Tree<T>>, right: Box<Tree<T>> },
}

/// Whether `==`, `>` and `>=` on `T` compute what `T` declares of them for
/// ghost code. Where they do not (an element whose content can change behind
/// the tree's back), the comparisons made during a walk are not a function
/// of the values alone.
pub open spec fn comparisons_are_specified<T: PartialOrd>() -> bool {
    T::obeys_eq_spec() && T::obeys_partial_cmp_spec()
}

/// The place of a path among the paths of its length, in the order in which
/// a level of the tree is examined: from the right to the left.
pub open spec fn level_index(path: Path) -> nat
    decreases path.len(),
{
    if path.len() == 0 {
        0
    } else {
        2 * level_index(path.drop_last()) + if path.last() == Side::Left {
            1nat
        } else {
            0nat
        }
    }
}

/// Whether a search examines the node at the end of `first` before the one
/// at the end of `second`, if it examines both: a level above comes before a
/// level below, and within a level the right comes before the left.
pub open spec fn examined_before(first: Path, second: Path) -> bool {
    first.len() < second.len() || (first.len() == second.len() && level_index(first)
        < level_index(second))
}

impl<T> Tree<T> {
    /// The tree made of a single childless node.
    pub open spec fn leaf(elm: T) -> Tree<T> {
        Tree::Node { elm, left: Box::new(Tree::Empty), right: Box::new(Tree::Empty) }
    }

    /// Whether this is a node without children.
    pub open spec fn is_leaf(self) -> bool {
        self is Node && self.child(Side::Left) is Empty && self.child(Side::Right) is Empty
    }

    /// The subtree in the given child position; nothing hangs below nothing.
    pub open spec fn child(self, side: Side) -> Tree<T> {
        match self {
            Tree::Empty => Tree::Empty,
            Tree::Node { left, right, .. } => match side {
                Side::Left => *left,
                Side::Right => *right,
            },
        }
    }

    /// This tree with the given child position holding `sub` instead.
    pub open spec fn with_child(self, side: Side, sub: Tree<T>) -> Tree<T> {
        match self {
            Tree::Empty => Tree::Empty,
            Tree::Node { elm, left, right } => match side {
                Side::Left => Tree::Node { elm, left: Box::new(sub), right },
                Side::Right => Tree::Node { elm, left, right: Box::new(sub) },
            },
        }
    }

    /// This node with both child positions vacated.
    pub open spec fn pruned(self) -> Tree<T> {
        match self {
            Tree::Empty => Tree::Empty,
            Tree::Node { elm, .. } => Tree::leaf(elm),
        }
    }

    /// The number of nodes.
    pub open spec fn size(self) -> nat
        decreases self,
    {
        match self {
            Tree::Empty => 0,
            Tree::Node { left, right, .. } => 1 + left.size() + right.size(),
        }
    }

    /// The subtree reached by following `path` from the root.
    pub open spec fn subtree(self, path: Path) -> Tree<T>
        decreases path.len(),
    {
        if path.len() == 0 {
            self
        } else {
            self.subtree(path.drop_last()).child(path.last())
        }
    }

    /// This tree with the subtree at the end of `path` replaced by `sub`.
    pub open spec fn with_subtree(self, path: Path, sub: Tree<T>) -> Tree<T>
        decreases path.len(),
    {
        if path.len() == 0 {
            sub
        } else {
            let above = path.drop_last();
            self.with_subtree(above, self.subtree(above).with_child(path.last(), sub))
        }
    }

    /// Whether `path` ends in a vacant child position of a node of this tree.
    pub open spec fn is_vacancy(self, path: Path) -> bool {
        path.len() > 0 && self.subtree(path.drop_last()) is Node && self.subtree(path) is Empty
    }

    /// The total size of the subtrees that a worklist of paths points at.
    pub open spec fn pending(self, queue: Seq<Path>) -> nat
        decreases queue.len(),
    {
        if queue.len() == 0 {
            0
        } else {
            self.pending(queue.drop_last()) + self.subtree(queue.last()).size()
        }
    }

    /// Adding a path at the front of a worklist adds the size of its subtree.
    pub proof fn lemma_pending_front(self, path: Path, queue: Seq<Path>)
        ensures
            self.pending(seq![path] + queue) == self.subtree(path).size() + self.pending(queue),
        decreases queue.len(),
    {
        let whole = seq![path] + queue;
        if queue.len() == 0 {
            assert(whole.drop_last() =~= Seq::<Path>::empty());
            assert(self.pending(whole.drop_last()) == 0);
        } else {
            assert(whole.drop_last() =~= seq![path] + queue.drop_last());
            assert(whole.last() == queue.last());
            self.lemma_pending_front(path, queue.drop_last());
        }
    }

    /// Putting back what is already there changes nothing.
    pub proof fn lemma_with_subtree_same(self, path: Path)
        ensures
            self.with_subtree(path, self.subtree(path)) == self,
        decreases path.len(),
    {
        if path.len() > 0 {
            let above = path.drop_last();
            let parent = self.subtree(above);
            assert(parent.with_child(path.last(), parent.child(path.last())) == parent);
            self.lemma_with_subtree_same(above);
        }
    }

    /// Following a path that starts with `side` is following the rest of it
    /// from the child on that side.
    pub proof fn lemma_subtree_front(self, side: Side, path: Path)
        ensures
            self.subtree(seq![side] + path) == self.child(side).subtree(path),
        decreases path.len(),
    {
        let whole = seq![side] + path;
        if path.len() == 0 {
            assert(whole.drop_last() =~= Seq::<Side>::empty());
            assert(self.subtree(whole.drop_last()) == self);
        } else {
            assert(whole.drop_last() =~= seq![side] + path.drop_last());
            assert(whole.last() == path.last());
            self.lemma_subtree_front(side, path.drop_last());
        }
    }

    /// Replacing below a path that starts with `side` is replacing below the
    /// rest of it in the child on that side.
    pub proof fn lemma_with_subtree_front(self, side: Side, path: Path, sub: Tree<T>)
        ensures
            self.with_subtree(seq![side] + path, sub) == self.with_child(
                side,
                self.child(side).with_subtree(path, sub),
            ),
        decreases path.len(),
    {
        let whole = seq![side] + path;
        if path.len() == 0 {
            assert(whole.drop_last() =~= Seq::<Side>::empty());
            assert(self.subtree(whole.drop_last()) == self);
            assert(self.with_subtree(whole.drop_last(), self.with_child(side, sub))
                == self.with_child(side, sub));
        } else {
            let above = path.drop_last();
            assert(whole.drop_last() =~= seq![side] + above);
            assert(whole.last() == path.last());
            self.lemma_subtree_front(side, above);
            self.lemma_with_subtree_front(
                side,
                above,
                self.child(side).subtree(above).with_child(path.last(), sub),
            );
        }
    }

    /// What was put at the end of a path that leads through nodes is found
    /// there.
    pub proof fn lemma_subtree_of_with_subtree(self, path: Path, sub: Tree<T>)
        requires
            path.len() > 0 ==> self.subtree(path.drop_last()) is Node,
        ensures
            self.with_subtree(path, sub).subtree(path) == sub,
        decreases path.len(),
    {
        if path.len() > 0 {
            let side = path.first();
            let rest = path.drop_first();
            assert(path =~= seq![side] + rest);
            self.lemma_with_subtree_front(side, rest, sub);
            let below = self.child(side).with_subtree(rest, sub);
            self.with_child(side, below).lemma_subtree_front(side, rest);
            if rest.len() > 0 {
                assert(path.drop_last() =~= seq![side] + rest.drop_last());
                self.lemma_subtree_front(side, rest.drop_last());
            } else {
                assert(path.drop_last() =~= Seq::<Side>::empty());
            }
            assert(self is Node) by {
                if rest.len() > 0 {
                    self.lemma_subtree_front(side, rest.drop_last());
                    self.child(side).lemma_node_above(rest.drop_last());
                }
            }
            self.child(side).lemma_subtree_of_with_subtree(rest, sub);
        }
    }

    /// Nothing hangs below nothing: where a path ends in a node, the tree
    /// is one.
    pub proof fn lemma_node_above(self, path: Path)
        requires
            self.subtree(path) is Node,
        ensures
            self is Node,
        decreases path.len(),
    {
        if path.len() > 0 {
            self.lemma_node_above(path.drop_last());
        }
    }

    /// Where a path of at least one step ends in a node, it leaves from one.
    pub proof fn lemma_node_above_last(self, path: Path)
        requires
            path.len() > 0,
            self.subtree(path) is Node,
        ensures
            self.subtree(path.drop_last()) is Node,
    {
    }

    /// A step down from `path` reaches the child of what `path` reaches.
    pub proof fn lemma_subtree_step(self, path: Path, side: Side)
        ensures
            self.subtree(path.push(side)) == self.subtree(path).child(side),
    {
        assert(path.push(side).drop_last() =~= path);
    }
}

impl<T: PartialOrd> Tree<T> {
    /// The tree after `value` has been attached as a new leaf: at each node
    /// the walk turns right when `value >= elm` and left otherwise, and the
    /// first empty position it meets receives the leaf.
    pub open spec fn insert(self, value: T) -> Tree<T>
        decreases self,
    {
        match self {
            Tree::Empty => Tree::leaf(value),
            Tree::Node { elm, left, right } => if value.is_ge(&elm) {
                Tree::Node { elm, left, right: Box::new(right.insert(value)) }
            } else {
                Tree::Node { elm, left: Box::new(left.insert(value)), right }
            },
        }
    }

    /// The tree after the values have been inserted one after the other.
    pub open spec fn insert_all(self, values: Seq<T>) -> Tree<T>
        decreases values.len(),
    {
        if values.len() == 0 {
            self
        } else {
            self.insert_all(values.drop_last()).insert(values.last())
        }
    }

    /// The path from the root to the position that receives `value`.
    pub open spec fn insert_path(self, value: T) -> Path
        decreases self,
    {
        match self {
            Tree::Empty => Seq::empty(),
            Tree::Node { elm, left, right } => if value.is_ge(&elm) {
                seq![Side::Right] + right.insert_path(value)
            } else {
                seq![Side::Left] + left.insert_path(value)
            },
        }
    }

    /// Whether a search for `value` that examines this node goes on: its
    /// element differs from `value`, it has a left child, and it has a right
    /// child if `value` is greater than its element.
    pub open spec fn continues(self, value: T) -> bool {
        &&& self is Node
        &&& !self->elm.is_eq(&value)
        &&& self.child(Side::Left) is Node
        &&& value.is_gt(&self->elm) ==> self.child(Side::Right) is Node
    }

    /// Whether a search for `value` that examines this node ends there, in
    /// success when the element equals `value` and in failure otherwise.
    pub open spec fn decides(self, value: T) -> bool {
        self is Node && !self.continues(value)
    }

    /// Whether a search for `value` that examines the node at the end of
    /// `above` goes on and notes its child on `side`: the left child always,
    /// the right one when `value` is greater than the node's element.
    pub open spec fn passes(self, above: Path, side: Side, value: T) -> bool {
        let node = self.subtree(above);
        &&& node.continues(value)
        &&& side == Side::Right ==> value.is_gt(&node->elm)
    }

    /// Whether a search for `value` from the root can come to note the
    /// position at the end of `path`: it passes every node above it.
    pub open spec fn admits(self, path: Path, value: T) -> bool {
        forall|i: int| 0 <= i < path.len() ==> self.passes(#[trigger] path.take(i), path[i], value)
    }

    /// Whether a search for `value` from the root that ran on until its
    /// worklist was empty would examine a node at the end of `path`.
    pub open spec fn reaches(self, path: Path, value: T) -> bool {
        self.admits(path, value) && self.subtree(path) is Node
    }

    /// The outcome of the search that precedes a removal, run from a worklist
    /// of paths whose last entry is examined next and whose new entries join
    /// at the front. The node examined ends the search with its own path
    /// when its element equals `value`, and without a result when the search
    /// does not go on from it for another reason. Otherwise its right child
    /// (only when `value` is greater than its element) and then its left
    /// child join the worklist.
    pub open spec fn search(self, queue: Seq<Path>, value: T) -> Option<Path>
        decreases self.pending(queue),
        via Self::search_terminates
    {
        if queue.len() == 0 {
            None
        } else {
            let path = queue.last();
            let rest = queue.drop_last();
            let node = self.subtree(path);
            if node is Node && node->elm.is_eq(&value) {
                Some(path)
            } else if !node.continues(value) {
                None
            } else if value.is_gt(&node->elm) {
                self.search(
                    seq![path.push(Side::Left)] + (seq![path.push(Side::Right)] + rest),
                    value,
                )
            } else {
                self.search(seq![path.push(Side::Left)] + rest, value)
            }
        }
    }

    #[via_fn]
    proof fn search_terminates(self, queue: Seq<Path>, value: T) {
        if queue.len() > 0 {
            let path = queue.last();
            let rest = queue.drop_last();
            let to_left = path.push(Side::Left);
            let to_right = path.push(Side::Right);
            self.lemma_subtree_step(path, Side::Left);
            self.lemma_subtree_step(path, Side::Right);
            self.lemma_pending_front(to_right, rest);
            self.lemma_pending_front(to_left, seq![to_right] + rest);
            self.lemma_pending_front(to_left, rest);
        }
    }

    /// The path to the node whose children a removal for `value` detaches,
    /// if the search from the root finds one.
    pub open spec fn target(self, value: T) -> Option<Path> {
        self.search(seq![Seq::<Side>::empty()], value)
    }

    /// The tree after a removal for `value`: the node that the search finds
    /// has lost both subtrees; without such a node nothing has changed.
    pub open spec fn without_children_of(self, value: T) -> Tree<T> {
        match self.target(value) {
            Some(path) => self.with_subtree(path, self.subtree(path).pruned()),
            None => self,
        }
    }
}

} // verus!
