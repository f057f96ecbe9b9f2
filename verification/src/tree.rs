//! The executable tree.

use crate::model::comparisons_are_specified;
use crate::model::Path;
use crate::model::Side;
use crate::model::Tree;
use vstd::prelude::*;
use vstd::std_specs::cmp::PartialEqSpec;
use vstd::std_specs::cmp::PartialOrdIs;
use vstd::std_specs::cmp::PartialOrdSpec;

verus! {

/// A child position: vacant, or the owner of one node.
#[derive(Debug)]
pub enum BoxBinTreeNodeRef<T> {
    Empty,
    Value(Box<BoxBinTreeNode<T>>),
}

/// A node: one element and two child positions.
#[derive(Debug)]
pub struct BoxBinTreeNode<T> {
    elm: T,
    left: BoxBinTreeNodeRef<T>,
    right: BoxBinTreeNodeRef<T>,
}

impl<T> BoxBinTreeNodeRef<T> {
    /// What this position holds, as a tree of the model.
    pub closed spec fn as_tree(&self) -> Tree<T>
        decreases self,
    {
        match self {
            BoxBinTreeNodeRef::Empty => Tree::Empty,
            BoxBinTreeNodeRef::Value(node) => node.as_tree(),
        }
    }
}

impl<T> BoxBinTreeNode<T> {
    /// This node and everything below it, as a tree of the model.
    pub closed spec fn as_tree(&self) -> Tree<T>
        decreases self,
    {
        Tree::Node {
            elm: self.elm,
            left: Box::new(self.left.as_tree()),
            right: Box::new(self.right.as_tree()),
        }
    }
}

impl<T> View for BoxBinTreeNodeRef<T> {
    type V = Tree<T>;

    open spec fn view(&self) -> Tree<T> {
        self.as_tree()
    }
}

impl<T> View for BoxBinTreeNode<T> {
    type V = Tree<T>;

    open spec fn view(&self) -> Tree<T> {
        self.as_tree()
    }
}

/// Whether every subtree that a worklist points at, but for entry `j`, ends
/// as the tree `root` has it.
spec fn others_untouched<T>(root: Tree<T>, paths: Seq<Path>, ends: Seq<Tree<T>>, j: int) -> bool {
    forall|i: int| 0 <= i < paths.len() && i != j ==> ends[i] == root.subtree(#[trigger] paths[i])
}

/// Whether `outcome` is `root` with the subtree at entry `j` of a worklist
/// replaced by how that subtree ends, whenever no other entry's subtree
/// changes.
spec fn rebuilds<T>(root: Tree<T>, outcome: Tree<T>, paths: Seq<Path>, ends: Seq<Tree<T>>) -> bool {
    forall|j: int|
        0 <= j < paths.len() && others_untouched(root, paths, ends, j) ==> outcome
            == root.with_subtree(#[trigger] paths[j], ends[j])
}

/// Replacing the last entry of a worklist by the left child alone keeps
/// `rebuilds`.
proof fn lemma_descend_left<T>(
    root: Tree<T>,
    outcome: Tree<T>,
    paths: Seq<Path>,
    ends: Seq<Tree<T>>,
    left_end: Tree<T>,
)
    requires
        paths.len() > 0,
        ends.len() == paths.len(),
        rebuilds(root, outcome, paths, ends),
        root.subtree(paths.last()) is Node,
        ends.last() == root.subtree(paths.last()).with_child(Side::Left, left_end),
    ensures
        rebuilds(
            root,
            outcome,
            seq![paths.last().push(Side::Left)] + paths.drop_last(),
            seq![left_end] + ends.drop_last(),
        ),
{
    let path = paths.last();
    let here = root.subtree(path);
    let last = paths.len() - 1;
    let new_paths = seq![path.push(Side::Left)] + paths.drop_last();
    let new_ends = seq![left_end] + ends.drop_last();
    root.lemma_subtree_step(path, Side::Left);
    assert(path.push(Side::Left).drop_last() =~= path);
    assert forall|j: int|
        0 <= j < new_paths.len() && others_untouched(root, new_paths, new_ends, j) implies outcome
        == root.with_subtree(#[trigger] new_paths[j], new_ends[j]) by {
        if j == 0 {
            assert forall|i: int| 0 <= i < paths.len() && i != last implies ends[i]
                == root.subtree(#[trigger] paths[i]) by {
                assert(new_paths[i + 1] == paths[i]);
                assert(new_ends[i + 1] == ends[i]);
            }
            assert(others_untouched(root, paths, ends, last));
            assert(outcome == root.with_subtree(paths[last], ends[last]));
        } else {
            assert(new_paths[0] == path.push(Side::Left));
            assert(left_end == here.child(Side::Left));
            assert(ends[last] == here);
            assert forall|i: int| 0 <= i < paths.len() && i != j - 1 implies ends[i]
                == root.subtree(#[trigger] paths[i]) by {
                if i != last {
                    assert(new_paths[i + 1] == paths[i]);
                    assert(new_ends[i + 1] == ends[i]);
                }
            }
            assert(others_untouched(root, paths, ends, j - 1));
            assert(outcome == root.with_subtree(paths[j - 1], ends[j - 1]));
        }
    }
}

/// Replacing the last entry of a worklist by both children keeps `rebuilds`.
proof fn lemma_descend_both<T>(
    root: Tree<T>,
    outcome: Tree<T>,
    paths: Seq<Path>,
    ends: Seq<Tree<T>>,
    left_end: Tree<T>,
    right_end: Tree<T>,
)
    requires
        paths.len() > 0,
        ends.len() == paths.len(),
        rebuilds(root, outcome, paths, ends),
        root.subtree(paths.last()) is Node,
        ends.last() == root.subtree(paths.last()).with_child(Side::Right, right_end).with_child(
            Side::Left,
            left_end,
        ),
    ensures
        rebuilds(
            root,
            outcome,
            seq![paths.last().push(Side::Left)] + (seq![paths.last().push(Side::Right)]
                + paths.drop_last()),
            seq![left_end] + (seq![right_end] + ends.drop_last()),
        ),
{
    let path = paths.last();
    let here = root.subtree(path);
    let last = paths.len() - 1;
    let new_paths = seq![path.push(Side::Left)] + (seq![path.push(Side::Right)]
        + paths.drop_last());
    let new_ends = seq![left_end] + (seq![right_end] + ends.drop_last());
    root.lemma_subtree_step(path, Side::Left);
    root.lemma_subtree_step(path, Side::Right);
    assert(path.push(Side::Left).drop_last() =~= path);
    assert(path.push(Side::Right).drop_last() =~= path);
    assert(new_paths[0] == path.push(Side::Left));
    assert(new_paths[1] == path.push(Side::Right));
    assert forall|j: int|
        0 <= j < new_paths.len() && others_untouched(root, new_paths, new_ends, j) implies outcome
        == root.with_subtree(#[trigger] new_paths[j], new_ends[j]) by {
        if j == 0 || j == 1 {
            assert forall|i: int| 0 <= i < paths.len() && i != last implies ends[i]
                == root.subtree(#[trigger] paths[i]) by {
                assert(new_paths[i + 2] == paths[i]);
                assert(new_ends[i + 2] == ends[i]);
            }
            assert(others_untouched(root, paths, ends, last));
            assert(outcome == root.with_subtree(paths[last], ends[last]));
            if j == 0 {
                assert(right_end == here.child(Side::Right));
                assert(ends[last] == here.with_child(Side::Left, left_end));
            } else {
                assert(left_end == here.child(Side::Left));
                assert(ends[last] == here.with_child(Side::Right, right_end));
            }
        } else {
            assert(left_end == here.child(Side::Left));
            assert(right_end == here.child(Side::Right));
            assert(ends[last] == here);
            assert forall|i: int| 0 <= i < paths.len() && i != j - 2 implies ends[i]
                == root.subtree(#[trigger] paths[i]) by {
                if i != last {
                    assert(new_paths[i + 2] == paths[i]);
                    assert(new_ends[i + 2] == ends[i]);
                }
            }
            assert(others_untouched(root, paths, ends, j - 2));
            assert(outcome == root.with_subtree(paths[j - 2], ends[j - 2]));
        }
    }
}

impl<T: Ord> BoxBinTreeNodeRef<T> {
    /// A position occupied by a childless node that holds `value`.
    pub fn new(value: T) -> (slot: Self)
        ensures
            slot@ == Tree::leaf(value),
    {
        proof {
            reveal_with_fuel(BoxBinTreeNodeRef::as_tree, 3);
        }
        BoxBinTreeNodeRef::Value(
            Box::new(
                BoxBinTreeNode {
                    elm: value,
                    left: BoxBinTreeNodeRef::Empty,
                    right: BoxBinTreeNodeRef::Empty,
                },
            ),
        )
    }

    /// Whether the position is vacant.
    pub fn is_empty(&self) -> (empty: bool)
        ensures
            empty == (self@ is Empty),
    {
        match self {
            BoxBinTreeNodeRef::Empty => true,
            _ => false,
        }
    }

    /// The node that occupies the position, if any.
    pub fn node(&self) -> (occupant: Option<&BoxBinTreeNode<T>>)
        ensures
            match occupant {
                Some(node) => self@ is Node && node@ == self@,
                None => self@ is Empty,
            },
    {
        match self {
            BoxBinTreeNodeRef::Empty => None,
            BoxBinTreeNodeRef::Value(node) => Some(&**node),
        }
    }
}

impl<T: Ord> BoxBinTreeNode<T> {
    /// A childless node that holds `value`.
    pub fn new(value: T) -> (node: Self)
        ensures
            node@ == Tree::leaf(value),
    {
        Self { elm: value, left: BoxBinTreeNodeRef::Empty, right: BoxBinTreeNodeRef::Empty }
    }

    /// Every node holds an element: its model is never the empty tree.
    pub proof fn lemma_holds_element(&self)
        ensures
            self@ is Node,
    {
    }

    /// Whether this node has no children. Every node holds an element.
    pub fn is_empty(&self) -> (childless: bool)
        ensures
            childless == self@.is_leaf(),
    {
        if self.left.is_empty() && self.right.is_empty() {
            return true;
        }
        return false;
    }

    /// The element of this node.
    pub fn get(&self) -> (elm: &T)
        ensures
            self@ is Node,
            *elm == self@->elm,
    {
        &self.elm
    }

    /// The left child position.
    pub fn left(&self) -> (slot: &BoxBinTreeNodeRef<T>)
        ensures
            slot@ == self@.child(Side::Left),
    {
        &self.left
    }

    /// The right child position.
    pub fn right(&self) -> (slot: &BoxBinTreeNodeRef<T>)
        ensures
            slot@ == self@.child(Side::Right),
    {
        &self.right
    }

    /// Attaches `value` as a new leaf below this node. The walk starts here
    /// and at each node turns right when `value >= element` and left
    /// otherwise, until the position it turns to is vacant.
    #[verifier::loop_isolation(false)]
    pub fn add(&mut self, value: T)
        ensures
            exists|path: Path| #[trigger]
                old(self)@.is_vacancy(path) && final(self)@ == old(self)@.with_subtree(
                    path,
                    Tree::leaf(value),
                ),
            T::obeys_partial_cmp_spec() ==> final(self)@ == old(self)@.insert(value),
    {
        let ghost root = self@;
        let ghost outcome = final(self)@;
        let ghost mut path: Path = Seq::empty();
        let mut node = self;
        loop
            invariant
                node@ == root.subtree(path),
                outcome == root.with_subtree(path, final(node)@),
                T::obeys_partial_cmp_spec() && final(node)@ == node@.insert(value) ==> outcome
                    == root.insert(value),
            decreases *node,
        {
            let ghost here = node@;
            let ghost there = final(node)@;
            if value >= node.elm {
                match node.right {
                    BoxBinTreeNodeRef::Empty => {
                        node.right = BoxBinTreeNodeRef::new(value);
                        proof {
                            let to_leaf = path.push(Side::Right);
                            root.lemma_subtree_step(path, Side::Right);
                            assert(to_leaf.drop_last() =~= path);
                            assert(here.child(Side::Right) is Empty);
                            assert(Tree::<T>::Empty.insert(value) == Tree::leaf(value));
                            assert(node@ == here.with_child(Side::Right, Tree::leaf(value)));
                            assert(T::obeys_partial_cmp_spec() ==> node@ == here.insert(value));
                            assert(root.is_vacancy(to_leaf));
                            assert(outcome == root.with_subtree(to_leaf, Tree::leaf(value)));
                        }
                        return ;
                    },
                    BoxBinTreeNodeRef::Value(ref mut child) => {
                        node = &mut **child;
                        proof {
                            root.lemma_subtree_step(path, Side::Right);
                            assert(path.push(Side::Right).drop_last() =~= path);
                            assert(there == here.with_child(Side::Right, final(node)@));
                            assert(T::obeys_partial_cmp_spec() && final(node)@ == node@.insert(value)
                                ==> there == here.insert(value));
                            path = path.push(Side::Right);
                        }
                    },
                }
            } else {
                match node.left {
                    BoxBinTreeNodeRef::Empty => {
                        node.left = BoxBinTreeNodeRef::new(value);
                        proof {
                            let to_leaf = path.push(Side::Left);
                            root.lemma_subtree_step(path, Side::Left);
                            assert(to_leaf.drop_last() =~= path);
                            assert(here.child(Side::Left) is Empty);
                            assert(Tree::<T>::Empty.insert(value) == Tree::leaf(value));
                            assert(node@ == here.with_child(Side::Left, Tree::leaf(value)));
                            assert(T::obeys_partial_cmp_spec() ==> node@ == here.insert(value));
                            assert(root.is_vacancy(to_leaf));
                            assert(outcome == root.with_subtree(to_leaf, Tree::leaf(value)));
                        }
                        return ;
                    },
                    BoxBinTreeNodeRef::Value(ref mut child) => {
                        node = &mut **child;
                        proof {
                            root.lemma_subtree_step(path, Side::Left);
                            assert(path.push(Side::Left).drop_last() =~= path);
                            assert(there == here.with_child(Side::Left, final(node)@));
                            assert(T::obeys_partial_cmp_spec() && final(node)@ == node@.insert(value)
                                ==> there == here.insert(value));
                            path = path.push(Side::Left);
                        }
                    },
                }
            }
        }
    }

    /// Looks for a node whose element equals `value` and, if the search finds
    /// one, detaches both of its subtrees. The search examines this node
    /// first. A node whose element differs from `value` ends the search in
    /// failure when `value` is greater than its element and it has no right
    /// child, and also when it has no left child; otherwise its right child
    /// (when `value` is greater) and its left child are examined later, in
    /// the order in which they were noted.
    #[verifier::loop_isolation(false)]
    pub fn remove_childs_of(&mut self, value: T) -> (removed: bool)
        ensures
            !removed ==> final(self)@ == old(self)@,
            removed ==> exists|path: Path|
                (#[trigger] old(self)@.subtree(path)) is Node && final(self)@ == old(self)@.with_subtree(
                    path,
                    old(self)@.subtree(path).pruned(),
                ),
            comparisons_are_specified::<T>() ==> {
                &&& removed == (old(self)@.target(value) is Some)
                &&& final(self)@ == old(self)@.without_children_of(value)
            },
    {
        let ghost root = self@;
        let ghost outcome = final(self)@;
        let ghost mut paths: Seq<Path> = seq![Seq::<Side>::empty()];
        let ghost mut ends: Seq<Tree<T>> = seq![outcome];
        let mut stack: Vec<&mut BoxBinTreeNode<T>> = Vec::new();
        stack.push(self);
        loop
            invariant
                stack@.len() == paths.len(),
                ends.len() == paths.len(),
                paths.len() > 0,
                forall|i: int| 0 <= i < paths.len() ==> stack@[i]@ == root.subtree(#[trigger] paths[i]),
                forall|i: int| 0 <= i < paths.len() ==> final(stack@[i])@ == #[trigger] ends[i],
                comparisons_are_specified::<T>() ==> root.search(paths, value) == root.target(value),
                rebuilds(root, outcome, paths, ends),
            decreases root.pending(paths),
        {
            let ghost before = stack@;
            let node = stack.pop().unwrap();
            let ghost path = paths.last();
            let ghost rest = paths.drop_last();
            let ghost rest_ends = ends.drop_last();
            let ghost here = node@;
            let ghost popped = stack@;
            let ghost last = paths.len() - 1;
            proof {
                assert(popped =~= before.drop_last());
                assert(paths[last] == path);
                assert(here == root.subtree(path));
                assert(final(node)@ == ends[last]);
                assert(here is Node);
            }
            if node.elm == value {
                node.left = BoxBinTreeNodeRef::Empty;
                node.right = BoxBinTreeNodeRef::Empty;
                proof {
                    assert(node@ == here.pruned());
                    assert(ends[last] == here.pruned());
                    assert forall|i: int| 0 <= i < paths.len() && i != last implies ends[i]
                        == root.subtree(#[trigger] paths[i]) by {
                        assert(popped[i] == before[i]);
                        assert(has_resolved(stack@[i]));
                    }
                    assert(others_untouched(root, paths, ends, last));
                    assert(outcome == root.with_subtree(path, here.pruned()));
                    if comparisons_are_specified::<T>() {
                        assert(here->elm.eq_spec(&value));
                        assert(root.search(paths, value) == Some(path));
                    }
                }
                return true;
            }
            let greater = value > node.elm;
            if greater {
                match node.right {
                    BoxBinTreeNodeRef::Value(ref mut child) => {
                        let below = &mut **child;
                        stack.insert(0, below);
                    },
                    _ => {
                        proof {
                            assert(here.child(Side::Right) is Empty);
                            assert(ends[last] == here);
                            assert forall|i: int| 0 <= i < paths.len() && i != last implies ends[i]
                                == root.subtree(#[trigger] paths[i]) by {
                                assert(popped[i] == before[i]);
                                assert(has_resolved(stack@[i]));
                            }
                            assert(others_untouched(root, paths, ends, last));
                            root.lemma_with_subtree_same(path);
                            assert(outcome == root);
                            if comparisons_are_specified::<T>() {
                                assert(!here->elm.eq_spec(&value));
                                assert(value.is_gt(&here->elm));
                                assert(root.search(paths, value) is None);
                            }
                        }
                        return false;
                    },
                }
            }
            match node.left {
                BoxBinTreeNodeRef::Value(ref mut child) => {
                    let below = &mut **child;
                    stack.insert(0, below);
                },
                _ => {
                    proof {
                        assert(here.child(Side::Left) is Empty);
                        assert(greater ==> has_resolved(stack@[0]));
                        assert(ends[last] == here);
                        assert forall|i: int| 0 <= i < paths.len() && i != last implies ends[i]
                            == root.subtree(#[trigger] paths[i]) by {
                            assert(popped[i] == before[i]);
                            if greater {
                                assert(stack@[i + 1] == popped[i]);
                                assert(has_resolved(stack@[i + 1]));
                            } else {
                                assert(has_resolved(stack@[i]));
                            }
                        }
                        assert(others_untouched(root, paths, ends, last));
                        root.lemma_with_subtree_same(path);
                        assert(outcome == root);
                        if comparisons_are_specified::<T>() {
                            assert(!here->elm.eq_spec(&value));
                            assert(root.search(paths, value) is None);
                        }
                    }
                    return false;
                },
            }
            proof {
                let to_left = path.push(Side::Left);
                let to_right = path.push(Side::Right);
                let left_end = final(stack@[0])@;
                root.lemma_subtree_step(path, Side::Left);
                root.lemma_subtree_step(path, Side::Right);
                assert(paths.drop_last() == rest);
                if greater {
                    let right_end = final(stack@[1])@;
                    assert(stack@.len() == popped.len() + 2);
                    assert(stack@[0]@ == here.child(Side::Left));
                    assert(stack@[1]@ == here.child(Side::Right));
                    assert(forall|i: int| 0 <= i < popped.len() ==> stack@[i + 2] == popped[i]);
                    assert(ends[last] == here.with_child(Side::Right, right_end).with_child(
                        Side::Left,
                        left_end,
                    ));
                    lemma_descend_both(root, outcome, paths, ends, left_end, right_end);
                    root.lemma_pending_front(to_right, rest);
                    root.lemma_pending_front(to_left, seq![to_right] + rest);
                    paths = seq![to_left] + (seq![to_right] + rest);
                    ends = seq![left_end] + (seq![right_end] + rest_ends);
                    assert forall|i: int| 0 <= i < paths.len() implies stack@[i]@ == root.subtree(
                        #[trigger] paths[i],
                    ) by {
                        if i >= 2 {
                            assert(stack@[i] == popped[i - 2]);
                            assert(paths[i] == rest[i - 2]);
                        }
                    }
                    assert forall|i: int| 0 <= i < paths.len() implies final(stack@[i])@
                        == #[trigger] ends[i] by {
                        if i >= 2 {
                            assert(stack@[i] == popped[i - 2]);
                            assert(ends[i] == rest_ends[i - 2]);
                        }
                    }
                } else {
                    assert(stack@.len() == popped.len() + 1);
                    assert(stack@[0]@ == here.child(Side::Left));
                    assert(forall|i: int| 0 <= i < popped.len() ==> stack@[i + 1] == popped[i]);
                    assert(ends[last] == here.with_child(Side::Left, left_end));
                    lemma_descend_left(root, outcome, paths, ends, left_end);
                    root.lemma_pending_front(to_left, rest);
                    paths = seq![to_left] + rest;
                    ends = seq![left_end] + rest_ends;
                    assert forall|i: int| 0 <= i < paths.len() implies stack@[i]@ == root.subtree(
                        #[trigger] paths[i],
                    ) by {
                        if i >= 1 {
                            assert(stack@[i] == popped[i - 1]);
                            assert(paths[i] == rest[i - 1]);
                        }
                    }
                    assert forall|i: int| 0 <= i < paths.len() implies final(stack@[i])@
                        == #[trigger] ends[i] by {
                        if i >= 1 {
                            assert(stack@[i] == popped[i - 1]);
                            assert(ends[i] == rest_ends[i - 1]);
                        }
                    }
                }
            }
        }
    }
}

} // verus!
