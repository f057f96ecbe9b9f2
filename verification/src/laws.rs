//! What holds of insertion and removal on every tree, proved over the model.

use crate::model::examined_before;
use crate::model::level_index;
use crate::model::Path;
use crate::model::Side;
use crate::model::Tree;
use std::cmp::Ordering;
use vstd::prelude::*;
use vstd::std_specs::cmp::PartialEqIs;
use vstd::std_specs::cmp::PartialOrdIs;
use vstd::std_specs::cmp::PartialOrdSpec;

verus! {

/// Insertion attaches the value as a new leaf at the end of the walk that
/// turns right at a node when the value is greater than or equal to the
/// node's element and left otherwise, and that ends at the first vacant
/// position. Nothing else in the tree changes.
pub proof fn lemma_insert_placement<T: PartialOrd>(tree: Tree<T>, value: T)
    ensures
        tree.subtree(tree.insert_path(value)) is Empty,
        tree.insert(value) == tree.with_subtree(tree.insert_path(value), Tree::leaf(value)),
        tree.insert(value).subtree(tree.insert_path(value)) == Tree::leaf(value),
        tree is Node ==> tree.is_vacancy(tree.insert_path(value)),
        forall|i: int|
            0 <= i < tree.insert_path(value).len() ==> {
                let node = tree.subtree(#[trigger] tree.insert_path(value).take(i));
                &&& node is Node
                &&& tree.insert_path(value)[i] == Side::Right <==> value.is_ge(&node->elm)
            },
    decreases tree,
{
    let path = tree.insert_path(value);
    match tree {
        Tree::Empty => {
            assert(path =~= Seq::<Side>::empty());
        },
        Tree::Node { elm, left, right } => {
            let side = if value.is_ge(&elm) {
                Side::Right
            } else {
                Side::Left
            };
            let below = tree.child(side);
            let rest = below.insert_path(value);
            assert(path == seq![side] + rest);
            lemma_insert_placement(below, value);
            tree.lemma_subtree_front(side, rest);
            tree.lemma_with_subtree_front(side, rest, Tree::leaf(value));
            assert(tree.insert(value) == tree.with_child(side, below.insert(value)));
            tree.insert(value).lemma_subtree_front(side, rest);
            if rest.len() > 0 {
                assert(path.drop_last() =~= seq![side] + rest.drop_last());
                tree.lemma_subtree_front(side, rest.drop_last());
            } else {
                assert(path.drop_last() =~= Seq::<Side>::empty());
            }
            assert forall|i: int| 0 <= i < path.len() implies {
                let node = tree.subtree(#[trigger] path.take(i));
                &&& node is Node
                &&& path[i] == Side::Right <==> value.is_ge(&node->elm)
            } by {
                if i == 0 {
                    assert(path.take(0) =~= Seq::<Side>::empty());
                } else {
                    assert(path.take(i) =~= seq![side] + rest.take(i - 1));
                    tree.lemma_subtree_front(side, rest.take(i - 1));
                    assert(path[i] == rest[i - 1]);
                }
            }
        },
    }
}

/// However many values have been inserted into a tree that began as a
/// single node, the next one is attached as a new leaf at a vacant position,
/// at the end of the walk that turns right at a node when the value is
/// greater than or equal to the node's element and left otherwise.
pub proof fn lemma_every_insert_places_a_leaf<T: PartialOrd>(first: T, values: Seq<T>, k: int)
    requires
        0 <= k < values.len(),
    ensures
        ({
            let before = Tree::leaf(first).insert_all(values.take(k));
            let after = Tree::leaf(first).insert_all(values.take(k + 1));
            let path = before.insert_path(values[k]);
            &&& before.is_vacancy(path)
            &&& after == before.with_subtree(path, Tree::leaf(values[k]))
            &&& after.subtree(path) == Tree::leaf(values[k])
            &&& forall|i: int|
                0 <= i < path.len() ==> {
                    let node = before.subtree(#[trigger] path.take(i));
                    &&& node is Node
                    &&& path[i] == Side::Right <==> values[k].is_ge(&node->elm)
                }
        }),
{
    let before = Tree::leaf(first).insert_all(values.take(k));
    assert(values.take(k + 1).drop_last() =~= values.take(k));
    assert(values.take(k + 1).last() == values[k]);
    lemma_insert_all_keeps_root(Tree::leaf(first), values.take(k));
    lemma_insert_placement(before, values[k]);
}

/// Insertions leave a node a node, with the element it had.
pub proof fn lemma_insert_all_keeps_root<T: PartialOrd>(tree: Tree<T>, values: Seq<T>)
    requires
        tree is Node,
    ensures
        tree.insert_all(values) is Node,
        tree.insert_all(values)->elm == tree->elm,
        tree.insert_all(values).size() == tree.size() + values.len(),
    decreases values.len(),
{
    if values.len() > 0 {
        lemma_insert_all_keeps_root(tree, values.drop_last());
        lemma_insert_grows(tree.insert_all(values.drop_last()), values.last());
    }
}

/// A value that compares equal to the element of a node on its walk turns
/// right at that node.
pub proof fn lemma_ties_go_right<T: PartialOrd>(tree: Tree<T>, value: T, i: int)
    requires
        0 <= i < tree.insert_path(value).len(),
        value.partial_cmp_spec(&tree.subtree(tree.insert_path(value).take(i))->elm) == Some(
            Ordering::Equal,
        ),
    ensures
        tree.insert_path(value)[i] == Side::Right,
{
    lemma_insert_placement(tree, value);
}

/// A value that compares equal to the element of the node it is inserted at
/// goes into the right subtree and leaves the left one as it is.
pub proof fn lemma_tie_at_root<T: PartialOrd>(tree: Tree<T>, value: T)
    requires
        tree is Node,
        value.partial_cmp_spec(&tree->elm) == Some(Ordering::Equal),
    ensures
        tree.insert(value).child(Side::Left) == tree.child(Side::Left),
        tree.insert(value).child(Side::Right) == tree.child(Side::Right).insert(value),
        tree.insert(value)->elm == tree->elm,
{
}

/// Insertion adds exactly one node.
pub proof fn lemma_insert_grows<T: PartialOrd>(tree: Tree<T>, value: T)
    ensures
        tree.insert(value).size() == tree.size() + 1,
    decreases tree,
{
    match tree {
        Tree::Empty => {
            assert(Tree::leaf(value).size() == 1) by {
                reveal_with_fuel(Tree::size, 2);
            }
        },
        Tree::Node { elm, left, right } => {
            if value.is_ge(&elm) {
                lemma_insert_grows(*right, value);
            } else {
                lemma_insert_grows(*left, value);
            }
        },
    }
}

/// What a search finds from a worklist of paths that it can come to note is
/// again such a path, and ends in a node whose element equals the value.
proof fn lemma_search_sound<T: PartialOrd>(tree: Tree<T>, queue: Seq<Path>, value: T)
    requires
        forall|k: int| 0 <= k < queue.len() ==> tree.admits(#[trigger] queue[k], value),
    ensures
        tree.search(queue, value) matches Some(found) ==> {
            &&& tree.admits(found, value)
            &&& tree.subtree(found) is Node
            &&& tree.subtree(found)->elm.is_eq(&value)
        },
    decreases tree.pending(queue),
{
    if queue.len() > 0 {
        let path = queue.last();
        let rest = queue.drop_last();
        let node = tree.subtree(path);
        let to_left = path.push(Side::Left);
        let to_right = path.push(Side::Right);
        if node is Node && !node->elm.is_eq(&value) && node.child(Side::Left) is Node && (
        value.is_gt(&node->elm) ==> node.child(Side::Right) is Node) {
            tree.lemma_subtree_step(path, Side::Left);
            tree.lemma_subtree_step(path, Side::Right);
            tree.lemma_pending_front(to_right, rest);
            tree.lemma_pending_front(to_left, seq![to_right] + rest);
            tree.lemma_pending_front(to_left, rest);
            assert(tree.admits(path, value));
            assert(tree.admits(to_left, value)) by {
                lemma_admits_step(tree, path, Side::Left, value);
            }
            if value.is_gt(&node->elm) {
                assert(tree.admits(to_right, value)) by {
                    lemma_admits_step(tree, path, Side::Right, value);
                }
                let next = seq![to_left] + (seq![to_right] + rest);
                assert forall|k: int| 0 <= k < next.len() implies tree.admits(
                    #[trigger] next[k],
                    value,
                ) by {
                    if k >= 2 {
                        assert(next[k] == queue[k - 2]);
                    }
                }
                lemma_search_sound(tree, next, value);
            } else {
                let next = seq![to_left] + rest;
                assert forall|k: int| 0 <= k < next.len() implies tree.admits(
                    #[trigger] next[k],
                    value,
                ) by {
                    if k >= 1 {
                        assert(next[k] == queue[k - 1]);
                    }
                }
                lemma_search_sound(tree, next, value);
            }
        }
    }
}

/// A path that the search can come to note, extended by a step that the
/// search takes, is again such a path.
proof fn lemma_admits_step<T: PartialOrd>(tree: Tree<T>, path: Path, side: Side, value: T)
    requires
        tree.admits(path, value),
        tree.passes(path, side, value),
    ensures
        tree.admits(path.push(side), value),
{
    let longer = path.push(side);
    assert forall|i: int| 0 <= i < longer.len() implies tree.passes(
        #[trigger] longer.take(i),
        longer[i],
        value,
    ) by {
        if i < path.len() {
            assert(longer.take(i) =~= path.take(i));
        } else {
            assert(longer.take(i) =~= path);
        }
    }
}

/// The node whose children a removal detaches holds an element equal to the
/// value, and the search could reach it: every node above it on the way from
/// the root holds a different element and has a left child, and the way
/// turns right only at nodes whose element the value is greater than.
pub proof fn lemma_target_sound<T: PartialOrd>(tree: Tree<T>, value: T)
    ensures
        tree.target(value) matches Some(found) ==> {
            &&& tree.admits(found, value)
            &&& tree.subtree(found) is Node
            &&& tree.subtree(found)->elm.is_eq(&value)
        },
{
    let start = seq![Seq::<Side>::empty()];
    assert(tree.admits(start[0], value));
    lemma_search_sound(tree, start, value);
}

/// After a removal that found its node, that node holds the element it had
/// and has no children.
pub proof fn lemma_removal_clears<T: PartialOrd>(tree: Tree<T>, value: T)
    requires
        tree.target(value) is Some,
    ensures
        tree.without_children_of(value).subtree(tree.target(value)->0) == Tree::leaf(
            tree.subtree(tree.target(value)->0)->elm,
        ),
        tree.without_children_of(value).subtree(tree.target(value)->0).is_leaf(),
{
    let found = tree.target(value)->0;
    lemma_target_sound(tree, value);
    if found.len() > 0 {
        tree.lemma_node_above_last(found);
    }
    tree.lemma_subtree_of_with_subtree(found, tree.subtree(found).pruned());
}

/// A removal asked of a node whose own element equals the value detaches
/// that node's children, whatever lies below.
pub proof fn lemma_match_at_root<T: PartialOrd>(tree: Tree<T>, value: T)
    requires
        tree is Node,
        tree->elm.is_eq(&value),
    ensures
        tree.target(value) == Some(Seq::<Side>::empty()),
        tree.without_children_of(value) == Tree::leaf(tree->elm),
{
    let start = seq![Seq::<Side>::empty()];
    assert(start.last() == Seq::<Side>::empty());
    assert(tree.subtree(start.last()) == tree);
}

/// A removal asked of a node that holds a different element and has no left
/// child finds nothing and changes nothing, whatever the right subtree holds.
pub proof fn lemma_vacant_left_fails<T: PartialOrd>(tree: Tree<T>, value: T)
    requires
        tree is Node,
        !tree->elm.is_eq(&value),
        tree.child(Side::Left) is Empty,
    ensures
        tree.target(value) is None,
        tree.without_children_of(value) == tree,
{
    let start = seq![Seq::<Side>::empty()];
    assert(start.last() == Seq::<Side>::empty());
    assert(tree.subtree(start.last()) == tree);
}

/// Whether a worklist is one that a search from the root can have arrived
/// at: its paths are reached by the search and stand in the order in which
/// they are examined, they lie on the level of the last entry or on the one
/// below, those on the level below hang from nodes examined before the last
/// entry, and every node that the search reaches and that would end it has
/// an entry on its way from the root.
spec fn in_order<T: PartialOrd>(tree: Tree<T>, queue: Seq<Path>, value: T) -> bool {
    let head = queue.last();
    &&& queue.len() > 0
    &&& forall|k: int| 0 <= k < queue.len() ==> tree.reaches(#[trigger] queue[k], value)
    &&& forall|k: int, l: int|
        0 <= k < l < queue.len() ==> examined_before(#[trigger] queue[l], #[trigger] queue[k])
    &&& forall|k: int| 0 <= k < queue.len() ==> (#[trigger] queue[k]).len() <= head.len() + 1
    &&& forall|k: int|
        0 <= k < queue.len() && (#[trigger] queue[k]).len() == head.len() + 1 ==> level_index(
            queue[k].drop_last(),
        ) < level_index(head)
    &&& forall|q: Path| #[trigger]
        tree.reaches(q, value) && tree.subtree(q).decides(value) ==> covered(queue, q)
}

/// Whether some entry of the worklist lies on the way from the root to the
/// end of `path`.
spec fn covered(queue: Seq<Path>, path: Path) -> bool {
    exists|k: int| 0 <= k < queue.len() && (#[trigger] queue[k]).is_prefix_of(path)
}

/// The worklist that follows one whose last entry does not end the search.
spec fn next_queue<T: PartialOrd>(tree: Tree<T>, queue: Seq<Path>, value: T) -> Seq<Path> {
    let head = queue.last();
    let rest = queue.drop_last();
    if value.is_gt(&tree.subtree(head)->elm) {
        seq![head.push(Side::Left)] + (seq![head.push(Side::Right)] + rest)
    } else {
        seq![head.push(Side::Left)] + rest
    }
}

/// A step of the search keeps the worklist in order.
proof fn lemma_in_order_step<T: PartialOrd>(tree: Tree<T>, queue: Seq<Path>, value: T)
    requires
        in_order(tree, queue, value),
        tree.subtree(queue.last()).continues(value),
    ensures
        in_order(tree, next_queue(tree, queue, value), value),
{
    let head = queue.last();
    let rest = queue.drop_last();
    let last = queue.len() - 1;
    let node = tree.subtree(head);
    let greater = value.is_gt(&node->elm);
    let to_left = head.push(Side::Left);
    let to_right = head.push(Side::Right);
    let next = next_queue(tree, queue, value);
    let shift: int = if greater {
        2
    } else {
        1
    };
    let new_head = next.last();
    assert(queue[last] == head);
    assert(tree.reaches(head, value));
    assert(to_left.drop_last() =~= head);
    assert(to_right.drop_last() =~= head);
    assert(level_index(to_left) == 2 * level_index(head) + 1);
    assert(level_index(to_right) == 2 * level_index(head));
    tree.lemma_subtree_step(head, Side::Left);
    tree.lemma_subtree_step(head, Side::Right);
    lemma_admits_step(tree, head, Side::Left, value);
    if greater {
        lemma_admits_step(tree, head, Side::Right, value);
    }
    assert(next.len() == rest.len() + shift);
    assert(next[0] == to_left);
    assert(greater ==> next[1] == to_right);
    assert forall|i: int| shift <= i < next.len() implies #[trigger] next[i] == queue[i - shift] by {
        assert(next[i] == rest[i - shift]);
    }
    // The new last entry lies on the level of the old one or just below it.
    if rest.len() > 0 {
        assert(new_head == queue[last - 1]);
        assert(examined_before(queue[last], queue[last - 1]));
        assert(queue[last - 1].len() <= head.len() + 1);
    } else {
        assert(new_head.len() == head.len() + 1);
    }
    assert(head.len() <= new_head.len() <= head.len() + 1);
    assert(new_head.len() == head.len() ==> level_index(head) < level_index(new_head));

    assert forall|k: int| 0 <= k < next.len() implies tree.reaches(#[trigger] next[k], value) by {
        if k >= shift {
            assert(next[k] == queue[k - shift]);
        }
    }
    assert forall|k: int, l: int| 0 <= k < l < next.len() implies examined_before(
        #[trigger] next[l],
        #[trigger] next[k],
    ) by {
        if k >= shift {
            assert(next[k] == queue[k - shift]);
            assert(next[l] == queue[l - shift]);
        } else if l >= shift {
            let old = queue[l - shift];
            assert(next[l] == old);
            assert(next[k].len() == head.len() + 1);
            assert(level_index(next[k]) >= 2 * level_index(head));
            if l - shift < last {
                assert(examined_before(queue[last], queue[l - shift]));
            }
            assert(old.len() <= head.len() + 1);
            if old.len() == head.len() + 1 {
                assert(level_index(old.drop_last()) < level_index(head));
                assert(level_index(old) <= 2 * level_index(old.drop_last()) + 1);
            }
        }
    }
    assert forall|k: int| 0 <= k < next.len() implies (#[trigger] next[k]).len() <= new_head.len()
        + 1 by {
        if k >= shift {
            assert(next[k] == queue[k - shift]);
        }
    }
    assert forall|k: int|
        0 <= k < next.len() && (#[trigger] next[k]).len() == new_head.len() + 1 implies level_index(
        next[k].drop_last(),
    ) < level_index(new_head) by {
        if k >= shift {
            assert(next[k] == queue[k - shift]);
        }
    }
    assert forall|q: Path| #[trigger]
        tree.reaches(q, value) && tree.subtree(q).decides(value) implies covered(next, q) by {
        assert(covered(queue, q));
        let k = choose|k: int| 0 <= k < queue.len() && (#[trigger] queue[k]).is_prefix_of(q);
        if k < last {
            assert(next[k + shift] == queue[k]);
        } else {
            if q.len() == head.len() {
                assert(q =~= head);
            }
            let depth = head.len() as int;
            let side = q[depth];
            assert(q.take(depth) =~= head);
            assert(tree.passes(q.take(depth), q[depth], value));
            assert(head.push(side).is_prefix_of(q)) by {
                assert(head.push(side) =~= q.subrange(0, depth + 1));
            }
            if side == Side::Left {
                assert(next[0].is_prefix_of(q));
            } else {
                assert(next[1].is_prefix_of(q));
            }
        }
    }
}

/// From a worklist in order, the search takes its outcome from the first
/// node, in the order of examination, among those that it reaches and that
/// end it.
proof fn lemma_search_first<T: PartialOrd>(tree: Tree<T>, queue: Seq<Path>, value: T) -> (decisive:
    Path)
    requires
        in_order(tree, queue, value),
    ensures
        tree.reaches(decisive, value),
        tree.subtree(decisive).decides(value),
        forall|other: Path| #[trigger]
            tree.reaches(other, value) && tree.subtree(other).decides(value) && other != decisive
                ==> examined_before(decisive, other),
        tree.search(queue, value) == if tree.subtree(decisive)->elm.is_eq(&value) {
            Some(decisive)
        } else {
            None::<Path>
        },
    decreases tree.pending(queue),
{
    let head = queue.last();
    let rest = queue.drop_last();
    let last = queue.len() - 1;
    let node = tree.subtree(head);
    assert(tree.reaches(queue[last], value));
    if node.decides(value) {
        assert forall|other: Path| #[trigger]
            tree.reaches(other, value) && tree.subtree(other).decides(value) && other
                != head implies examined_before(head, other) by {
            assert(covered(queue, other));
            let k = choose|k: int| 0 <= k < queue.len() && (#[trigger] queue[k]).is_prefix_of(other);
            if k == last {
                if other.len() == head.len() {
                    assert(other =~= head);
                }
            } else {
                assert(examined_before(queue[last], queue[k]));
                if other.len() == queue[k].len() {
                    assert(other =~= queue[k]);
                }
            }
        }
        head
    } else {
        let to_left = head.push(Side::Left);
        let to_right = head.push(Side::Right);
        tree.lemma_subtree_step(head, Side::Left);
        tree.lemma_subtree_step(head, Side::Right);
        tree.lemma_pending_front(to_right, rest);
        tree.lemma_pending_front(to_left, seq![to_right] + rest);
        tree.lemma_pending_front(to_left, rest);
        lemma_in_order_step(tree, queue, value);
        lemma_search_first(tree, next_queue(tree, queue, value), value)
    }
}

/// A removal takes its outcome from one node: the first, in the order of
/// examination (level by level from the root, and within a level from the
/// right to the left), among the nodes that the search reaches and that end
/// it. The removal succeeds, at that node, when the node's element equals the
/// value, and fails otherwise.
pub proof fn lemma_removal_takes_first<T: PartialOrd>(tree: Tree<T>, value: T) -> (decisive: Path)
    requires
        tree is Node,
    ensures
        tree.reaches(decisive, value),
        tree.subtree(decisive).decides(value),
        forall|other: Path| #[trigger]
            tree.reaches(other, value) && tree.subtree(other).decides(value) && other != decisive
                ==> examined_before(decisive, other),
        tree.target(value) == if tree.subtree(decisive)->elm.is_eq(&value) {
            Some(decisive)
        } else {
            None::<Path>
        },
{
    let start = seq![Seq::<Side>::empty()];
    assert(tree.admits(start[0], value));
    assert forall|q: Path| #[trigger]
        tree.reaches(q, value) && tree.subtree(q).decides(value) implies covered(start, q) by {
        assert(start[0] =~= q.subrange(0, 0));
        assert(start[0].is_prefix_of(q));
    }
    lemma_search_first(tree, start, value)
}

} // verus!
