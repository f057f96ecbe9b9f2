use box_bin_tree::BoxBinTreeNode;
use box_bin_tree::BoxBinTreeNodeRef;
use box_bin_tree::E;

/// The shape and contents of a subtree, written out: `.` for a vacant
/// position, `(left value right)` for a node.
fn show_slot(slot: &BoxBinTreeNodeRef<E>, values: &[i32]) -> String {
    match slot.node() {
        None => ".".to_string(),
        Some(node) => show(node, values),
    }
}

fn show(node: &BoxBinTreeNode<E>, values: &[i32]) -> String {
    let held = values
        .iter()
        .find(|v| *node.get() == E::new(**v))
        .expect("the node holds one of the inserted values");
    format!(
        "({} {} {})",
        show_slot(node.left(), values),
        held,
        show_slot(node.right(), values)
    )
}

fn build(values: &[i32]) -> BoxBinTreeNode<E> {
    let mut tree = BoxBinTreeNode::new(E::new(values[0]));
    for v in &values[1..] {
        tree.add(E::new(*v));
    }
    tree
}

/// Insertion as a recursive definition on a plain tree, to hold the library
/// against.
enum Plain {
    Vacant,
    Node(Box<Plain>, i32, Box<Plain>),
}

fn plain_insert(tree: Plain, value: i32) -> Plain {
    match tree {
        Plain::Vacant => Plain::Node(Box::new(Plain::Vacant), value, Box::new(Plain::Vacant)),
        Plain::Node(left, elm, right) => {
            if value >= elm {
                Plain::Node(left, elm, Box::new(plain_insert(*right, value)))
            } else {
                Plain::Node(Box::new(plain_insert(*left, value)), elm, right)
            }
        }
    }
}

fn plain_show(tree: &Plain) -> String {
    match tree {
        Plain::Vacant => ".".to_string(),
        Plain::Node(left, elm, right) => {
            format!("({} {} {})", plain_show(left), elm, plain_show(right))
        }
    }
}

#[test]
fn new_node_is_a_leaf_holding_its_value() {
    let node = BoxBinTreeNode::new(E::new(7));
    assert!(node.is_empty());
    assert!(*node.get() == E::new(7));
    assert!(node.left().is_empty());
    assert!(node.right().is_empty());
    assert!(node.left().node().is_none());
}

#[test]
fn new_slot_holds_a_leaf() {
    let slot = BoxBinTreeNodeRef::new(E::new(7));
    assert!(!slot.is_empty());
    let node = slot.node().expect("an occupied position");
    assert!(node.is_empty());
    assert!(*node.get() == E::new(7));
}

#[test]
fn node_with_a_child_is_not_empty() {
    let mut left_only = BoxBinTreeNode::new(E::new(4));
    left_only.add(E::new(3));
    assert!(!left_only.is_empty());
    let mut right_only = BoxBinTreeNode::new(E::new(4));
    right_only.add(E::new(5));
    assert!(!right_only.is_empty());
}

#[test]
fn insert_three_five_one_then_remove_children_of_three() {
    let mut tree = BoxBinTreeNode::new(E::new(4));
    tree.add(E::new(3));
    assert_eq!(show(&tree, &[4, 3]), "((. 3 .) 4 .)");
    tree.add(E::new(5));
    assert_eq!(show(&tree, &[4, 3, 5]), "((. 3 .) 4 (. 5 .))");
    tree.add(E::new(1));
    assert_eq!(show(&tree, &[4, 3, 5, 1]), "(((. 1 .) 3 .) 4 (. 5 .))");

    assert!(tree.remove_childs_of(E::new(3)));
    assert_eq!(show(&tree, &[4, 3, 5, 1]), "((. 3 .) 4 (. 5 .))");
    let three = tree.left().node().expect("node 3 stays");
    assert!(three.is_empty());
    assert!(*three.get() == E::new(3));
}

#[test]
fn insert_follows_right_if_greater_or_equal_else_left() {
    let values = [8, 3, 10, 1, 6, 14, 4, 7, 13];
    let tree = build(&values);
    assert_eq!(
        show(&tree, &values),
        "(((. 1 .) 3 ((. 4 .) 6 (. 7 .))) 8 (. 10 ((. 13 .) 14 .)))"
    );
}

#[test]
fn insert_descends_past_occupied_right_positions() {
    let values = [1, 2, 3, 4];
    let tree = build(&values);
    assert_eq!(show(&tree, &values), "(. 1 (. 2 (. 3 (. 4 .))))");
}

#[test]
fn insert_descends_past_occupied_left_positions() {
    let values = [4, 3, 2, 1];
    let tree = build(&values);
    assert_eq!(show(&tree, &values), "((((. 1 .) 2 .) 3 .) 4 .)");
}

#[test]
fn insert_agrees_with_the_recursive_definition() {
    let mut seed: u64 = 0x2545_f491_4f6c_dd1d;
    for round in 0..200 {
        let len = 1 + (round % 17);
        let mut values: Vec<i32> = Vec::new();
        for _ in 0..len {
            seed ^= seed << 13;
            seed ^= seed >> 7;
            seed ^= seed << 17;
            values.push((seed % 23) as i32 - 11);
        }
        let tree = build(&values);
        let mut plain = Plain::Node(Box::new(Plain::Vacant), values[0], Box::new(Plain::Vacant));
        for v in &values[1..] {
            plain = plain_insert(plain, *v);
        }
        assert_eq!(show(&tree, &values), plain_show(&plain));
    }
}

#[test]
fn equal_values_go_right() {
    let mut tree = BoxBinTreeNode::new(E::new(4));
    tree.add(E::new(4));
    assert!(tree.left().is_empty());
    let first = tree.right().node().expect("the equal value went right");
    assert!(*first.get() == E::new(4));
    tree.add(E::new(4));
    let first = tree.right().node().expect("the first equal value stays");
    assert!(first.left().is_empty());
    let second = first.right().node().expect("the second equal value went right again");
    assert!(*second.get() == E::new(4));
    assert!(second.is_empty());
    assert!(tree.left().is_empty());
}

#[test]
fn equal_value_goes_right_below_the_root() {
    let values = [4, 2, 2];
    let tree = build(&values);
    assert_eq!(show(&tree, &values), "((. 2 (. 2 .)) 4 .)");
}

#[test]
fn get_returns_the_root_element() {
    let tree = build(&[4, 3, 5, 1]);
    assert!(*tree.get() == E::new(4));
    assert!(*tree.get() != E::new(3));
}
