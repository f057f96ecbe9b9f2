use box_bin_tree::BoxBinTreeNode;
use box_bin_tree::E;
use std::cell::RefCell;
use std::rc::Rc;

type Handle = Rc<RefCell<E>>;

fn handle(value: i32) -> Handle {
    Rc::new(RefCell::new(E::new(value)))
}

fn holds(node: &BoxBinTreeNode<Handle>, value: i32) -> bool {
    *node.get().borrow() == E::new(value)
}

#[test]
fn mutation_through_a_handle_is_seen_and_nothing_is_reordered() {
    let elems = vec![handle(4), handle(3), handle(5), handle(1)];
    let mut tree = BoxBinTreeNode::new(elems[0].clone());
    for el in &elems[1..] {
        tree.add(el.clone());
    }
    assert!(holds(&tree, 4));

    tree.get().borrow_mut().set(45);

    assert!(holds(&tree, 45));
    assert!(*elems[0].borrow() == E::new(45));
    let left = tree.left().node().expect("3 stays on the left");
    assert!(holds(left, 3));
    let right = tree.right().node().expect("5 stays on the right of 45");
    assert!(holds(right, 5));
    assert!(right.is_empty());
    let below = left.left().node().expect("1 stays below 3");
    assert!(holds(below, 1));
    assert!(left.right().is_empty());
}

#[test]
fn mutation_through_an_outside_handle_is_seen_by_the_tree() {
    let root = handle(4);
    let tree = BoxBinTreeNode::new(root.clone());
    root.borrow_mut().set(45);
    assert!(holds(&tree, 45));
}

#[test]
fn insertion_compares_with_the_current_content() {
    let root = handle(4);
    let mut tree = BoxBinTreeNode::new(root.clone());
    tree.add(handle(3));
    tree.add(handle(5));
    root.borrow_mut().set(45);
    // 10 is less than the root as it is now, and at least 3.
    tree.add(handle(10));
    let left = tree.left().node().expect("3 on the left");
    let placed = left.right().node().expect("10 right of 3");
    assert!(holds(placed, 10));
    let right = tree.right().node().expect("5 on the right");
    assert!(right.is_empty());
}

#[test]
fn removal_compares_with_the_current_content() {
    let three = handle(3);
    let mut tree = BoxBinTreeNode::new(handle(4));
    tree.add(three.clone());
    tree.add(handle(1));
    three.borrow_mut().set(2);
    assert!(!tree.remove_childs_of(handle(3)));
    assert!(tree.left().node().expect("the node stays").left().node().is_some());
    assert!(tree.remove_childs_of(handle(2)));
    let left = tree.left().node().expect("the node stays");
    assert!(holds(left, 2));
    assert!(left.is_empty());
}

#[test]
fn the_tree_holds_one_handle_per_inserted_element() {
    let v1 = handle(4);
    let v2 = handle(3);
    let mut tree = BoxBinTreeNode::new(v1.clone());
    assert_eq!(Rc::strong_count(&v1), 2);
    tree.add(v2.clone());
    assert_eq!(Rc::strong_count(&v2), 2);
    assert!(!tree.remove_childs_of(handle(9)));
    assert_eq!(Rc::strong_count(&v1), 2);
    assert_eq!(Rc::strong_count(&v2), 2);
}

#[test]
fn detached_elements_live_on_while_held_elsewhere() {
    let v1 = handle(4);
    let v2 = handle(3);
    let v3 = handle(5);
    let v4 = handle(1);
    let mut tree = BoxBinTreeNode::new(v1.clone());
    tree.add(v2.clone());
    tree.add(v3.clone());
    tree.add(v4.clone());
    assert_eq!(Rc::strong_count(&v4), 2);

    assert!(tree.remove_childs_of(v2.clone()));

    assert_eq!(Rc::strong_count(&v4), 1);
    assert!(*v4.borrow() == E::new(1));
    assert_eq!(Rc::strong_count(&v1), 2);
    assert_eq!(Rc::strong_count(&v2), 2);
    assert_eq!(Rc::strong_count(&v3), 2);
}

#[test]
fn an_element_outlives_the_rebinding_of_the_outside_handle() {
    let mut v4 = handle(1);
    let watch = Rc::downgrade(&v4);
    let mut tree = BoxBinTreeNode::new(handle(4));
    tree.add(handle(3));
    tree.add(v4.clone());
    assert_eq!(Rc::strong_count(&v4), 2);

    v4 = handle(10);

    assert!(*v4.borrow() == E::new(10));
    let kept_alive = watch.upgrade().expect("the tree keeps the element alive");
    assert!(*kept_alive.borrow() == E::new(1));
    drop(kept_alive);
    assert_eq!(watch.strong_count(), 1);
    let kept = tree.left().node().and_then(|n| n.left().node()).expect("1 below 3");
    assert!(holds(kept, 1));

    assert!(tree.remove_childs_of(handle(3)));
    assert!(watch.upgrade().is_none());
}

#[test]
fn detached_elements_without_other_holders_are_released() {
    let mut tree = BoxBinTreeNode::new(handle(4));
    let three = handle(3);
    let one = handle(1);
    let two = handle(2);
    let watch_one = Rc::downgrade(&one);
    let watch_two = Rc::downgrade(&two);
    tree.add(three.clone());
    tree.add(one);
    tree.add(two);
    assert!(watch_one.upgrade().is_some());
    assert!(watch_two.upgrade().is_some());
    assert!(tree.remove_childs_of(three));
    assert!(watch_one.upgrade().is_none());
    assert!(watch_two.upgrade().is_none());
}
