use box_bin_tree::E;
use std::cmp::Ordering;

#[test]
fn elements_are_equal_when_their_integers_are() {
    assert!(E::new(3) == E::new(3));
    assert!(E::new(3) != E::new(4));
}

#[test]
fn elements_are_ordered_by_their_integers() {
    assert!(E::new(1) < E::new(2));
    assert!(E::new(2) > E::new(1));
    assert!(E::new(2) >= E::new(2));
    assert!(E::new(-5) <= E::new(-5));
    assert!(!(E::new(2) > E::new(2)));
    assert_eq!(E::new(1).partial_cmp(&E::new(2)), Some(Ordering::Less));
    assert_eq!(E::new(2).partial_cmp(&E::new(2)), Some(Ordering::Equal));
    assert_eq!(E::new(3).partial_cmp(&E::new(2)), Some(Ordering::Greater));
    assert_eq!(E::new(i32::MIN).partial_cmp(&E::new(i32::MAX)), Some(Ordering::Less));
}

#[test]
fn total_order_agrees_with_partial_order() {
    for a in -3..4 {
        for b in -3..4 {
            assert_eq!(Some(E::new(a).cmp(&E::new(b))), E::new(a).partial_cmp(&E::new(b)));
        }
    }
}

#[test]
fn set_replaces_the_integer() {
    let mut e = E::new(4);
    e.set(45);
    assert!(e == E::new(45));
    assert!(e != E::new(4));
    e.set(-1);
    assert!(e == E::new(-1));
}
