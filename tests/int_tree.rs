use bst::int_tree::BST;
use bst::node::{Node, Way};

#[test]
fn first_test_empty() {
    let bst: BST = Default::default();
    assert_eq!(bst.length(), 0);
}

#[test]
fn first_test_insert() {
    let mut bst: BST = Default::default();
    for i in 0..10000 {
        bst.insert(i);
    }
    assert_eq!(bst.length(), 10000)
}

#[test]
fn first_test_search() {
    let mut bst: BST = Default::default();
    for i in 0..10000 {
        bst.insert(i);
        assert_eq!(bst.search(i), true);
    }
}

#[test]
fn first_test_negative() {
    let mut bst: BST = Default::default();
    for i in 0..10000 {
        bst.insert(i);
        assert_eq!(bst.search(i + 1), false);
    }
}

#[test]
fn int_insert_reports_new_and_duplicate() {
    let mut bst = BST::new();
    assert!(bst.insert(5));
    assert!(bst.insert(3));
    assert!(bst.insert(8));
    assert!(!bst.insert(3));
    assert_eq!(bst.length(), 3);
    assert!(bst.search(3));
    assert!(bst.search(5));
    assert!(bst.search(8));
    assert!(!bst.search(4));
}

#[test]
fn int_extreme_values() {
    let mut bst = BST::new();
    assert!(bst.insert(i32::MAX));
    assert!(bst.insert(i32::MIN));
    assert!(bst.insert(0));
    assert!(!bst.insert(i32::MIN));
    assert_eq!(bst.length(), 3);
    assert!(bst.search(i32::MIN));
    assert!(bst.search(i32::MAX));
    assert!(!bst.search(1));
}

#[test]
fn node_length_counts_subtrees() {
    let mut n = Node::new(10);
    assert_eq!(n.length(), 1);
    n.insert(Way::Left, 5);
    assert_eq!(n.length(), 2);
    n.insert(Way::Right, 15);
    assert_eq!(n.length(), 3);
    n.insert(Way::Left, 4);
    assert_eq!(n.length(), 3);
    assert_eq!(n.left.as_ref().map(|l| l.value), Some(4));
    assert_eq!(n.right.as_ref().map(|r| r.value), Some(15));
}
