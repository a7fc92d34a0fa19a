use data_structures::BinarySearchTree;

#[test]
fn inserts_build_the_expected_shape() {
    let mut tree = BinarySearchTree::new(50);
    tree.insert(10);
    tree.insert(2);
    tree.insert(75);
    tree.insert(15);
    tree.insert(100);

    assert_eq!(tree.value(), 50);

    let left = tree.left().unwrap();
    assert_eq!(left.value(), 10);
    assert_eq!(left.left().unwrap().value(), 2);
    assert_eq!(left.right().unwrap().value(), 15);

    let right = tree.right().unwrap();
    assert_eq!(right.value(), 75);
    assert!(right.left().is_none());
    assert_eq!(right.right().unwrap().value(), 100);

    assert!(tree.find(15).is_some());
    assert!(tree.find(99).is_none());
}

#[test]
fn inserting_twice_leaves_the_tree_identical() {
    let mut once = BinarySearchTree::new(20);
    once.insert(10);
    once.insert(30);

    let mut twice = BinarySearchTree::new(20);
    twice.insert(10);
    twice.insert(30);
    twice.insert(10);

    assert_eq!(once, twice);
}

#[test]
fn find_answers_for_inserted_and_missing_values() {
    let mut tree = BinarySearchTree::new(8);
    tree.insert(3);
    tree.insert(12);
    tree.insert(5);

    assert!(tree.find(8).is_some());
    assert!(tree.find(3).is_some());
    assert!(tree.find(12).is_some());
    assert!(tree.find(5).is_some());

    assert!(tree.find(4).is_none());
    assert!(tree.find(-1).is_none());
    assert!(tree.find(100).is_none());
}

#[test]
fn find_returns_the_matching_subtree() {
    let mut tree = BinarySearchTree::new(10);
    tree.insert(50);
    tree.insert(27);

    let subtree = tree.find(50).unwrap();
    assert_eq!(subtree.value(), 50);
    assert_eq!(subtree.left().unwrap().value(), 27);
}

#[test]
fn removing_a_singleton_empties_the_tree() {
    let tree = BinarySearchTree::new(7);
    assert!(tree.remove(7).is_none());
}

#[test]
fn removing_a_missing_value_changes_nothing() {
    let mut tree = BinarySearchTree::new(20);
    tree.insert(10);
    tree.insert(30);

    let mut same = BinarySearchTree::new(20);
    same.insert(10);
    same.insert(30);

    let tree = tree.remove(99).unwrap();
    assert_eq!(tree, same);

    let tree = tree.remove(15).unwrap();
    assert_eq!(tree, same);
}

#[test]
fn one_child_removal_keeps_the_child() {
    let mut tree = BinarySearchTree::new(20);
    tree.insert(10);
    tree.insert(5);

    let tree = tree.remove(10).unwrap();
    assert!(tree.find(5).is_some());
    assert!(tree.find(10).is_none());
    assert!(tree.find(20).is_some());
    assert_eq!(tree.value(), 20);
}

#[test]
fn two_child_removal_promotes_the_predecessor() {
    let mut tree = BinarySearchTree::new(20);
    tree.insert(10);
    tree.insert(30);
    tree.insert(5);
    tree.insert(15);

    let tree = tree.remove(20).unwrap();

    assert!(tree.find(20).is_none());
    assert!(tree.find(15).is_some());
    assert_eq!(tree.value(), 15);

    assert!(tree.find(10).is_some());
    assert!(tree.find(5).is_some());
    assert!(tree.find(30).is_some());
}

#[test]
fn removal_keeps_every_other_value() {
    let mut tree = BinarySearchTree::new(50);
    tree.insert(10);
    tree.insert(2);
    tree.insert(75);
    tree.insert(15);
    tree.insert(100);

    let tree = tree.remove(10).unwrap();

    assert!(tree.find(10).is_none());
    assert!(tree.find(50).is_some());
    assert!(tree.find(2).is_some());
    assert!(tree.find(75).is_some());
    assert!(tree.find(15).is_some());
    assert!(tree.find(100).is_some());
}

#[test]
fn remove_then_find_is_absent() {
    let mut tree = BinarySearchTree::new(30);
    tree.insert(10);

    let tree = tree.remove(10).unwrap();
    assert!(tree.find(10).is_none());

    assert!(tree.remove(30).is_none());
}

#[test]
fn removing_the_root_repeatedly_drains_the_tree() {
    let mut tree = BinarySearchTree::new(2);
    tree.insert(1);
    tree.insert(3);

    let tree = tree.remove(2).unwrap();
    assert!(tree.find(2).is_none());
    assert!(tree.find(1).is_some());
    assert!(tree.find(3).is_some());

    let tree = tree.remove(1).unwrap();
    assert!(tree.find(1).is_none());
    assert!(tree.find(3).is_some());

    assert!(tree.remove(3).is_none());
}
