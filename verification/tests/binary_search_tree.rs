use data_structures::BinarySearchTree;

#[test]
fn create() {
    let tree = BinarySearchTree::new(5);

    assert_eq!(tree.value(), 5);
    assert!(tree.left().is_none());
    assert!(tree.right().is_none());

    let boxed = BinarySearchTree::boxed(10);

    assert_eq!(boxed.value(), 10);
    assert!(boxed.left().is_none());
    assert!(boxed.right().is_none());
}

#[test]
fn insert() {
    let mut tree = BinarySearchTree::new(20);
    tree.insert(10);

    assert!(tree.left().is_some());
    assert!(tree.right().is_none());

    assert!(tree.left().unwrap().left().is_none());

    tree.insert(2);
    assert!(tree.left().unwrap().left().is_some());

    tree.insert(15);
    assert!(tree.left().unwrap().right().is_some());
    assert!(tree.right().is_none());
}
