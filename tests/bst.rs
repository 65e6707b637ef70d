use clrs::binary_tree::bst::BST;
use clrs::binary_tree::{BinaryTree, Node};

// Keys are hundredths: 2.45 is written 245.
fn sample() -> BST {
    let mut tree = BST::new();
    for k in [200, 100, 300, 150, 250, 240, 310] {
        tree.insert(k);
    }
    tree
}

#[test]
fn test_insert() {
    let tree = sample();
    let expected = BinaryTree::new(
        Node(200)
            .l(Node(100).r(Node(150)))
            .r(Node(300).l(Node(250).l(Node(240))).r(Node(310))),
    );
    assert_eq!(tree.tree(), &expected);
}

#[test]
fn test_delete() {
    let mut tree = BST::new();
    for k in [200, 100, 300, 150, 250, 240, 245, 310] {
        tree.insert(k);
    }

    let root = tree.tree().root().unwrap();
    tree.delete(root);
    let expected = BinaryTree::new(
        Node(240)
            .l(Node(100).r(Node(150)))
            .r(Node(300).l(Node(250).l(Node(245))).r(Node(310))),
    );
    assert_eq!(tree.tree(), &expected);

    let right = tree.tree().root().unwrap().right(tree.tree()).unwrap();
    tree.delete(right);
    let expected = BinaryTree::new(
        Node(240)
            .l(Node(100).r(Node(150)))
            .r(Node(310).l(Node(250).l(Node(245)))),
    );
    assert_eq!(tree.tree(), &expected);
}

#[test]
fn test_search() {
    let tree = sample();
    let found = tree.search(310).map(|a| *tree.tree().get(&a).unwrap().value());
    assert_eq!(found, Some(310));
}

#[test]
fn test_min_max() {
    let tree = sample();
    assert_eq!(Some(100), tree.minimum().map(|a| *tree.tree().get(&a).unwrap().value()));
    assert_eq!(Some(310), tree.maximum().map(|a| *tree.tree().get(&a).unwrap().value()));
}

#[test]
fn in_order_is_sorted() {
    let tree = sample();
    let keys: Vec<i64> = tree.tree().in_order().into_iter().copied().collect();
    assert_eq!(keys, vec![100, 150, 200, 240, 250, 300, 310]);
}

#[test]
fn delete_shrinks_by_one_and_forgets_the_key() {
    for key in [200, 100, 300, 150, 250, 240, 310] {
        let mut tree = sample();
        let z = tree.search(key).unwrap();
        tree.delete(z);
        let keys: Vec<i64> = tree.tree().in_order().into_iter().copied().collect();
        assert_eq!(keys.len(), 6);
        assert!(tree.search(key).is_none());
        let mut sorted = keys.clone();
        sorted.sort();
        assert_eq!(keys, sorted);
    }
}

#[test]
fn equal_keys_go_right() {
    let mut tree = BST::new();
    tree.insert(5);
    tree.insert(5);
    tree.insert(5);
    let root = tree.tree().root().unwrap();
    assert!(root.left(tree.tree()).is_none());
    let r = root.right(tree.tree()).unwrap();
    assert!(r.right(tree.tree()).is_some());
    let z = tree.search(5).unwrap();
    tree.delete(z);
    assert_eq!(tree.tree().in_order().len(), 2);
    assert!(tree.search(5).is_some());
}

#[test]
fn empty_tree_has_nothing() {
    let tree = BST::new();
    assert!(tree.search(1).is_none());
    assert!(tree.minimum().is_none());
    assert!(tree.maximum().is_none());
}

#[test]
fn extremes_below_a_node() {
    let tree = sample();
    let right = tree.tree().root().unwrap().right(tree.tree()).unwrap();
    let lo = tree.minimum_from(right);
    assert_eq!(*tree.tree().get(&lo).unwrap().value(), 240);
    let right = tree.tree().root().unwrap().right(tree.tree()).unwrap();
    let hi = tree.maximum_from(right);
    assert_eq!(*tree.tree().get(&hi).unwrap().value(), 310);
}
