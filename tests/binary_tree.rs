use clrs::binary_tree::{Anchor, BinaryTree, Node, Side};
use testdrop::TestDrop;

fn pre<T: Copy>(tree: &BinaryTree<T>) -> Vec<T> {
    tree.pre_order().into_iter().copied().collect()
}

fn ino<T: Copy>(tree: &BinaryTree<T>) -> Vec<T> {
    tree.in_order().into_iter().copied().collect()
}

#[test]
fn test_ctor_drop() {
    let td = TestDrop::new();
    let tree = BinaryTree::new(
        Node(td.new_item().1)
            .l(Node(td.new_item().1))
            .r(Node(td.new_item().1)),
    );
    drop(tree);
    assert_eq!(3, td.num_dropped_items());
}

#[test]
fn test_replace_root() {
    let td = TestDrop::new();
    let mut tree = BinaryTree::new(
        Node(td.new_item().1)
            .l(Node(td.new_item().1))
            .r(Node(td.new_item().1)),
    );

    tree.replace_root(Some(Box::new(Node(td.new_item().1))));
    assert_eq!(3, td.num_dropped_items());
    drop(tree);
    assert_eq!(4, td.num_dropped_items());
}

#[test]
fn test_replace_left() {
    let td = TestDrop::new();
    let mut tree = BinaryTree::new(
        Node(td.new_item().1)
            .l(Node(td.new_item().1))
            .r(Node(td.new_item().1)),
    );

    tree.replace_at(
        &Anchor::new(vec![Side::Left]),
        Some(Box::new(Node(td.new_item().1).l(Node(td.new_item().1)))),
    );
    assert_eq!(1, td.num_dropped_items());

    drop(tree);
    assert_eq!(5, td.num_dropped_items());
}

#[test]
fn test_replace_right() {
    let td = TestDrop::new();
    let mut tree = BinaryTree::new(
        Node(td.new_item().1)
            .l(Node(td.new_item().1))
            .r(Node(td.new_item().1)),
    );

    tree.replace_at(
        &Anchor::new(vec![Side::Right]),
        Some(Box::new(Node(td.new_item().1).l(Node(td.new_item().1)))),
    );
    assert_eq!(1, td.num_dropped_items());

    drop(tree);
    assert_eq!(5, td.num_dropped_items());
}

#[test]
fn test_eq() {
    let tree1 = BinaryTree::new(Node('a').l(Node('b').l(Node('c'))).r(Node('d')));
    let mut tree2 = BinaryTree::new(Node('a').l(Node('b').l(Node('c'))).r(Node('d')));
    assert_eq!(tree1, tree2);
    tree2.replace_root(Some(Box::new(Node('e'))));
    assert_ne!(tree1, tree2);
}

#[test]
fn traversal_orders() {
    let tree = BinaryTree::new(Node(1).l(Node(2).l(Node(4)).r(Node(5))).r(Node(3)));
    assert_eq!(ino(&tree), vec![4, 2, 5, 1, 3]);
    assert_eq!(pre(&tree), vec![1, 2, 4, 5, 3]);
    let post: Vec<i32> = tree.post_order().into_iter().copied().collect();
    assert_eq!(post, vec![4, 5, 2, 3, 1]);
    let empty: BinaryTree<i32> = BinaryTree::new_empty();
    assert!(empty.in_order().is_empty());
    assert!(empty.root().is_none());
}

#[test]
fn slot_tags_follow_the_node() {
    let mut tree = BinaryTree::new(Node(1).l(Node(2)).r(Node(3)));
    let root = tree.root().unwrap();
    assert!(tree.get(&root).unwrap().is_root());
    let left = root.left(&tree).unwrap();
    let right = root.right(&tree).unwrap();
    assert!(tree.get(&left).unwrap().is_left());
    assert!(tree.get(&right).unwrap().is_right());
    assert!(left.left(&tree).is_none());
    let node = right.detach(&mut tree);
    assert!(node.is_root());
    assert_eq!(*node.value(), 3);
    assert!(tree.get(&root).unwrap().right().is_none());
    assert_eq!(ino(&tree), vec![2, 1]);
}

#[test]
fn left_then_parent_returns_to_the_node() {
    let tree = BinaryTree::new(Node(1).l(Node(2).r(Node(4))).r(Node(3)));
    let root = tree.root().unwrap();
    assert!(root.parent().is_none());
    let left = root.left(&tree).unwrap();
    assert_eq!(left.parent().unwrap().raw(), root.raw());
    let inner = left.right(&tree).unwrap();
    assert_eq!(inner.parent().unwrap().raw(), left.raw());
    assert_eq!(*tree.get(&inner).unwrap().value(), 4);
}

#[test]
fn node_replace_hands_back_the_old_child() {
    let mut n = Node(1).l(Node(2));
    let old = n.replace_left(Some(Box::new(Node(5))));
    let old = old.unwrap();
    assert_eq!(*old.value(), 2);
    assert!(old.is_root());
    assert_eq!(*n.left().unwrap().value(), 5);
    assert!(n.left().unwrap().is_left());
    let gone = n.replace_right(None);
    assert!(gone.is_none());
    *n.value_mut() = 7;
    assert_eq!(*n.value(), 7);
}

#[test]
fn mutable_traversals_map_every_value() {
    let mut tree = BinaryTree::new(Node(1).l(Node(2)).r(Node(3).r(Node(4))));
    tree.in_order_mut(|x: &i32| x * 10);
    assert_eq!(ino(&tree), vec![20, 10, 30, 40]);
    tree.pre_order_mut(|x: &i32| x + 1);
    assert_eq!(pre(&tree), vec![11, 21, 31, 41]);
    tree.post_order_mut(|x: &i32| x - 1);
    assert_eq!(pre(&tree), vec![10, 20, 30, 40]);
    let root = tree.root().unwrap();
    assert!(tree.get(&root).unwrap().is_root());
    assert!(tree.get(&root.right(&tree).unwrap()).unwrap().is_right());
}

#[test]
fn dropping_a_deep_tree_drops_every_node_once() {
    let td = TestDrop::new();
    let mut node = Node(td.new_item().1);
    for _ in 0..20 {
        node = Node(td.new_item().1).l(node).r(Node(td.new_item().1));
    }
    let tree = BinaryTree::new(node);
    assert_eq!(0, td.num_dropped_items());
    drop(tree);
    assert_eq!(41, td.num_dropped_items());
}

#[test]
fn equality_compares_shape_and_values() {
    let a = BinaryTree::new(Node(1).l(Node(2)));
    let b = BinaryTree::new(Node(1).r(Node(2)));
    let c = BinaryTree::new(Node(1).l(Node(3)));
    assert_ne!(a, b);
    assert_ne!(a, c);
    assert_eq!(a, BinaryTree::new(Node(1).l(Node(2))));
    let empty: BinaryTree<i32> = BinaryTree::new_empty();
    assert_eq!(empty, BinaryTree::new_empty());
    assert_ne!(empty, a);
    assert_eq!(Node(4).l(Node(5)), Node(4).l(Node(5)));
}
