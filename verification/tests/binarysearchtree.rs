use symboltables::binarysearchtree::{BinarySearchTree, Node};
use symboltables::item::GenericItem;

// Items keyed by plain numbers; the payload type parameter is arbitrary.
type NumItem = GenericItem<u64, f64>;

fn with_key(key: u64) -> NumItem {
    NumItem::new(key)
}

#[test]
fn test_binary_search_tree() {
    let mut bst = BinarySearchTree::<NumItem>::default();

    let i1 = with_key(10);
    let i2 = with_key(9);
    let i3 = with_key(15);
    let i4 = with_key(8);

    bst.insert(i1.clone());
    bst.insert(i2.clone());
    bst.insert(i3.clone());
    bst.insert(i4.clone());

    assert_eq!(bst.count(), 4);

    let expected_result = vec![i4, i2, i1, i3];
    let result = bst.show();
    assert_eq!(result, expected_result);

    assert_eq!(bst.search(15), Some(with_key(15)));
    assert_eq!(bst.search(9), Some(with_key(9)));

    // non-existent item
    assert_eq!(bst.search(150), None);
}

#[test]
fn test_rotate_right() {
    let mut bst = BinarySearchTree::<NumItem>::default();

    let i_7 = with_key(7);
    let i_8 = with_key(8);
    let i_9 = with_key(9);
    let i_11 = with_key(11);
    let i_15 = with_key(15);

    //         11
    //        / \
    //       8   15
    //      / \
    //     7   9

    bst.insert(i_11);
    bst.insert(i_15.clone());
    bst.insert(i_8.clone());
    bst.insert(i_9.clone());
    bst.insert(i_7.clone());

    BinarySearchTree::rotate_right(&mut bst.head);

    //        8
    //       / \
    //      7   11
    //         /  \
    //        9    15

    assert_eq!(bst.head.as_ref().unwrap().item, i_8);

    let left_subtree = Node::new(i_7);

    let mut right_subtree = Node::new(with_key(11));
    right_subtree.left = Some(Box::new(Node::new(i_9)));
    right_subtree.right = Some(Box::new(Node::new(i_15)));

    assert_eq!(
        bst.head.as_ref().unwrap().left,
        Some(Box::new(left_subtree))
    );
    assert_eq!(
        bst.head.as_ref().unwrap().right,
        Some(Box::new(right_subtree))
    );
}

#[test]
fn test_rotate_left() {
    let mut bst = BinarySearchTree::<NumItem>::default();

    let i_7 = with_key(7);
    let i_8 = with_key(8);
    let i_9 = with_key(9);
    let i_11 = with_key(11);

    //         7
    //        / \
    //           9
    //          / \
    //         8  11

    bst.insert(i_7.clone());
    bst.insert(i_9.clone());
    bst.insert(i_8.clone());
    bst.insert(i_11.clone());

    BinarySearchTree::rotate_left(&mut bst.head);

    //         9
    //        / \
    //       7   11
    //      / \
    //         8
    //

    assert_eq!(bst.head.as_ref().unwrap().item, i_9);

    let right_subtree = Node::new(i_11);
    let mut left_subtree = Node::new(i_7);
    left_subtree.right = Some(Box::new(Node::new(i_8)));

    assert_eq!(
        bst.head.as_ref().unwrap().right,
        Some(Box::new(right_subtree))
    );
    assert_eq!(
        bst.head.as_ref().unwrap().left,
        Some(Box::new(left_subtree))
    );
}

#[test]
fn test_insert_at_root_one() {
    let mut bst = BinarySearchTree::<NumItem>::default();

    let i_7 = with_key(7);
    let i_8 = with_key(8);
    let i_9 = with_key(9);
    let i_11 = with_key(11);

    //         7
    //        / \
    //           9
    //            \
    //            11

    bst.insert(i_7.clone());
    bst.insert(i_9.clone());
    bst.insert(i_11.clone());

    bst.insert_at_root(i_8.clone());

    //        8
    //       / \
    //      7   9
    //           \
    //           11

    assert_eq!(bst.head.as_ref().unwrap().item, i_8);

    let left_subtree = Node::new(i_7);
    let mut right_subtree = Node::new(i_9);
    right_subtree.right = Some(Box::new(Node::new(i_11)));

    assert_eq!(
        bst.head.as_ref().unwrap().left,
        Some(Box::new(left_subtree))
    );
    assert_eq!(
        bst.head.as_ref().unwrap().right,
        Some(Box::new(right_subtree))
    );
}

#[test]
fn test_insert_at_root_two() {
    let mut bst = BinarySearchTree::<GenericItem<String, f64>>::default();

    let i_a = GenericItem::<String, f64>::new("A".to_string());
    let i_c = GenericItem::<String, f64>::new("C".to_string());
    let i_e = GenericItem::<String, f64>::new("E".to_string());
    let i_s = GenericItem::<String, f64>::new("S".to_string());
    let i_x = GenericItem::<String, f64>::new("X".to_string());
    let i_r = GenericItem::<String, f64>::new("R".to_string());
    let i_h = GenericItem::<String, f64>::new("H".to_string());
    let i_g = GenericItem::<String, f64>::new("G".to_string());

    //       A
    //      / \
    //         S
    //        / \
    //       E   X
    //      / \
    //     C   R
    //        / \
    //       H
    //
    bst.insert(i_a.clone());
    bst.insert(i_s.clone());
    bst.insert(i_x.clone());
    bst.insert(i_e.clone());
    bst.insert(i_c.clone());
    bst.insert(i_r.clone());
    bst.insert(i_h.clone());

    // insert 'G' at root
    bst.insert_at_root(i_g);

    //         G
    //       /   \
    //      A     S
    //     / \    /\
    //        E  R  X
    //       /  /
    //      C  H

    let mut node_a = Node::new(i_a);
    let mut node_e = Node::new(i_e);
    node_e.left = Some(Box::new(Node::new(i_c)));
    node_a.right = Some(Box::new(node_e));
    let left_subtree = Some(Box::new(node_a));

    let mut node_r = Node::new(i_r);
    node_r.left = Some(Box::new(Node::new(i_h)));
    let mut node_s = Node::new(i_s);
    node_s.right = Some(Box::new(Node::new(i_x)));
    node_s.left = Some(Box::new(node_r));
    let right_subtree = Some(Box::new(node_s));

    assert_eq!(bst.head.as_ref().unwrap().left, left_subtree);
    assert_eq!(bst.head.as_ref().unwrap().right, right_subtree);
}

#[test]
fn test_rotation_keeps_inorder() {
    let mut bst = BinarySearchTree::<NumItem>::default();
    for k in [11u64, 15, 8, 9, 7] {
        bst.insert(with_key(k));
    }
    let before = bst.show();
    BinarySearchTree::rotate_right(&mut bst.head);
    assert_eq!(bst.show(), before);
    BinarySearchTree::rotate_left(&mut bst.head);
    assert_eq!(bst.show(), before);
}

#[test]
fn test_rotation_without_child() {
    // rotating where the needed child is absent leaves the tree alone
    let mut bst = BinarySearchTree::<NumItem>::default();
    BinarySearchTree::rotate_right(&mut bst.head);
    assert!(bst.head.is_none());
    bst.insert(with_key(5));
    bst.insert(with_key(9));
    // the root has no left child, so a right rotation has no effect
    BinarySearchTree::rotate_right(&mut bst.head);
    assert_eq!(bst.head.as_ref().unwrap().item, with_key(5));
    assert_eq!(bst.show(), vec![with_key(5), with_key(9)]);
}

#[test]
fn test_insert_at_root_keeps_order() {
    let mut bst = BinarySearchTree::<NumItem>::default();
    for k in [11u64, 15, 8, 9, 7] {
        bst.insert(with_key(k));
    }
    bst.insert_at_root(with_key(10));
    assert_eq!(bst.head.as_ref().unwrap().item, with_key(10));
    let expected: Vec<NumItem> = [7u64, 8, 9, 10, 11, 15].iter().map(|k| with_key(*k)).collect();
    assert_eq!(bst.show(), expected);
    // count tracks plain inserts only
    assert_eq!(bst.count(), 5);
}
