use data_structures::binary_search_tree::BinarySearchTree;

// Helper to build a standard tree for tests
//       10
//      /  \
//     5    15
//    / \   / \
//   3   7 12  18
fn build_test_tree() -> BinarySearchTree {
    let mut tree = BinarySearchTree::new();
    tree.insert(10);
    tree.insert(5);
    tree.insert(15);
    tree.insert(3);
    tree.insert(7);
    tree.insert(12);
    tree.insert(18);
    tree
}

// Helper to collect the in-order values of a tree
fn in_order_values(tree: &BinarySearchTree) -> Vec<u64> {
    let mut values = Vec::new();
    let mut iter = tree.iter();
    while let Some(v) = iter.next() {
        values.push(*v);
    }
    values
}

#[test]
fn test_new_empty() {
    let mut tree: BinarySearchTree = BinarySearchTree::new();
    assert!(tree.iter().next().is_none());
    assert_eq!(tree.min(), None);
    assert_eq!(tree.max(), None);
    assert_eq!(tree.delete(&1), None);
}

#[test]
fn test_insert_and_search() {
    let mut tree = BinarySearchTree::new();
    tree.insert(10);
    tree.insert(5);
    tree.insert(15);

    assert_eq!(tree.search(&10), Some(&10));
    assert_eq!(tree.search(&5), Some(&5));
    assert_eq!(tree.search(&15), Some(&15));
    assert_eq!(tree.search(&99), None);
}

#[test]
fn test_insert_duplicate() {
    let mut tree = BinarySearchTree::new();
    tree.insert(10);
    tree.insert(10); // Should be ignored
    let mut iter = tree.iter();
    assert_eq!(iter.next(), Some(&10));
    assert!(iter.next().is_none());
    assert_eq!(in_order_values(&tree), vec![10]);
}

#[test]
fn test_min_max() {
    let tree = build_test_tree();
    assert_eq!(tree.min(), Some(&3));
    assert_eq!(tree.max(), Some(&18));
}

#[test]
fn test_iter() {
    let tree = build_test_tree();
    let mut iter = tree.iter();
    assert_eq!(iter.next(), Some(&3));
    assert_eq!(iter.next(), Some(&5));
    assert_eq!(iter.next(), Some(&7));
    assert_eq!(iter.next(), Some(&10));
    assert_eq!(iter.next(), Some(&12));
    assert_eq!(iter.next(), Some(&15));
    assert_eq!(iter.next(), Some(&18));
    assert_eq!(iter.next(), None);
}

#[test]
fn test_iter_empty() {
    let tree: BinarySearchTree = BinarySearchTree::new();
    assert_eq!(tree.iter().next(), None);
}

#[test]
fn test_delete_non_existent() {
    let mut tree = build_test_tree();
    assert_eq!(tree.delete(&99), None);
    assert_eq!(tree.min(), Some(&3)); // Ensure tree is unchanged
    assert_eq!(tree.max(), Some(&18));
}

#[test]
fn test_delete_leaf() {
    let mut tree = build_test_tree();
    assert_eq!(tree.delete(&3), Some(3));
    assert_eq!(tree.search(&3), None);
    assert_eq!(tree.min(), Some(&5));
}

#[test]
fn test_delete_node_with_one_right_child() {
    let mut tree = build_test_tree();
    tree.delete(&3);
    tree.insert(4);
    tree.delete(&5); // Delete 5, leaving 4 as the left child of 7
    assert_eq!(tree.search(&5), None);
    assert_eq!(tree.search(&7), Some(&7));
    assert_eq!(tree.search(&4), Some(&4));
    assert_eq!(in_order_values(&tree), vec![4, 7, 10, 12, 15, 18]);
}

#[test]
fn test_delete_node_with_one_left_child() {
    let mut tree = build_test_tree();
    tree.delete(&7);
    assert_eq!(tree.search(&7), None);
    assert_eq!(tree.search(&5), Some(&5));
    assert_eq!(in_order_values(&tree), vec![3, 5, 10, 12, 15, 18]);
}

#[test]
fn test_delete_node_with_two_children() {
    let mut tree = build_test_tree();
    assert_eq!(tree.delete(&5), Some(5));
    assert_eq!(tree.search(&5), None);
    // 7 should be the successor
    assert_eq!(tree.search(&7), Some(&7));
    assert_eq!(in_order_values(&tree), vec![3, 7, 10, 12, 15, 18]);
}

#[test]
fn test_delete_root_with_two_children() {
    let mut tree = build_test_tree();
    assert_eq!(tree.delete(&10), Some(10));
    assert_eq!(tree.search(&10), None);
    // 12 should be the successor
    assert_eq!(in_order_values(&tree), vec![3, 5, 7, 12, 15, 18]);
    assert_eq!(tree.max(), Some(&18));
    assert_eq!(tree.min(), Some(&3));
}

#[test]
fn test_delete_root_until_empty() {
    let mut tree = build_test_tree();
    let values = in_order_values(&tree);
    for val in values {
        assert!(tree.delete(&val).is_some());
    }
    assert!(tree.min().is_none());
    assert!(tree.iter().next().is_none());
}
