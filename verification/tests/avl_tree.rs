use data_structures::avl_tree::AvlTree;

#[test]
fn test_empty_tree() {
    let tree: AvlTree = AvlTree::new();
    assert_eq!(tree.tree_height(), 0);
    assert!(tree.is_balanced());
    assert!(tree.verify_heights());
    assert_eq!(tree.in_order(), Vec::<u64>::new());
}

#[test]
fn test_single_insertion() {
    let mut tree = AvlTree::new();
    tree.insert(10);

    assert_eq!(tree.tree_height(), 1);
    assert!(tree.is_balanced());
    assert!(tree.verify_heights());
    assert_eq!(tree.in_order(), vec![10]);
}

#[test]
fn test_multiple_insertions_no_rotation() {
    let mut tree = AvlTree::new();
    tree.insert(10);
    tree.insert(5);
    tree.insert(15);

    assert_eq!(tree.tree_height(), 2);
    assert!(tree.is_balanced());
    assert!(tree.verify_heights());
    assert_eq!(tree.in_order(), vec![5, 10, 15]);
}

#[test]
fn test_left_left_rotation() {
    // Insert in descending order to trigger right rotation (LL case)
    let mut tree = AvlTree::new();
    tree.insert(30);
    tree.insert(20);
    tree.insert(10); // This should trigger right rotation

    assert!(tree.is_balanced());
    assert!(tree.verify_heights());
    assert_eq!(tree.in_order(), vec![10, 20, 30]);
    assert_eq!(tree.tree_height(), 2); // Should be balanced
}

#[test]
fn test_right_right_rotation() {
    // Insert in ascending order to trigger left rotation (RR case)
    let mut tree = AvlTree::new();
    tree.insert(10);
    tree.insert(20);
    tree.insert(30); // This should trigger left rotation

    assert!(tree.is_balanced());
    assert!(tree.verify_heights());
    assert_eq!(tree.in_order(), vec![10, 20, 30]);
    assert_eq!(tree.tree_height(), 2); // Should be balanced
}

#[test]
fn test_left_right_rotation() {
    // Insert pattern that triggers LR rotation
    let mut tree = AvlTree::new();
    tree.insert(30);
    tree.insert(10);
    tree.insert(20); // This should trigger LR rotation

    assert!(tree.is_balanced());
    assert!(tree.verify_heights());
    assert_eq!(tree.in_order(), vec![10, 20, 30]);
    assert_eq!(tree.tree_height(), 2);
}

#[test]
fn test_right_left_rotation() {
    // Insert pattern that triggers RL rotation
    let mut tree = AvlTree::new();
    tree.insert(10);
    tree.insert(30);
    tree.insert(20); // This should trigger RL rotation

    assert!(tree.is_balanced());
    assert!(tree.verify_heights());
    assert_eq!(tree.in_order(), vec![10, 20, 30]);
    assert_eq!(tree.tree_height(), 2);
}

#[test]
fn test_complex_insertions() {
    let mut tree = AvlTree::new();
    let values = vec![50, 25, 75, 10, 30, 60, 80, 5, 15, 27, 55, 65];

    for val in values {
        tree.insert(val);
        assert!(tree.is_balanced(), "Tree became unbalanced after inserting {}", val);
        assert!(tree.verify_heights(), "Heights incorrect after inserting {}", val);
    }

    let in_order = tree.in_order();
    let expected: Vec<u64> = vec![5, 10, 15, 25, 27, 30, 50, 55, 60, 65, 75, 80];
    assert_eq!(in_order, expected);
}

#[test]
fn test_sequential_insertions() {
    // Insert 1..20 sequentially - should maintain balance through multiple rotations
    let mut tree = AvlTree::new();

    for i in 1..=20 {
        tree.insert(i);
        assert!(tree.is_balanced(), "Tree unbalanced after inserting {}", i);
        assert!(tree.verify_heights(), "Heights incorrect after inserting {}", i);
    }

    // Height should be log2(20) which is about 4.32, so height should be around 5-6
    let height = tree.tree_height();
    assert!(height <= 6, "Tree height {} is too large for 20 nodes", height);

    let in_order = tree.in_order();
    let expected: Vec<u64> = (1..=20).collect();
    assert_eq!(in_order, expected);
}

#[test]
fn test_reverse_sequential_insertions() {
    // Insert 20..1 in reverse - should maintain balance
    let mut tree = AvlTree::new();

    for i in (1..=20).rev() {
        tree.insert(i);
        assert!(tree.is_balanced(), "Tree unbalanced after inserting {}", i);
        assert!(tree.verify_heights(), "Heights incorrect after inserting {}", i);
    }

    let height = tree.tree_height();
    assert!(height <= 6, "Tree height {} is too large for 20 nodes", height);

    let in_order = tree.in_order();
    let expected: Vec<u64> = (1..=20).collect();
    assert_eq!(in_order, expected);
}

#[test]
fn test_duplicate_insertions() {
    let mut tree = AvlTree::new();
    tree.insert(10);
    tree.insert(5);
    tree.insert(15);
    tree.insert(10); // Duplicate
    tree.insert(10); // Another duplicate

    assert!(tree.is_balanced());
    assert!(tree.verify_heights());
    // Should only have one 10 since we ignore duplicates
    assert_eq!(tree.in_order(), vec![5, 10, 15]);
}

#[test]
fn test_height_calculation() {
    let mut tree = AvlTree::new();

    // Single node
    tree.insert(10);
    assert_eq!(tree.tree_height(), 1);

    // Two levels
    tree.insert(5);
    tree.insert(15);
    assert_eq!(tree.tree_height(), 2);

    // Three levels
    tree.insert(3);
    assert_eq!(tree.tree_height(), 3);
}

#[test]
fn test_large_tree() {
    let mut tree = AvlTree::new();
    let n = 100;

    for i in 0..n {
        tree.insert(i);
    }

    assert!(tree.is_balanced());
    assert!(tree.verify_heights());

    // For 100 nodes, height should be around log2(100), about 6.64
    // The AVL bound guarantees height at most 1.44 * log2(n), so at most 9-10
    let height = tree.tree_height();
    assert!(height <= 10, "Tree height {} is too large for {} nodes", height, n);

    // Verify all elements are present and sorted
    let in_order = tree.in_order();
    assert_eq!(in_order.len(), n as usize);
    for i in 0..n {
        assert_eq!(in_order[i as usize], i);
    }
}

#[test]
fn test_alternating_insertions() {
    let mut tree = AvlTree::new();

    // Insert alternating high and low values
    for i in 0..10 {
        if i % 2 == 0 {
            tree.insert(i);
        } else {
            tree.insert(100 - i);
        }
        assert!(tree.is_balanced());
        assert!(tree.verify_heights());
    }

    let in_order = tree.in_order();
    assert_eq!(in_order.len(), 10);

    // Verify sorted order
    for i in 1..in_order.len() {
        assert!(in_order[i - 1] < in_order[i]);
    }
}
