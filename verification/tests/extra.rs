use data_structures::avl_tree::AvlTree;
use data_structures::binary_search_tree::BinarySearchTree;
use data_structures::binary_tree::{BinaryTree, Node};
use data_structures::hashing::HashMap;
use data_structures::linked_list::LinkedList;
use data_structures::linked_list::SearchType;
use data_structures::linked_list_with_pointer::DeleteError;
use data_structures::linked_list_with_pointer::LinkedList as PointerList;

#[test]
fn test_bst_scenario_insert_then_delete_root() {
    let mut tree = BinarySearchTree::new();
    for v in [10, 5, 15, 3, 7, 12, 18] {
        tree.insert(v);
    }
    assert_eq!(tree.min(), Some(&3));
    assert_eq!(tree.max(), Some(&18));
    let mut iter = tree.iter();
    for expected in [3u64, 5, 7, 10, 12, 15, 18] {
        assert_eq!(iter.next().copied(), Some(expected));
    }
    assert_eq!(iter.next(), None);

    // deleting the root promotes its in-order successor
    assert_eq!(tree.delete(&10), Some(10));
    assert_eq!(tree.search(&10), None);
    let mut iter = tree.iter();
    for expected in [3u64, 5, 7, 12, 15, 18] {
        assert_eq!(iter.next().copied(), Some(expected));
    }
    assert_eq!(iter.next(), None);
}

#[test]
fn test_bst_insert_twice_keeps_sequence() {
    let mut once = BinarySearchTree::new();
    once.insert(4);
    once.insert(2);
    once.insert(6);
    let mut twice = BinarySearchTree::new();
    twice.insert(4);
    twice.insert(2);
    twice.insert(6);
    twice.insert(4); // duplicate: silently ignored

    let mut it1 = once.iter();
    let mut it2 = twice.iter();
    loop {
        let a = it1.next().copied();
        let b = it2.next().copied();
        assert_eq!(a, b);
        if a.is_none() {
            break;
        }
    }
}

#[test]
fn test_avl_right_left_scenario() {
    let mut tree = AvlTree::new();
    tree.insert(10);
    tree.insert(30);
    tree.insert(20);
    assert_eq!(tree.tree_height(), 2);
    assert_eq!(tree.in_order(), vec![10, 20, 30]);
    assert!(tree.is_balanced());
    assert!(tree.verify_heights());
}

#[test]
fn test_linked_list_push_and_find() {
    let mut list = LinkedList::new();
    list.push_left(2);
    list.push_left(1);
    list.push_right(3);

    assert_eq!(list.find(&1), Some(&1));
    assert_eq!(list.find(&2), Some(&2));
    assert_eq!(list.find(&3), Some(&3));
    assert_eq!(list.find(&4), None);
}

#[test]
fn test_linked_list_find_with_both_strategies() {
    let mut list = LinkedList::new();
    list.push_right(1);
    list.push_right(2);
    list.push_right(3);

    assert_eq!(list.find_with(&2, SearchType::Loop), Some(&2));
    assert_eq!(list.find_with(&2, SearchType::Recursive), Some(&2));
    assert_eq!(list.find_with(&9, SearchType::Loop), None);
    assert_eq!(list.find_with(&9, SearchType::Recursive), None);
    assert!(list.contains(&1));
    assert!(!list.contains(&9));
    assert!(list.contains_with(&3, SearchType::Loop));
    assert!(list.contains_with(&3, SearchType::Recursive));
}

#[test]
fn test_pointer_list_iter_and_delete() {
    let mut list = PointerList::new();
    list.push_right(1);
    list.push_right(2);
    list.push_left(0);

    let mut iter = list.iter();
    assert_eq!(iter.next(), Some(&0));
    assert_eq!(iter.next(), Some(&1));
    assert_eq!(iter.next(), Some(&2));
    assert_eq!(iter.next(), None);

    assert!(list.contains(&1));
    assert_eq!(list.delete(&1), Ok(1));
    assert!(!list.contains(&1));
    assert!(matches!(list.delete(&9), Err(DeleteError::NotFound)));
    assert_eq!(list.find(&2), Some(&2));
}

#[test]
fn test_pointer_list_from_vec() {
    let list = PointerList::from(vec![5, 6, 7]);
    let mut iter = list.iter();
    assert_eq!(iter.next(), Some(&5));
    assert_eq!(iter.next(), Some(&6));
    assert_eq!(iter.next(), Some(&7));
    assert_eq!(iter.next(), None);
}

#[test]
fn test_anagram_groups() {
    let mut map = HashMap::new(16);
    map.insert("listen");
    map.insert("silent");
    map.insert("enlist");
    map.insert("google");
    map.insert("banana");

    let groups = map.get_anagram_groups();
    assert_eq!(groups.len(), 1);
    assert_eq!(groups[0].len(), 3);
    assert!(groups[0].contains(&String::from("listen")));
    assert!(groups[0].contains(&String::from("silent")));
    assert!(groups[0].contains(&String::from("enlist")));
}

#[test]
fn test_anagram_groups_empty_and_singletons() {
    let mut map = HashMap::new(4);
    assert!(map.get_anagram_groups().is_empty());
    map.insert("one");
    map.insert("two");
    assert!(map.get_anagram_groups().is_empty());
}

#[test]
fn test_anagram_groups_two_groups() {
    let mut map = HashMap::new(8);
    map.insert("rat");
    map.insert("tar");
    map.insert("art");
    map.insert("stop");
    map.insert("pots");

    let groups = map.get_anagram_groups();
    assert_eq!(groups.len(), 2);
    let total: usize = groups.iter().map(|g| g.len()).sum();
    assert_eq!(total, 5);
}

#[test]
fn test_binary_tree_renderings() {
    let tree = BinaryTree::from_root(Node::new(
        'A',
        Some(Node::new('B', None, None)),
        Some(Node::new('C', None, None)),
    ));
    let in_order: String = tree.traverse().into_iter().collect();
    assert_eq!(in_order, "B A C ");
    let nested: String = tree.show_tree().into_iter().collect();
    assert_eq!(nested, "A(B()C())");
}

#[test]
fn test_binary_tree_empty_renderings() {
    let tree = BinaryTree::new();
    assert!(tree.traverse().is_empty());
    assert!(tree.show_tree().is_empty());
}
