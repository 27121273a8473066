use data_structures::linked_list_with_box::LinkedList;

// --- Constructor tests ---
#[test]
fn test_new_list_is_empty() {
    let list: LinkedList = LinkedList::new();
    assert!(list.find(&1).is_none());
    assert!(list.find(&0).is_none());
}

// --- From<Vec> tests ---
#[test]
fn test_from_vec() {
    let list = LinkedList::from(vec![1, 2, 3]);
    assert!(list.find(&1).is_some());
    assert!(list.find(&3).is_some());
    assert_eq!(list.find(&1), Some(&1));
    assert_eq!(list.find(&2), Some(&2));
    assert_eq!(list.find(&3), Some(&3));
}

#[test]
fn test_from_empty_vec() {
    let list = LinkedList::from(Vec::<u64>::new());
    assert!(list.find(&1).is_none());
    assert!(list.find(&0).is_none());
}

// --- Push operation tests ---
#[test]
fn test_push_left_to_empty_list() {
    let mut list = LinkedList::new();
    list.push_left(1);
    assert_eq!(list.find(&1), Some(&1));
    assert_eq!(list.delete(&1), Some(1));
}

#[test]
fn test_push_left_updates_head() {
    let mut list = LinkedList::new();
    list.push_left(1);
    list.push_left(2);
    assert_eq!(list.find(&2), Some(&2));
    assert_eq!(list.find(&1), Some(&1));
}

#[test]
fn test_push_right_to_empty_list() {
    let mut list = LinkedList::new();
    list.push_right(1);
    assert_eq!(list.find(&1), Some(&1));
    assert_eq!(list.delete(&1), Some(1));
}

#[test]
fn test_push_right_updates_tail() {
    let mut list = LinkedList::new();
    list.push_right(1);
    list.push_right(2);
    assert_eq!(list.find(&1), Some(&1));
    assert_eq!(list.find(&2), Some(&2));
}

// --- Find operation tests ---
#[test]
fn test_find_in_empty_list() {
    let list: LinkedList = LinkedList::new();
    assert_eq!(list.find(&1), None);
}

#[test]
fn test_find_non_existent_element() {
    let list = LinkedList::from(vec![1, 2]);
    assert_eq!(list.find(&3), None);
}

#[test]
fn test_find_head_element() {
    let list = LinkedList::from(vec![1, 2]);
    assert_eq!(list.find(&1), Some(&1));
}

#[test]
fn test_find_tail_element() {
    let list = LinkedList::from(vec![1, 2]);
    assert_eq!(list.find(&2), Some(&2));
}

#[test]
fn test_find_middle_element() {
    let list = LinkedList::from(vec![1, 2, 3]);
    assert_eq!(list.find(&2), Some(&2));
}

// --- Delete operation tests ---
#[test]
fn test_delete_from_empty_list() {
    let mut list: LinkedList = LinkedList::new();
    assert_eq!(list.delete(&1), None);
}

#[test]
fn test_delete_non_existent_element() {
    let mut list = LinkedList::from(vec![1, 2, 3]);
    assert_eq!(list.delete(&4), None);
}

#[test]
fn test_delete_only_element_in_list() {
    let mut list = LinkedList::from(vec![1]);
    assert_eq!(list.delete(&1), Some(1));
    assert!(list.find(&1).is_none());
    assert_eq!(list.delete(&1), None);
}

#[test]
fn test_delete_head_element_updates_head() {
    let mut list = LinkedList::from(vec![1, 2, 3]);
    assert_eq!(list.delete(&1), Some(1));
    assert_eq!(list.find(&2), Some(&2));
    assert_eq!(list.find(&1), None);
}

#[test]
fn test_delete_tail_element_updates_tail() {
    let mut list = LinkedList::from(vec![1, 2, 3]);
    assert_eq!(list.delete(&3), Some(3));
    assert_eq!(list.find(&2), Some(&2));
    assert_eq!(list.find(&3), None);
}

#[test]
fn test_delete_middle_element() {
    let mut list = LinkedList::from(vec![1, 2, 3]);
    assert_eq!(list.delete(&2), Some(2));
    assert_eq!(list.find(&3), Some(&3));
    assert_eq!(list.find(&2), None);
}

// --- Mixed operation tests ---
#[test]
fn test_interleaved_push_and_delete() {
    let mut list = LinkedList::new();
    list.push_right(1);
    list.push_right(2);
    list.push_left(0); // 0, 1, 2
    assert_eq!(list.delete(&1), Some(1)); // 0, 2
    assert_eq!(list.find(&0), Some(&0));
    assert_eq!(list.find(&2), Some(&2));
    list.push_right(3); // 0, 2, 3
    assert_eq!(list.find(&3), Some(&3));
    assert_eq!(list.delete(&0), Some(0)); // 2, 3
    assert_eq!(list.find(&0), None);
    assert_eq!(list.find(&2), Some(&2));
}
