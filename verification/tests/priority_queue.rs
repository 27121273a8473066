use data_structures::priority_queue::PriorityQueue;

#[test]
fn test_new_is_empty() {
    let mut pq: PriorityQueue = PriorityQueue::new();
    assert_eq!(pq.pop(), None);
}

#[test]
fn test_insert_and_pop_single() {
    let mut pq = PriorityQueue::new();
    pq.insert(10);
    assert_eq!(pq.pop(), Some(10));
    assert_eq!(pq.pop(), None);
}

#[test]
fn test_pop_from_empty() {
    let mut pq: PriorityQueue = PriorityQueue::new();
    assert_eq!(pq.pop(), None);
}

#[test]
fn test_insert_multiple_and_pop_in_order() {
    let mut pq = PriorityQueue::new();
    pq.insert(10);
    pq.insert(5);
    pq.insert(20);
    pq.insert(8);

    assert_eq!(pq.pop(), Some(5));
    assert_eq!(pq.pop(), Some(8));
    assert_eq!(pq.pop(), Some(10));
    assert_eq!(pq.pop(), Some(20));
    assert_eq!(pq.pop(), None);
}

#[test]
fn test_insert_descending_and_pop_in_order() {
    let mut pq = PriorityQueue::new();
    pq.insert(20);
    pq.insert(15);
    pq.insert(10);
    pq.insert(5);

    assert_eq!(pq.pop(), Some(5));
    assert_eq!(pq.pop(), Some(10));
    assert_eq!(pq.pop(), Some(15));
    assert_eq!(pq.pop(), Some(20));
    assert_eq!(pq.pop(), None);
}

#[test]
fn test_mixed_operations() {
    let mut pq = PriorityQueue::new();
    pq.insert(10);
    pq.insert(5);
    assert_eq!(pq.pop(), Some(5));

    pq.insert(20);
    pq.insert(8);
    assert_eq!(pq.pop(), Some(8));
    assert_eq!(pq.pop(), Some(10));

    pq.insert(1);
    assert_eq!(pq.pop(), Some(1));
    assert_eq!(pq.pop(), Some(20));
    assert_eq!(pq.pop(), None);
}

#[test]
fn test_from_vec_pops_in_order() {
    let mut pq = PriorityQueue::from_vec(vec![9, 4, 7, 1, 8, 2]);
    assert_eq!(pq.pop(), Some(1));
    assert_eq!(pq.pop(), Some(2));
    assert_eq!(pq.pop(), Some(4));
    assert_eq!(pq.pop(), Some(7));
    assert_eq!(pq.pop(), Some(8));
    assert_eq!(pq.pop(), Some(9));
    assert_eq!(pq.pop(), None);
}

#[test]
fn test_duplicates_pop_each() {
    let mut pq = PriorityQueue::new();
    pq.insert(3);
    pq.insert(3);
    pq.insert(1);
    assert_eq!(pq.pop(), Some(1));
    assert_eq!(pq.pop(), Some(3));
    assert_eq!(pq.pop(), Some(3));
    assert_eq!(pq.pop(), None);
}
