use data_structures::circular_queue::CircularQueue;
use std::rc::Rc;

#[test]
fn circular_queue_test_new_queue_is_empty() {
    let queue: CircularQueue<i32> = CircularQueue::new();
    assert!(queue.is_empty());
    assert_eq!(queue.len(), 0);
    assert_eq!(queue.capacity(), 0);
}

#[test]
fn test_enqueue_dequeue_single_element() {
    let mut queue = CircularQueue::new();
    queue.enqueue(42);

    assert!(!queue.is_empty());
    assert_eq!(queue.len(), 1);
    assert_eq!(queue.capacity(), 4); // Should grow to initial capacity

    assert_eq!(queue.dequeue(), Some(42));
    assert!(queue.is_empty());
    assert_eq!(queue.len(), 0);
}

#[test]
fn circular_queue_test_peek() {
    let mut queue = CircularQueue::new();

    assert_eq!(queue.peek(), None);

    queue.enqueue(10);
    queue.enqueue(20);

    assert_eq!(queue.peek(), Some(&10));
    assert_eq!(queue.len(), 2); // peek doesn't remove

    queue.dequeue();
    assert_eq!(queue.peek(), Some(&20));
}

#[test]
fn circular_queue_test_fifo_order() {
    let mut queue = CircularQueue::new();

    for i in 0..5 {
        queue.enqueue(i);
    }

    for i in 0..5 {
        assert_eq!(queue.dequeue(), Some(i));
    }

    assert!(queue.is_empty());
}

#[test]
fn test_growth() {
    let mut queue = CircularQueue::new();

    // Fill beyond initial capacity to trigger growth
    for i in 0..10 {
        queue.enqueue(i);
    }

    assert_eq!(queue.len(), 10);
    assert!(queue.capacity() >= 10);

    // Verify FIFO order after growth
    for i in 0..10 {
        assert_eq!(queue.dequeue(), Some(i));
    }
}

#[test]
fn test_wraparound() {
    let mut queue = CircularQueue::new();

    // Fill to initial capacity
    for i in 0..4 {
        queue.enqueue(i);
    }

    // Remove some
    assert_eq!(queue.dequeue(), Some(0));
    assert_eq!(queue.dequeue(), Some(1));

    // Add more to cause wraparound
    queue.enqueue(4);
    queue.enqueue(5);

    // Should still maintain FIFO order
    assert_eq!(queue.dequeue(), Some(2));
    assert_eq!(queue.dequeue(), Some(3));
    assert_eq!(queue.dequeue(), Some(4));
    assert_eq!(queue.dequeue(), Some(5));
    assert!(queue.is_empty());
}

#[test]
fn test_growth_with_wraparound() {
    let mut queue = CircularQueue::new();

    // Fill initial capacity
    for i in 0..4 {
        queue.enqueue(i);
    }

    // Dequeue to move head forward
    queue.dequeue();
    queue.dequeue();

    // Now head > 0. Add elements to fill and grow
    for i in 4..8 {
        queue.enqueue(i);
    }

    // Verify order is preserved after growth with wraparound
    assert_eq!(queue.dequeue(), Some(2));
    assert_eq!(queue.dequeue(), Some(3));
    assert_eq!(queue.dequeue(), Some(4));
    assert_eq!(queue.dequeue(), Some(5));
    assert_eq!(queue.dequeue(), Some(6));
    assert_eq!(queue.dequeue(), Some(7));
}

#[test]
fn test_dequeue_empty() {
    let mut queue: CircularQueue<i32> = CircularQueue::new();
    assert_eq!(queue.dequeue(), None);

    queue.enqueue(1);
    queue.dequeue();
    assert_eq!(queue.dequeue(), None);
}

#[test]
fn test_with_strings() {
    let mut queue = CircularQueue::new();

    queue.enqueue(String::from("hello"));
    queue.enqueue(String::from("world"));

    assert_eq!(queue.dequeue(), Some(String::from("hello")));
    assert_eq!(queue.dequeue(), Some(String::from("world")));
}

#[test]
fn test_drop_cleans_up() {
    // This test verifies cleanup by using a type that tracks its owners
    let val1 = Rc::new(42);
    let val2 = Rc::new(100);

    let mut queue = CircularQueue::new();
    queue.enqueue(Rc::clone(&val1));
    queue.enqueue(Rc::clone(&val2));

    assert_eq!(Rc::strong_count(&val1), 2);
    assert_eq!(Rc::strong_count(&val2), 2);

    drop(queue); // Should drop both Rc instances

    assert_eq!(Rc::strong_count(&val1), 1);
    assert_eq!(Rc::strong_count(&val2), 1);
}

#[test]
fn test_is_full() {
    let mut queue = CircularQueue::new();

    // New queue with capacity 0 is not full (it's empty)
    assert!(!queue.is_full());

    // After first enqueue, grows to 4
    queue.enqueue(1);
    assert!(!queue.is_full());

    // Fill to capacity
    queue.enqueue(2);
    queue.enqueue(3);
    queue.enqueue(4);

    // Now it should be full (head == tail && !is_empty)
    assert!(queue.is_full());

    // Enqueue triggers growth
    queue.enqueue(5);
    assert!(!queue.is_full());
}
