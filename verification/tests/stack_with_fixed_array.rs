use data_structures::stack_with_fixed_array::Stack;

#[test]
fn stack_with_fixed_array_test_new_stack_is_empty() {
    let stack: Stack<i32, 5> = Stack::new();
    assert!(stack.is_empty());
    assert_eq!(stack.len(), 0);
    assert_eq!(stack.capacity(), 5);
}

#[test]
fn stack_with_fixed_array_test_push_and_peek() {
    let mut stack: Stack<i32, 5> = Stack::new();
    stack.push(10).unwrap();

    assert!(!stack.is_empty());
    assert_eq!(stack.len(), 1);
    assert_eq!(stack.peek(), Some(&10));

    // Ensure peek doesn't remove the element
    assert_eq!(stack.len(), 1);
}

#[test]
fn stack_with_fixed_array_test_pop() {
    let mut stack: Stack<i32, 5> = Stack::new();
    stack.push(10).unwrap();
    stack.push(20).unwrap();

    assert_eq!(stack.pop(), Some(20));
    assert_eq!(stack.len(), 1);
    assert_eq!(stack.peek(), Some(&10));
}

#[test]
fn stack_with_fixed_array_test_lifo_order() {
    let mut stack: Stack<char, 3> = Stack::new();
    stack.push('a').unwrap();
    stack.push('b').unwrap();
    stack.push('c').unwrap();

    assert_eq!(stack.pop(), Some('c'));
    assert_eq!(stack.pop(), Some('b'));
    assert_eq!(stack.pop(), Some('a'));
    assert_eq!(stack.pop(), None);
    assert!(stack.is_empty());
}

#[test]
fn stack_with_fixed_array_test_empty_stack_operations() {
    let mut stack: Stack<i32, 5> = Stack::new();
    assert_eq!(stack.pop(), None);
    assert_eq!(stack.peek(), None);
}

#[test]
fn test_full_stack_operations() {
    let mut stack: Stack<i32, 3> = Stack::new();
    stack.push(1).unwrap();
    stack.push(2).unwrap();
    stack.push(3).unwrap();

    assert!(stack.is_full());
    assert_eq!(stack.len(), 3);

    // Pushing to a full stack should fail
    assert!(stack.push(4).is_err());

    // Ensure the stack wasn't modified
    assert_eq!(stack.len(), 3);
    assert_eq!(stack.peek(), Some(&3));
}

#[test]
fn test_push_after_pop_on_full_stack() {
    let mut stack: Stack<i32, 3> = Stack::new();
    stack.push(1).unwrap();
    stack.push(2).unwrap();
    stack.push(3).unwrap();

    assert!(stack.is_full());
    assert_eq!(stack.pop(), Some(3));
    assert!(!stack.is_full());

    // Should be able to push again
    assert!(stack.push(4).is_ok());
    assert_eq!(stack.peek(), Some(&4));
    assert!(stack.is_full());
}
