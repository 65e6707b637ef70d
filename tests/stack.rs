use clrs::stack::Stack;

#[test]
fn test_stack_is_empty() {
    let stack: Stack<i32> = Stack::new();
    assert_eq!(stack.is_empty(), true);
}

#[test]
fn test_push() {
    let mut stack = Stack::new();
    stack.push('a');
    stack.push('b');
    assert_eq!(stack.size(), 2);
    assert_eq!(*stack.peek().unwrap(), 'b');
}

#[test]
fn test_pop() {
    let mut stack = Stack::new();
    stack.push('a');
    stack.push('b');
    assert_eq!(stack.pop().unwrap(), 'b');
    assert_eq!(stack.size(), 1);
}

#[test]
fn stack_test_peek() {
    let mut stack = Stack::new();
    stack.push('a');
    assert_eq!(*stack.peek().unwrap(), 'a');
    assert_eq!(stack.size(), 1);
}

#[test]
fn stack_test_peek_mut() {
    let mut stack = Stack::new();
    stack.push('a');
    *stack.peek_mut().unwrap() = 'b';
    assert_eq!(*stack.peek().unwrap(), 'b');
    assert_eq!(stack.size(), 1);
}

#[test]
fn stack_is_last_in_first_out() {
    let mut stack = Stack::new();
    stack.push('a');
    stack.push('b');
    assert_eq!(stack.pop(), Some('b'));
    assert_eq!(stack.pop(), Some('a'));
    assert_eq!(stack.pop(), None);
    assert!(stack.is_empty());
}

#[test]
fn stack_pop_on_empty_is_none() {
    let mut stack: Stack<u8> = Stack::new();
    assert_eq!(stack.pop(), None);
    assert!(stack.peek().is_none());
    assert_eq!(stack.size(), 0);
}
