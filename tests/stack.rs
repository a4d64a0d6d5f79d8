use katas::stack::Stack;

#[test]
fn new_stack_is_empty() {
    let stack: Stack<i32> = Stack::new(3);
    assert!(stack.is_empty());
    assert_eq!(stack.size(), 0);
}

#[test]
fn pops_in_reverse_order_of_pushes() {
    let mut stack = Stack::new(3);
    stack.push(1);
    stack.push(2);
    assert_eq!(stack.size(), 2);
    assert_eq!(stack.pop(), Some(2));
    assert_eq!(stack.pop(), Some(1));
    assert_eq!(stack.pop(), None);
    assert!(stack.is_empty());
}

#[test]
fn push_onto_a_full_stack_is_ignored() {
    let mut stack = Stack::new(2);
    stack.push('a');
    stack.push('b');
    stack.push('c');
    assert_eq!(stack.size(), 2);
    assert_eq!(stack.pop(), Some('b'));
}

#[test]
fn stack_of_no_room_stays_empty() {
    let mut stack = Stack::new(0);
    stack.push(7);
    assert!(stack.is_empty());
    assert_eq!(stack.pop(), None);
}

#[test]
fn items_are_seen_bottom_first() {
    let mut stack = Stack::new(4);
    stack.push(10);
    stack.push(20);
    stack.push(30);
    assert_eq!(&stack[..], &[10, 20, 30]);
    stack[0] = 11;
    assert_eq!(stack.as_slice(), &[11, 20, 30]);
}
