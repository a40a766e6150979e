use classic_algs::stack::linked_list::Stack;

#[test]
fn linked_list_init() {
    let simple_stack = Stack::<u32>::new();
    assert_eq!(true, simple_stack.head.is_none());
    assert_eq!(true, simple_stack.is_empty())
}

#[test]
fn linked_list_empty_pop() {
    let mut simple_stack = Stack::<u32>::new();
    assert_eq!(None, simple_stack.pop())
}

#[test]
fn linked_list_first_push_and_pop() {
    let mut simple_stack = Stack::<u32>::new();
    simple_stack.push(5);
    assert_eq!(Some(5), simple_stack.pop());
    assert_eq!(None, simple_stack.pop())
}

#[test]
fn linked_list_some_push() {
    let mut simple_stack = Stack::<u32>::new();
    simple_stack.push(5);
    simple_stack.push(6);
    simple_stack.push(7);
    assert_eq!(Some(7), simple_stack.pop());
    assert_eq!(Some(6), simple_stack.pop());
    assert_eq!(Some(5), simple_stack.pop());
    assert_eq!(None, simple_stack.pop())
}

#[test]
fn linked_list_iteration() {
    let mut simple_stack = Stack::<u32>::new();
    simple_stack.push(1);
    simple_stack.push(2);
    simple_stack.push(3);
    simple_stack.push(4);

    assert_eq!(Some(4), simple_stack.next());
    assert_eq!(Some(3), simple_stack.next());
    assert_eq!(Some(2), simple_stack.next());
    assert_eq!(Some(1), simple_stack.next());
    assert_eq!(None, simple_stack.next());
}

#[test]
fn linked_list_is_empty_tracks_pushes() {
    let mut stack = Stack::<u32>::new();
    assert!(stack.is_empty());
    stack.push(1);
    assert!(!stack.is_empty());
    assert_eq!(stack.pop(), Some(1));
    assert!(stack.is_empty());
}
