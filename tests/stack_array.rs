use classic_algs::stack::array::Stack;

#[test]
fn array_init() {
    let simple_stack = Stack::<u32>::new();
    assert_eq!(true, simple_stack.is_empty())
}

#[test]
fn test_capacity() {
    let mut simple_stack = Stack::<u32>::new();
    simple_stack.push(1);
    assert_eq!(1, simple_stack.data.capacity());
    simple_stack.push(2);
    assert_eq!(2, simple_stack.data.capacity());
    simple_stack.push(3);
    assert_eq!(4, simple_stack.data.capacity());

}

#[test]
fn array_empty_pop() {
    let mut simple_stack = Stack::<u32>::new();
    assert_eq!(None, simple_stack.pop())
}

#[test]
fn array_first_push_and_pop() {
    let mut simple_stack = Stack::<u32>::new();
    simple_stack.push(5);
    assert_eq!(Some(5), simple_stack.pop());
    assert_eq!(None, simple_stack.pop())
}

#[test]
fn array_some_push() {
    let mut simple_stack = Stack::<u32>::new();
    simple_stack.push(5);
    simple_stack.push(6);
    simple_stack.push(7);
    assert_eq!(Some(7), simple_stack.pop());
    assert_eq!(Some(6), simple_stack.pop());
    assert_eq!(Some(5), simple_stack.pop());
    assert_eq!(None, simple_stack.pop())
}

#[test]
fn array_many_pushes_then_pops() {
    let mut stack = Stack::<u32>::new();
    for i in 0..20 {
        stack.push(i);
    }
    for i in (0..20).rev() {
        assert_eq!(stack.pop(), Some(i));
    }
    assert_eq!(stack.pop(), None);
    assert!(stack.is_empty());
}
