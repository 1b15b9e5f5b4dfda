use bfs_graph::stack::{LinkedStack, Stack, VecStack};

#[test]
fn linked_pop_test() {
    let mut stack = LinkedStack::new();

    assert_eq!(None, stack.pop());

    stack.push(2);
    stack.push(3);

    assert_eq!(Some(3), stack.pop());
    assert_eq!(Some(2), stack.pop());
}

#[test]
fn linked_peek_test() {
    let mut stack = LinkedStack::new();

    assert_eq!(None, stack.peek());

    stack.push(1);
    stack.push(2);

    assert_eq!(Some(&2), stack.peek());
    assert_eq!(Some(&2), stack.peek());

    stack.pop();
    assert_eq!(Some(&1), stack.peek());
}

#[test]
fn linked_size_test() {
    let mut stack = LinkedStack::new();

    assert_eq!(0, stack.size());

    stack.pop();

    assert_eq!(0, stack.size());

    stack.push(1);
    stack.push(2);

    assert_eq!(2, stack.size());

    stack.pop();
    assert_eq!(1, stack.size());

    stack.peek();
    assert_eq!(1, stack.size());
}

#[test]
fn vec_pop_test() {
    let mut stack = VecStack::new();

    assert_eq!(None, stack.pop());

    stack.push(2);
    stack.push(3);

    assert_eq!(Some(3), stack.pop());
    assert_eq!(Some(2), stack.pop());
}

#[test]
fn vec_peek_test() {
    let mut stack = VecStack::new();

    assert_eq!(None, stack.peek());

    stack.push(1);
    stack.push(2);

    assert_eq!(Some(&2), stack.peek());
    assert_eq!(Some(&2), stack.peek());

    stack.pop();
    assert_eq!(Some(&1), stack.peek());
}

#[test]
fn vec_size_test() {
    let mut stack = VecStack::new();

    assert_eq!(0, stack.size());

    stack.pop();
    assert_eq!(0, stack.size());

    stack.push(1);
    stack.push(2);

    assert_eq!(2, stack.size());

    stack.pop();
    assert_eq!(1, stack.size());

    stack.peek();
    assert_eq!(1, stack.size());
}
