use rust_demo::data_structures::Stack;

#[test]
fn stack_empty() {
    let stack: Stack<i32> = Stack::new();
    assert!(stack.is_empty());
}

#[test]
fn push_and_pop() {
    let mut stack = Stack::new();
    assert_eq!(stack.pop(), None);
    assert!(stack.is_empty());

    stack.push(1);
    stack.push(2);
    stack.push(3);

    assert_eq!(stack.pop(), Some(3));
    assert_eq!(stack.pop(), Some(2));

    assert_eq!(stack.is_empty(), false);

    stack.push(4);
    stack.push(5);

    assert_eq!(stack.pop(), Some(5));
    assert_eq!(stack.pop(), Some(4));
    assert_eq!(stack.pop(), Some(1));
    assert_eq!(stack.pop(), None);

    assert!(stack.is_empty());
}

#[test]
fn peek() {
    let mut stack = Stack::new();
    assert_eq!(stack.peek(), None);

    stack.push(1);
    assert_eq!(stack.peek(), Some(&1));
    assert_eq!(stack.is_empty(), false);
}

#[test]
fn iter_walks_from_the_top() {
    let mut stack = Stack::new();
    stack.push(1);
    stack.push(2);
    stack.push(3);
    let mut it = stack.iter();
    assert_eq!(it.next(), Some(&3));
    assert_eq!(it.next(), Some(&2));
    assert_eq!(it.next(), Some(&1));
    assert_eq!(it.next(), None);
    assert_eq!(stack.peek(), Some(&3));
}

#[test]
fn into_iter_takes_the_elements() {
    let mut stack = Stack::new();
    stack.push(String::from("a"));
    stack.push(String::from("b"));
    let mut it = stack.into_iter();
    assert_eq!(it.next(), Some(String::from("b")));
    assert_eq!(it.next(), Some(String::from("a")));
    assert_eq!(it.next(), None);
}

#[test]
fn default_is_empty() {
    let stack: Stack<u8> = Stack::default();
    assert!(stack.is_empty());
    assert_eq!(stack.peek(), None);
}

#[test]
fn iter_mut_changes_elements_in_place() {
    let mut stack = Stack::new();
    stack.push(1);
    stack.push(2);
    stack.push(3);
    let mut it = stack.iter_mut();
    while let Some(v) = it.next() {
        *v *= 10;
    }
    assert_eq!(stack.pop(), Some(30));
    assert_eq!(stack.pop(), Some(20));
    assert_eq!(stack.pop(), Some(10));
    assert_eq!(stack.pop(), None);
}
