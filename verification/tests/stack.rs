use sakurai::stack::Stack;
use sakurai::stack::StackError;

#[test]
fn test_new_stack() {
    let stack = Stack::<i32, 8>::new();
    assert_eq!(stack.capacity(), 8);
    assert_eq!(stack.len(), 0);
    assert!(stack.is_empty());
    assert!(!stack.is_full());
    assert_eq!(stack.remaining_capacity(), 8);
}

#[test]
fn stack_test_push_pop() {
    let mut stack = Stack::<i32, 8>::new();
    assert!(stack.push(42).is_ok());
    assert_eq!(stack.len(), 1);
    assert!(!stack.is_empty());
    assert_eq!(stack.remaining_capacity(), 7);

    let value = stack.pop().unwrap();
    assert_eq!(value, 42);
    assert_eq!(stack.len(), 0);
    assert!(stack.is_empty());
}

#[test]
fn test_lifo_order() {
    let mut stack = Stack::<i32, 8>::new();
    for i in 0..5 {
        stack.push(i).unwrap();
    }

    for i in (0..5).rev() {
        assert_eq!(stack.pop().unwrap(), i);
    }
}

#[test]
fn stack_test_overflow() {
    let mut stack = Stack::<i32, 2>::new();
    assert!(stack.push(1).is_ok());
    assert!(stack.push(2).is_ok());
    assert!(stack.is_full());
    assert_eq!(stack.push(3), Err(StackError::Overflow));
}

#[test]
fn test_underflow() {
    let mut stack = Stack::<i32, 2>::new();
    assert_eq!(stack.pop(), Err(StackError::Underflow));
}

#[test]
fn test_peek() {
    let mut stack = Stack::<i32, 8>::new();
    assert!(stack.peek().is_none());
    stack.push(42).unwrap();
    assert_eq!(stack.peek(), Some(&42));
    assert_eq!(stack.len(), 1);

    stack.push(84).unwrap();
    assert_eq!(stack.peek(), Some(&84));
}

#[test]
fn test_peek_mut() {
    let mut stack = Stack::<i32, 8>::new();
    stack.push(42).unwrap();
    if let Some(top) = stack.peek_mut() {
        *top = 99;
    }

    assert_eq!(stack.pop().unwrap(), 99);
}

#[test]
fn stack_test_clear() {
    let mut stack = Stack::<i32, 8>::new();
    for i in 0..5 {
        stack.push(i).unwrap();
    }

    assert_eq!(stack.len(), 5);
    stack.clear();
    assert_eq!(stack.len(), 0);
    assert!(stack.is_empty());
}

#[test]
fn stack_test_iterator() {
    let mut stack = Stack::<i32, 8>::new();
    for i in 0..5 {
        stack.push(i).unwrap();
    }

    let expected = [4, 3, 2, 1, 0];
    for (i, &exp) in expected.iter().enumerate() {
        let mut it = stack.iter();
        let mut value = None;
        for _ in 0..=i {
            value = it.next();
        }
        assert_eq!(*value.unwrap(), exp);
    }
}

#[test]
fn stack_test_try_push() {
    let mut stack = Stack::<i32, 2>::new();
    assert!(stack.try_push(1).is_ok());
    assert!(stack.try_push(2).is_ok());
    match stack.try_push(3) {
        Err(item) => assert_eq!(item, 3),
        Ok(()) => panic!("Should have failed"),
    }
}

#[test]
fn test_iterator_len() {
    let mut stack = Stack::<i32, 8>::new();
    for i in 0..3 {
        stack.push(i).unwrap();
    }
    let mut it = stack.iter();
    assert_eq!(it.len(), 3);
    assert_eq!(it.size_hint(), (3, Some(3)));
    assert_eq!(it.next(), Some(&2));
    assert_eq!(it.len(), 2);
    assert_eq!(it.next(), Some(&1));
    assert_eq!(it.next(), Some(&0));
    assert_eq!(it.next(), None);
    assert_eq!(it.len(), 0);
}
