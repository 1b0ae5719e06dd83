use sakurai::ring::RingBuffer;
use sakurai::ring::RingBufferError;

#[test]
fn test_new_buffer() {
    let buffer = RingBuffer::<i32, 8>::new();
    assert_eq!(buffer.capacity(), 8);
    assert_eq!(buffer.len(), 0);
    assert!(buffer.is_empty());
    assert!(!buffer.is_full());
}

#[test]
fn ring_test_push_pop() {
    let mut buffer = RingBuffer::<i32, 8>::new();

    assert!(buffer.push(42).is_ok());
    assert_eq!(buffer.len(), 1);
    assert!(!buffer.is_empty());

    let value = buffer.pop().unwrap();
    assert_eq!(value, 42);
    assert_eq!(buffer.len(), 0);
    assert!(buffer.is_empty());
}

#[test]
fn test_full_buffer() {
    let mut buffer = RingBuffer::<i32, 4>::new();
    for i in 0..3 {
        assert!(buffer.push(i).is_ok());
    }

    assert!(buffer.is_full());
    assert!(buffer.push(99).is_err());
}

#[test]
fn test_empty_buffer() {
    let mut buffer = RingBuffer::<i32, 4>::new();
    assert!(buffer.pop().is_err());
}

#[test]
fn ring_test_wraparound() {
    let mut buffer = RingBuffer::<i32, 4>::new();
    for cycle in 0..3 {
        for i in 0..3 {
            assert!(buffer.push(cycle * 10 + i).is_ok());
        }

        for i in 0..3 {
            let value = buffer.pop().unwrap();
            assert_eq!(value, cycle * 10 + i);
        }
    }
}

#[test]
fn test_error_values() {
    let mut buffer = RingBuffer::<i32, 4>::new();
    assert_eq!(buffer.pop(), Err(RingBufferError::Empty));
    assert_eq!(buffer.try_pop(), Err(RingBufferError::Empty));
    for i in 0..3 {
        buffer.try_push(i).unwrap();
    }
    assert_eq!(buffer.push(3), Err(RingBufferError::Full));
    assert_eq!(buffer.try_push(3), Err(RingBufferError::Full));
    assert_eq!(buffer.len(), 3);
}

#[test]
fn test_fifo_order_kept() {
    let mut buffer = RingBuffer::<i32, 8>::new();
    for i in 0..7 {
        buffer.push(i * 3).unwrap();
    }
    for i in 0..7 {
        assert_eq!(buffer.pop().unwrap(), i * 3);
    }
}
