use sakurai::fixedvec::FixedVec;
use sakurai::fixedvec::FixedVecError;

#[test]
fn fixedvec_test_push_pop() {
    let mut vec = FixedVec::<i32, 8>::new();

    assert!(vec.push(42).is_ok());
    assert_eq!(vec.len(), 1);
    assert!(!vec.is_empty());
    assert_eq!(vec.remaining_capacity(), 7);

    let value = vec.pop().unwrap();
    assert_eq!(value, 42);
    assert_eq!(vec.len(), 0);
    assert!(vec.is_empty());
}

#[test]
fn test_index() {
    let mut vec = FixedVec::<i32, 8>::new();
    for i in 0..5 {
        vec.push(i).unwrap();
    }
    for i in 0..5usize {
        assert_eq!(*vec.get(i).unwrap(), i as i32);
    }
    *vec.get_mut(2).unwrap() = 99;
    assert_eq!(*vec.get(2).unwrap(), 99);
}

#[test]
fn test_get() {
    let mut vec = FixedVec::<i32, 8>::new();
    vec.push(42).unwrap();
    assert_eq!(vec.get(0), Some(&42));
    assert_eq!(vec.get(1), None);
    *vec.get_mut(0).unwrap() = 99;
    assert_eq!(vec.get(0), Some(&99));
}

#[test]
fn test_first_last() {
    let mut vec = FixedVec::<i32, 8>::new();
    assert_eq!(vec.first(), None);
    assert_eq!(vec.last(), None);
    vec.push(1).unwrap();
    vec.push(2).unwrap();
    vec.push(3).unwrap();
    assert_eq!(vec.first(), Some(&1));
    assert_eq!(vec.last(), Some(&3));
    *vec.first_mut().unwrap() = 10;
    *vec.last_mut().unwrap() = 30;
    assert_eq!(vec.first(), Some(&10));
    assert_eq!(vec.last(), Some(&30));
}

#[test]
fn test_insert_remove() {
    let mut vec = FixedVec::<i32, 8>::new();
    vec.push(1).unwrap();
    vec.push(3).unwrap();
    vec.insert(1, 2).unwrap();
    assert_eq!(vec.as_slice(), &[1, 2, 3]);
    let removed = vec.remove(1).unwrap();
    assert_eq!(removed, 2);
    assert_eq!(vec.as_slice(), &[1, 3]);
}

#[test]
fn test_swap() {
    let mut vec = FixedVec::<i32, 8>::new();

    vec.push(1).unwrap();
    vec.push(2).unwrap();
    vec.push(3).unwrap();
    vec.swap(0, 2);
    assert_eq!(vec.as_slice(), &[3, 2, 1]);
}

#[test]
fn test_reverse() {
    let mut vec = FixedVec::<i32, 8>::new();
    for i in 1..=5 {
        vec.push(i).unwrap();
    }
    vec.reverse();
    assert_eq!(vec.as_slice(), &[5, 4, 3, 2, 1]);
}

#[test]
fn fixedvec_test_clear() {
    let mut vec = FixedVec::<i32, 8>::new();
    for i in 0..5 {
        vec.push(i).unwrap();
    }

    assert_eq!(vec.len(), 5);
    vec.clear();
    assert_eq!(vec.len(), 0);
    assert!(vec.is_empty());
}

#[test]
fn test_truncate() {
    let mut vec = FixedVec::<i32, 8>::new();
    for i in 0..5 {
        vec.push(i).unwrap();
    }

    vec.truncate(3);
    assert_eq!(vec.len(), 3);
    assert_eq!(vec.as_slice(), &[0, 1, 2]);
    vec.truncate(10); // no effect
    assert_eq!(vec.len(), 3);
}

#[test]
fn fixedvec_test_iterator() {
    let mut vec = FixedVec::<i32, 8>::new();
    for i in 0..5 {
        vec.push(i).unwrap();
    }

    let items: [i32; 5] = [0, 1, 2, 3, 4];
    for (i, &expected) in items.iter().enumerate() {
        assert_eq!(*vec.get(i).unwrap(), expected);
    }

    for i in 0..5usize {
        *vec.get_mut(i).unwrap() *= 2;
    }

    let expected = [0, 2, 4, 6, 8];
    for (i, &exp) in expected.iter().enumerate() {
        assert_eq!(*vec.get(i).unwrap(), exp);
    }
}

#[test]
fn fixedvec_test_overflow() {
    let mut vec = FixedVec::<i32, 2>::new();

    assert!(vec.push(1).is_ok());
    assert!(vec.push(2).is_ok());
    assert!(vec.is_full());
    assert_eq!(vec.push(3), Err(FixedVecError::Full));
}

#[test]
fn fixedvec_test_try_push() {
    let mut vec = FixedVec::<i32, 2>::new();

    assert!(vec.try_push(1).is_ok());
    assert!(vec.try_push(2).is_ok());
    match vec.try_push(3) {
        Err(item) => assert_eq!(item, 3),
        Ok(()) => panic!("Should have failed"),
    }
}

#[test]
fn test_extend_iter() {
    let mut vec = FixedVec::<i32, 5>::new();

    let failed = vec.extend_from_iter(vec![0, 1, 2]);
    assert_eq!(failed, 0);
    assert_eq!(vec.as_slice(), &[0, 1, 2]);
    let failed = vec.extend_from_iter(vec![3, 4, 5, 6, 7, 8, 9]);
    assert_eq!(failed, 5); // 5 will fail
    assert_eq!(vec.as_slice(), &[0, 1, 2, 3, 4]);
}

#[test]
fn test_insert_out_of_bounds() {
    let mut vec = FixedVec::<i32, 8>::new();
    vec.push(1).unwrap();
    assert_eq!(vec.insert(3, 9), Err(FixedVecError::IndexOutOfBounds));
    assert_eq!(vec.as_slice(), &[1]);
}

#[test]
fn test_forward_iterator() {
    let mut vec = FixedVec::<i32, 8>::new();
    for i in 0..4 {
        vec.push(i * 11).unwrap();
    }
    let mut it = vec.iter();
    assert_eq!(it.len(), 4);
    assert_eq!(it.size_hint(), (4, Some(4)));
    assert_eq!(it.next(), Some(&0));
    assert_eq!(it.next(), Some(&11));
    assert_eq!(it.next(), Some(&22));
    assert_eq!(it.next(), Some(&33));
    assert_eq!(it.next(), None);
    assert_eq!(it.len(), 0);
}
