use sakurai::btree::BTree;
use sakurai::btree::BTreeError;

#[test]
fn test_insert_get() {
    let mut tree = BTree::<i32, 8>::new();

    assert!(tree.insert(42, 100).unwrap().is_none());
    assert_eq!(tree.len(), 1);
    assert!(!tree.is_empty());

    assert_eq!(tree.get(&42), Some(&100));
    assert_eq!(tree.get(&99), None);
}

#[test]
fn test_insert_replace() {
    let mut tree = BTree::<i32, 8>::new();

    tree.insert(42, 100).unwrap();
    let old_value = tree.insert(42, 200).unwrap();

    assert_eq!(old_value, Some(100));
    assert_eq!(tree.get(&42), Some(&200));
    assert_eq!(tree.len(), 1);
}

#[test]
fn btree_test_remove() {
    let mut tree = BTree::<i32, 8>::new();
    tree.insert(42, 100).unwrap();
    assert_eq!(tree.len(), 1);

    let removed = tree.remove(&42);
    assert_eq!(removed, Some(100));
    assert_eq!(tree.len(), 0);
    assert!(tree.is_empty());

    assert_eq!(tree.get(&42), None);
}

#[test]
fn test_contains_key() {
    let mut tree = BTree::<i32, 8>::new();
    assert!(!tree.contains_key(&42));

    tree.insert(42, 100).unwrap();
    assert!(tree.contains_key(&42));
    assert!(!tree.contains_key(&99));
}

#[test]
fn test_multiple_insertions() {
    let mut tree = BTree::<i32, 16>::new();
    for i in 0u64..10 {
        tree.insert(i, i as i32 * 2).unwrap();
    }
    assert_eq!(tree.len(), 10);
    for i in 0u64..10 {
        assert_eq!(tree.get(&i), Some(&(i as i32 * 2)));
    }
}

#[test]
fn test_ordered_iteration() {
    let mut tree = BTree::<i32, 16>::new();
    let keys: [u64; 9] = [5, 2, 8, 1, 9, 3, 7, 4, 6];
    for &key in &keys {
        tree.insert(key, key as i32).unwrap();
    }

    let mut sorted_keys: Vec<u64> = Vec::new();
    let mut it = tree.iter();
    while let Some((k, _)) = it.next() {
        sorted_keys.push(*k);
    }
    sorted_keys.sort();

    let expected: Vec<u64> = (1..=9).collect();
    assert_eq!(sorted_keys, expected);
}

#[test]
fn btree_test_clear() {
    let mut tree = BTree::<i32, 8>::new();
    for i in 0u64..5 {
        tree.insert(i, i as i32).unwrap();
    }

    assert_eq!(tree.len(), 5);
    tree.clear();
    assert_eq!(tree.len(), 0);
    assert!(tree.is_empty());

    for i in 0u64..5 {
        assert_eq!(tree.get(&i), None);
    }
}

#[test]
fn test_branchless_search() {
    let mut tree = BTree::<i32, 64>::new();
    for i in 0u64..20 {
        tree.insert(i * 2, i as i32).unwrap();
    }

    for i in 0u64..20 {
        assert_eq!(tree.get(&(i * 2)), Some(&(i as i32)));
        assert_eq!(tree.get(&(i * 2 + 1)), None);
    }
}

#[test]
fn test_iteration_is_ascending() {
    let mut tree = BTree::<i32, 16>::new();
    let keys: [u64; 9] = [5, 2, 8, 1, 9, 3, 7, 4, 6];
    for &key in &keys {
        tree.insert(key, key as i32).unwrap();
    }

    let mut yielded: Vec<u64> = Vec::new();
    let mut it = tree.iter();
    while let Some((k, v)) = it.next() {
        assert_eq!(*v, *k as i32);
        yielded.push(*k);
    }
    assert_eq!(yielded, vec![1, 2, 3, 4, 5, 6, 7, 8, 9]);
    for w in yielded.windows(2) {
        assert!(w[0] < w[1]);
    }
}

#[test]
fn test_capacity_boundary() {
    let mut tree = BTree::<i32, 8>::new();
    for i in 0u64..8 {
        assert!(tree.insert(i * 10, i as i32).unwrap().is_none());
    }
    assert_eq!(tree.len(), 8);

    assert_eq!(tree.insert(999, -1), Err(BTreeError::Full));
    assert_eq!(tree.len(), 8);
    assert_eq!(tree.get(&999), None);

    // Overwriting a present key still succeeds at capacity.
    assert_eq!(tree.insert(0, 123).unwrap(), Some(0));
    assert_eq!(tree.len(), 8);
}

#[test]
fn test_removal_len() {
    let mut tree = BTree::<i32, 8>::new();
    tree.insert(1, 10).unwrap();
    tree.insert(2, 20).unwrap();
    assert_eq!(tree.len(), 2);

    assert_eq!(tree.remove(&3), None);
    assert_eq!(tree.len(), 2);

    assert_eq!(tree.remove(&1), Some(10));
    assert_eq!(tree.len(), 1);
    assert_eq!(tree.remove(&1), None);
    assert_eq!(tree.len(), 1);
}

#[test]
fn test_nominal_capacity() {
    let tree = BTree::<i32, 8>::new();
    assert_eq!(tree.capacity(), 4096);
}

#[test]
fn test_empty_iteration() {
    let tree = BTree::<i32, 8>::new();
    let mut it = tree.iter();
    assert!(it.next().is_none());
    assert!(it.next().is_none());
    assert_eq!(it.size_hint(), (0, Some(0)));
}
