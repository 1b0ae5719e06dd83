use sakurai::hashmap::HashMap;
use sakurai::hashmap::HashMapError;

#[test]
fn test_access() {
    let mut map = HashMap::<String, 8>::new();

    assert!(map.insert(42, "hello".to_string()).unwrap().is_none());
    assert_eq!(map.len(), 1);
    assert!(!map.is_empty());

    assert_eq!(map.get(&42), Some(&"hello".to_string()));
    assert_eq!(map.get(&99), None);
}

#[test]
fn test_replace() {
    let mut map = HashMap::<String, 8>::new();

    map.insert(42, "hello".to_string()).unwrap();
    let old_value = map.insert(42, "world".to_string()).unwrap();

    assert_eq!(old_value, Some("hello".to_string()));
    assert_eq!(map.get(&42), Some(&"world".to_string()));
    assert_eq!(map.len(), 1);
}

#[test]
fn hashmap_test_remove() {
    let mut map = HashMap::<String, 8>::new();

    map.insert(42, "hello".to_string()).unwrap();
    assert_eq!(map.len(), 1);

    let removed = map.remove(&42);
    assert_eq!(removed, Some("hello".to_string()));
    assert_eq!(map.len(), 0);
    assert!(map.is_empty());

    assert_eq!(map.get(&42), None);
}

#[test]
fn test_contains() {
    let mut map = HashMap::<String, 8>::new();

    assert!(!map.contains_key(&42));

    map.insert(42, "hello".to_string()).unwrap();
    assert!(map.contains_key(&42));
    assert!(!map.contains_key(&99));
}

#[test]
fn test_getmut() {
    let mut map = HashMap::<String, 8>::new();

    map.insert(42, "hello".to_string()).unwrap();

    if let Some(value) = map.get_mut(&42) {
        value.push_str(" world");
    }

    assert_eq!(map.get(&42), Some(&"hello world".to_string()));
}

#[test]
fn hashmap_test_clear() {
    let mut map = HashMap::<String, 8>::new();

    for i in 0u64..5 {
        map.insert(i, format!("value{}", i)).unwrap();
    }

    assert_eq!(map.len(), 5);
    map.clear();
    assert_eq!(map.len(), 0);
    assert!(map.is_empty());
}

#[test]
fn test_collisions() {
    let mut map = HashMap::<String, 8>::new();
    for i in 0u64..6 {
        map.insert(i, format!("value{}", i)).unwrap();
    }
    for i in 0u64..6 {
        assert_eq!(map.get(&i), Some(&format!("value{}", i)));
    }
}

#[test]
fn test_iter() {
    let mut map = HashMap::<String, 8>::new();

    for i in 0u64..5 {
        map.insert(i, format!("value{}", i)).unwrap();
    }

    let mut pairs: Vec<(u64, String)> = Vec::new();
    let mut it = map.iter();
    while let Some((k, v)) = it.next() {
        pairs.push((*k, v.clone()));
    }
    pairs.sort_by_key(|(k, _)| *k);

    for (i, (key, value)) in pairs.iter().enumerate() {
        assert_eq!(*key, i as u64);
        assert_eq!(value, &format!("value{}", i));
    }
}

#[test]
fn test_full_map() {
    let mut map = HashMap::<String, 8>::new();
    for i in 0u64..6 {
        map.insert(i, format!("value{}", i)).unwrap();
    }
    assert!(map.is_full());
    assert_eq!(map.insert(99, "overflow".to_string()), Err(HashMapError::Full));
    assert_eq!(map.len(), 6);
    assert_eq!(map.get(&99), None);
}

#[test]
fn test_remove_absent() {
    let mut map = HashMap::<String, 8>::new();
    map.insert(7, "seven".to_string()).unwrap();
    assert_eq!(map.remove(&8), None);
    assert_eq!(map.len(), 1);
}

#[test]
fn test_reinsert_after_remove() {
    let mut map = HashMap::<String, 8>::new();
    map.insert(1, "one".to_string()).unwrap();
    map.insert(2, "two".to_string()).unwrap();
    assert_eq!(map.remove(&1), Some("one".to_string()));
    map.insert(1, "uno".to_string()).unwrap();
    assert_eq!(map.get(&1), Some(&"uno".to_string()));
    assert_eq!(map.get(&2), Some(&"two".to_string()));
    assert_eq!(map.len(), 2);
}
