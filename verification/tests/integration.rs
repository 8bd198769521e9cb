//! End-to-end tests of the table through its public interface.

use f14vectormap::simd_utils;
use f14vectormap::traits::FixedHasher;
use f14vectormap::{F14VectorMap, MapError};

#[test]
fn test_basic_operations() {
    let mut map = F14VectorMap::<String, i32>::new().unwrap();
    assert!(map.is_empty());

    assert_eq!(map.insert(String::from("key1"), 100), Ok(None));
    assert_eq!(map.len(), 1);
    assert!(!map.is_empty());

    assert_eq!(map.get(&String::from("key1")), Some(&100));
    assert_eq!(map.get(&String::from("key2")), None);

    assert_eq!(map.insert(String::from("key1"), 200), Ok(Some(100)));
    assert_eq!(map.get(&String::from("key1")), Some(&200));

    assert_eq!(map.remove(&String::from("key1")), Some(200));
    assert_eq!(map.len(), 0);
}

#[test]
fn test_capacity_growth() {
    let mut map = F14VectorMap::<usize, usize>::new().unwrap();
    assert_eq!(map.capacity(), 0);

    for i in 0..20 {
        let result = map.insert(i, i);
        assert!(result.is_ok(), "insert failed i={}: {:?}", i, result.err());
        assert_eq!(map.len(), i + 1, "length mismatch after insert i={}", i);
    }

    assert_eq!(map.len(), 20, "final length should be 20");
    assert!(
        map.capacity() >= 32,
        "capacity should be at least 32, got {}",
        map.capacity()
    );
}

#[test]
fn test_iterators() {
    let mut map = F14VectorMap::<i32, &str>::new().unwrap();
    map.insert(1, "a").unwrap();
    map.insert(2, "b").unwrap();
    map.insert(3, "c").unwrap();

    // Shared iteration: each pair appears exactly once, in some slot order.
    let mut seen: Vec<(i32, &str)> = Vec::new();
    let mut iter = map.iter();
    while let Some((k, v)) = iter.next() {
        seen.push((*k, *v));
    }
    assert_eq!(seen.len(), 3);
    assert!(seen.contains(&(1, "a")));
    assert!(seen.contains(&(2, "b")));
    assert!(seen.contains(&(3, "c")));
    assert_eq!(iter.next(), None);

    // Exclusive iteration: overwrite every value.
    let mut it = map.iter_mut();
    while let Some((_, v)) = it.next(&mut map) {
        *v = "x";
    }
    assert_eq!(map.get(&1), Some(&"x"));

    // Consuming iteration: exactly the three pairs come out.
    let mut into_iter = map.into_iter();
    let mut owned: Vec<(i32, &str)> = Vec::new();
    while let Some(p) = into_iter.next() {
        owned.push(p);
    }
    assert_eq!(owned.len(), 3);
    assert!(owned.contains(&(1, "x")));
    assert!(owned.contains(&(2, "x")));
    assert!(owned.contains(&(3, "x")));
    assert_eq!(into_iter.next(), None);
}

#[test]
fn test_clear() {
    let mut map = F14VectorMap::<i32, i32>::new().unwrap();
    map.insert(1, 1).unwrap();
    map.insert(2, 2).unwrap();
    map.clear();
    assert!(map.is_empty());
    assert_eq!(map.get(&1), None);
}

#[test]
fn test_find_match() {
    let mut ctrls = [0u8; 16];
    ctrls[0] = 10;
    ctrls[1] = 20;
    ctrls[2] = 30;
    ctrls[3] = 20;

    let result = simd_utils::simd_find_match(&ctrls, 20);
    assert_eq!(result, Some(1));

    let result = simd_utils::simd_find_match(&ctrls, 30);
    assert_eq!(result, Some(2));

    let result = simd_utils::simd_find_match(&ctrls, 40);
    assert_eq!(result, None);
}

#[test]
fn test_insert_full() {
    let mut map = F14VectorMap::<i32, i32>::new().unwrap();

    for i in 0..20 {
        map.insert(i, i).unwrap();
        for j in 0..=i {
            assert_eq!(map.get(&j), Some(&j), "key {} not found after insert", j);
        }
    }

    for i in 0..20 {
        assert_eq!(map.get(&i), Some(&i), "key {} not found", i);
    }
}

#[test]
fn test_remove_boundary() {
    let mut map = F14VectorMap::<i32, i32>::new().unwrap();

    for i in 0..100 {
        map.insert(i, i).unwrap();
    }

    for i in 0..50 {
        map.remove(&i).unwrap();
    }

    assert_eq!(map.get(&49), None);
    assert_eq!(map.get(&50), Some(&50));
    assert_eq!(map.get(&51), Some(&51));
}

#[test]
fn test_rebuild() {
    let mut map = F14VectorMap::<i32, i32>::new().unwrap();

    for i in 0..100 {
        map.insert(i, i).unwrap();
    }

    for i in 0..50 {
        map.remove(&i).unwrap();
    }
    for i in 50..100 {
        assert_eq!(map.get(&i), Some(&i), "key {} should survive removal", i);
    }

    map.rebuild().unwrap();

    for i in 50..100 {
        assert_eq!(map.get(&i), Some(&i), "key {} not found", i);
    }

    assert_eq!(map.get(&50), Some(&50));
    assert_eq!(map.get(&51), Some(&51));
    assert_eq!(map.get(&99), Some(&99));
}

#[test]
fn test_high_collision() {
    let mut map = F14VectorMap::with_hasher(FixedHasher).unwrap();

    for i in 0..100 {
        map.insert(i, i).unwrap();
    }

    for i in 0..100 {
        assert_eq!(map.get(&i), Some(&i));
    }
}

#[test]
fn test_error_handling() {
    let huge_capacity = usize::MAX / 16 + 1;
    let result = F14VectorMap::<i32, i32>::with_capacity(huge_capacity);

    assert!(result.is_err());
    match result {
        Err(e) => assert_eq!(e, MapError::CapacityExceeded),
        Ok(_) => panic!("a huge capacity request must be rejected"),
    }
}

#[test]
fn test_debug_format() {
    let mut map = F14VectorMap::with_hasher(FixedHasher).unwrap();
    map.insert(String::from("a"), 1).unwrap();
    map.insert(String::from("b"), 2).unwrap();

    let debug_str = map.debug_string();
    assert!(debug_str.contains("\"a\": 1"));
    assert!(debug_str.contains("\"b\": 2"));
}

#[test]
fn test_get_performance() {
    let mut map = F14VectorMap::<i32, i32>::new().unwrap();

    for i in 0..1000 {
        map.insert(i, i).unwrap();
    }

    let start = std::time::Instant::now();
    for i in 0..1000 {
        assert_eq!(map.get(&i), Some(&i));
    }
    let duration = start.elapsed();

    println!("looking up 1000 entries took: {:?}", duration);
    assert!(duration < std::time::Duration::from_millis(1));
}

#[test]
fn test_remove_performance() {
    let mut map = F14VectorMap::<i32, i32>::new().unwrap();

    for i in 0..1000 {
        map.insert(i, i).unwrap();
    }

    let start = std::time::Instant::now();
    for i in 0..1000 {
        assert_eq!(map.remove(&i), Some(i));
    }
    let duration = start.elapsed();

    println!("removing 1000 entries took: {:?}", duration);
    assert!(duration < std::time::Duration::from_millis(1));
}
