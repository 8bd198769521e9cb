//! Concrete checks of the stated properties: counters, double operations,
//! clear and rebuild effects, iteration guarantees, the kernels, the
//! hashers, and the probe-position generator.

use f14vectormap::f14_map::SlotState;
use f14vectormap::probe_strategy::HybridProbeStrategy;
use f14vectormap::simd_utils;
use f14vectormap::traits::{BuildHasherExt, FixedHasher, HasherExt};
use f14vectormap::{F14VectorMap, MapError};

#[test]
fn empty_map_lookups() {
    let mut map = F14VectorMap::<u64, u64>::new().unwrap();
    assert_eq!(map.len(), 0);
    assert_eq!(map.capacity(), 0);
    assert_eq!(map.deleted_count(), 0);
    assert_eq!(map.get(&7), None);
    assert_eq!(map.remove(&7), None);
    assert!(map.is_empty());
}

#[test]
fn insert_twice_returns_first_value() {
    let mut map = F14VectorMap::<u64, u64>::new().unwrap();
    assert_eq!(map.insert(5, 10), Ok(None));
    assert_eq!(map.insert(5, 20), Ok(Some(10)));
    assert_eq!(map.get(&5), Some(&20));
    assert_eq!(map.len(), 1);
}

#[test]
fn remove_twice_returns_none_second_time() {
    let mut map = F14VectorMap::<u64, u64>::new().unwrap();
    map.insert(5, 10).unwrap();
    assert_eq!(map.remove(&5), Some(10));
    assert_eq!(map.remove(&5), None);
    assert_eq!(map.deleted_count(), 1);
}

#[test]
fn clear_resets_counters_and_lookups() {
    let mut map = F14VectorMap::<u64, u64>::new().unwrap();
    for i in 0..30 {
        map.insert(i, i * 2).unwrap();
    }
    for i in 0..10 {
        map.remove(&i).unwrap();
    }
    let cap = map.capacity();
    map.clear();
    assert_eq!(map.len(), 0);
    assert_eq!(map.deleted_count(), 0);
    assert_eq!(map.capacity(), cap);
    for i in 0..30 {
        assert_eq!(map.get(&i), None);
    }
}

#[test]
fn rebuild_purges_tombstones_and_keeps_live_pairs() {
    let mut map = F14VectorMap::<i32, i32>::new().unwrap();
    for i in 0..100 {
        map.insert(i, i).unwrap();
    }
    for i in 0..50 {
        map.remove(&i).unwrap();
    }
    assert!(map.deleted_count() > 0);
    map.rebuild().unwrap();
    assert_eq!(map.deleted_count(), 0);
    for i in 50..100 {
        assert_eq!(map.get(&i), Some(&i));
    }
    for i in 0..50 {
        assert_eq!(map.get(&i), None);
    }
}

#[test]
fn rebuild_without_tombstones_is_a_no_op() {
    let mut map = F14VectorMap::<u64, u64>::new().unwrap();
    map.insert(1, 1).unwrap();
    let cap = map.capacity();
    map.rebuild().unwrap();
    assert_eq!(map.capacity(), cap);
    assert_eq!(map.deleted_count(), 0);
    assert_eq!(map.get(&1), Some(&1));
}

#[test]
fn counters_stay_consistent() {
    let mut map = F14VectorMap::<u64, u64>::new().unwrap();
    for i in 0..200 {
        map.insert(i, i).unwrap();
        assert_eq!(map.capacity() % 16, 0);
        assert!(map.len() + map.deleted_count() <= map.capacity());
    }
    for i in 0..100 {
        map.remove(&i).unwrap();
        assert_eq!(map.capacity() % 16, 0);
        assert!(map.len() + map.deleted_count() <= map.capacity());
    }
    assert_eq!(map.len(), 100);
}

#[test]
fn capacity_rounds_up_to_whole_chunks() {
    let map = F14VectorMap::<u64, u64>::with_capacity(5).unwrap();
    assert_eq!(map.capacity(), 16);
    let map = F14VectorMap::<u64, u64>::with_capacity(48).unwrap();
    assert_eq!(map.capacity(), 48);
    let map = F14VectorMap::<u64, u64>::with_capacity(49).unwrap();
    assert_eq!(map.capacity(), 64);
    let map = F14VectorMap::<u64, u64>::with_capacity(0).unwrap();
    assert_eq!(map.capacity(), 0);
    assert_eq!(map.chunk_size(), 16);
}

#[test]
fn capacity_limit_is_enforced_exactly() {
    assert!(F14VectorMap::<u64, u64>::with_capacity(usize::MAX / 32).is_err());
    assert!(F14VectorMap::<u64, u64>::with_capacity(usize::MAX / 16 + 1).is_err());
    assert!(F14VectorMap::<u64, u64>::with_capacity(1 << 20).is_ok());
}

#[test]
fn string_keys_round_trip() {
    let mut map = F14VectorMap::<String, String>::new().unwrap();
    map.insert(String::from("alpha"), String::from("a")).unwrap();
    map.insert(String::from("beta"), String::from("b")).unwrap();
    assert_eq!(map.get(&String::from("alpha")), Some(&String::from("a")));
    assert_eq!(map.get(&String::from("beta")), Some(&String::from("b")));
    assert_eq!(map.get(&String::from("gamma")), None);
    assert_eq!(
        map.remove(&String::from("alpha")),
        Some(String::from("a"))
    );
    assert_eq!(map.get(&String::from("alpha")), None);
}

#[test]
fn shared_iteration_yields_each_key_once() {
    let mut map = F14VectorMap::<u64, u64>::new().unwrap();
    for i in 0..64 {
        map.insert(i, i + 1000).unwrap();
    }
    let mut seen: Vec<u64> = Vec::new();
    let mut iter = map.iter();
    let (lo, hi) = iter.size_hint();
    assert_eq!(lo, 64);
    assert_eq!(hi, Some(64));
    while let Some((k, v)) = iter.next() {
        assert!(!seen.contains(k), "key {} yielded twice", k);
        assert_eq!(*v, *k + 1000);
        seen.push(*k);
    }
    assert_eq!(seen.len(), 64);
}

#[test]
fn consuming_iteration_yields_exactly_len_pairs() {
    let mut map = F14VectorMap::<u64, u64>::new().unwrap();
    for i in 0..33 {
        map.insert(i, i).unwrap();
    }
    let len = map.len();
    let mut it = map.into_iter();
    assert_eq!(it.len(), len);
    let mut n = 0;
    let mut keys: Vec<u64> = Vec::new();
    while let Some((k, v)) = it.next() {
        assert_eq!(k, v);
        assert!(!keys.contains(&k));
        keys.push(k);
        n += 1;
    }
    assert_eq!(n, len);
    assert_eq!(it.len(), 0);
}

#[test]
fn exclusive_iteration_rewrites_every_value() {
    let mut map = F14VectorMap::<i32, &str>::new().unwrap();
    map.insert(1, "a").unwrap();
    map.insert(2, "b").unwrap();
    map.insert(3, "c").unwrap();
    let mut it = map.iter_mut();
    let mut steps = 0;
    while let Some((_, v)) = it.next(&mut map) {
        *v = "x";
        steps += 1;
    }
    assert_eq!(steps, 3);
    assert_eq!(map.get(&1), Some(&"x"));
    assert_eq!(map.get(&2), Some(&"x"));
    assert_eq!(map.get(&3), Some(&"x"));
    let mut it2 = map.into_iter();
    let mut n = 0;
    while let Some(_) = it2.next() {
        n += 1;
    }
    assert_eq!(n, 3);
}

#[test]
fn collisions_up_to_1024_keys() {
    let mut map = F14VectorMap::with_hasher(FixedHasher).unwrap();
    for i in 0..1024u64 {
        map.insert(i, i).unwrap();
        assert_eq!(map.len() as u64, i + 1);
    }
    for i in 0..1024u64 {
        assert_eq!(map.get(&i), Some(&i));
    }
}

#[test]
fn collisions_with_interleaved_removals() {
    let mut map = F14VectorMap::with_hasher(FixedHasher).unwrap();
    for i in 0..200u64 {
        map.insert(i, i).unwrap();
    }
    for i in (0..200u64).step_by(2) {
        assert_eq!(map.remove(&i), Some(i));
    }
    for i in 0..200u64 {
        if i % 2 == 0 {
            assert_eq!(map.get(&i), None);
        } else {
            assert_eq!(map.get(&i), Some(&i));
        }
    }
    // Re-insert over tombstones: no duplicates may arise.
    for i in (0..200u64).step_by(2) {
        assert_eq!(map.insert(i, i + 1), Ok(None));
    }
    assert_eq!(map.len(), 200);
    for i in (0..200u64).step_by(2) {
        assert_eq!(map.insert(i, i), Ok(Some(i + 1)));
    }
    assert_eq!(map.len(), 200);
}

#[test]
fn slot_states_reflect_the_lifecycle() {
    let mut map = F14VectorMap::<u64, u64>::with_capacity(16).unwrap();
    for i in 0..16 {
        assert_eq!(map.slot_state(i), SlotState::Empty);
    }
    map.insert(3, 3).unwrap();
    let full = (0..16)
        .filter(|&i| map.slot_state(i) == SlotState::Full)
        .count();
    assert_eq!(full, 1);
    map.remove(&3).unwrap();
    let deleted = (0..16)
        .filter(|&i| map.slot_state(i) == SlotState::Deleted)
        .count();
    assert_eq!(deleted, 1);
}

#[test]
fn decrement_len_only_touches_the_counter() {
    let mut map = F14VectorMap::<u64, u64>::new().unwrap();
    map.insert(1, 1).unwrap();
    map.insert(2, 2).unwrap();
    map.decrement_len();
    assert_eq!(map.len(), 1);
    assert_eq!(map.deleted_count(), 0);
}

#[test]
fn group_count_matches_capacity() {
    let map = F14VectorMap::<u64, u64>::with_capacity(64).unwrap();
    assert_eq!(map.group_count(), 4);
    assert_eq!(map.capacity(), 64);
}

#[test]
fn error_describe_texts() {
    assert_eq!(
        MapError::CapacityExceeded.describe(),
        "map capacity exceeded"
    );
    assert_eq!(
        MapError::UnsupportedSimd.describe(),
        "simd not supported on this platform"
    );
    assert_eq!(
        MapError::ConcurrentModification.describe(),
        "concurrent modification detected"
    );
    assert_eq!(MapError::InvalidSlotState.describe(), "invalid slot state");
}

#[test]
fn kernels_agree_on_edge_patterns() {
    let all_empty = [0x80u8; 16];
    assert_eq!(simd_utils::simd_find_empty(&all_empty), Some(0));
    assert_eq!(simd_utils::simd_find_match(&all_empty, 0x80), Some(0));
    assert_eq!(simd_utils::simd_find_match(&all_empty, 0x00), None);

    let mut mixed = [0x42u8; 16];
    mixed[7] = 0x81;
    assert_eq!(simd_utils::simd_find_empty(&mixed), Some(7));
    let matches = simd_utils::find_all_matches(&mixed, 0x42);
    assert_eq!(matches.len(), 15);
    assert!(!matches.contains(&7));

    let full = [0x01u8; 16];
    assert_eq!(simd_utils::simd_find_empty(&full), None);
    let matches = simd_utils::find_all_matches(&full, 0x01);
    assert_eq!(matches.len(), 16);
    for (t, m) in matches.iter().enumerate() {
        assert_eq!(*m as usize, t);
    }
}

#[test]
fn make_ctrl_byte_masks_the_high_bit() {
    assert_eq!(simd_utils::make_ctrl_byte(0xFF), 0x7F);
    assert_eq!(simd_utils::make_ctrl_byte(0x80), 0x00);
    assert_eq!(simd_utils::make_ctrl_byte(0x2A), 0x2A);
}

#[test]
fn default_hasher_is_deterministic() {
    let builder = f14vectormap::traits::DefaultHasherWrapper::new();
    let mut h1 = builder.build_hasher_ext();
    h1.write(b"abc");
    let (full1, tag1) = h1.finish_ext();
    let mut h2 = builder.build_hasher_ext();
    h2.write(b"ab");
    h2.write(b"c");
    let (full2, tag2) = h2.finish_ext();
    assert_eq!(full1, full2);
    assert_eq!(tag1, tag2);
    assert_eq!(tag1, (full1 >> 57) as u8);

    let mut h3 = builder.build_hasher_ext();
    h3.write(b"abd");
    let (full3, _) = h3.finish_ext();
    assert_ne!(full1, full3);
}

#[test]
fn fixed_hasher_sends_everything_to_zero() {
    let mut h = FixedHasher.build_hasher_ext();
    h.write(b"anything at all");
    assert_eq!(h.finish_ext(), (0, 0));
}

#[test]
fn probe_strategy_walks_chunks() {
    let mut probe = HybridProbeStrategy::new(0, 4, 1);
    assert_eq!(probe.next(), Some(0));
    assert_eq!(probe.next(), Some(1));
    assert_eq!(probe.next(), Some(2));
    assert_eq!(probe.next(), Some(3));
    assert_eq!(probe.next(), Some(16));
    assert_eq!(probe.next(), Some(17));

    let mut probe = HybridProbeStrategy::new(32, 4, 3);
    assert_eq!(probe.next(), Some(32));
    assert_eq!(probe.next(), Some(33));
    assert_eq!(probe.next(), Some(34));
    assert_eq!(probe.next(), Some(35));
    assert_eq!(probe.next(), Some(16));
}

#[test]
fn probe_strategy_respects_its_budget() {
    let mut probe = HybridProbeStrategy::new(0, 1, 1);
    let mut yielded = 0;
    while let Some(i) = probe.next() {
        assert!(i < 16);
        yielded += 1;
        assert!(yielded < 100);
    }
    assert!(yielded >= 4);
}

#[test]
fn growth_keeps_all_pairs_reachable() {
    let mut map = F14VectorMap::<u64, u64>::new().unwrap();
    for i in 0..2000 {
        map.insert(i, i * 3).unwrap();
    }
    assert_eq!(map.len(), 2000);
    for i in 0..2000 {
        assert_eq!(map.get(&i), Some(&(i * 3)));
    }
    assert!(map.capacity() % 16 == 0);
}

#[test]
fn insert_under_load_keeps_capacity() {
    let mut map = F14VectorMap::<u64, u64>::with_capacity(16).unwrap();
    for i in 0..5 {
        map.insert(i, i).unwrap();
        assert_eq!(map.capacity(), 16);
    }
    // the eleventh pair reaches the 7/10 load bound and doubles the storage
    for i in 5..12 {
        map.insert(i, i).unwrap();
    }
    assert_eq!(map.capacity(), 32);
}

#[test]
fn insert_never_raises_tombstone_count() {
    let mut map = F14VectorMap::<u64, u64>::new().unwrap();
    for i in 0..40 {
        map.insert(i, i).unwrap();
    }
    for i in 0..20 {
        map.remove(&i).unwrap();
    }
    let before = map.deleted_count();
    for i in 0..20 {
        map.insert(i, i).unwrap();
        assert!(map.deleted_count() <= before);
    }
}
