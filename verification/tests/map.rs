//! Tests of [`LearnedMap`] and its handle.

use scry_index::{Config, LearnedMap};

#[test]
fn new_map_is_empty() {
    let map = LearnedMap::<u64, ()>::new();
    assert!(map.is_empty());
    assert_eq!(map.len(), 0);
}

#[test]
fn map_insert_and_get() {
    let mut map = LearnedMap::new();
    let g = map.guard();
    assert!(map.insert(42u64, "hello", &g));
    assert_eq!(map.get(&42, &g), Some(&"hello"));
    assert_eq!(map.len(), 1);
}

#[test]
fn insert_duplicate_updates() {
    let mut map = LearnedMap::new();
    let g = map.guard();
    assert!(map.insert(1u64, "one", &g));
    assert!(!map.insert(1, "ONE", &g));
    assert_eq!(map.get(&1, &g), Some(&"ONE"));
    assert_eq!(map.len(), 1);
}

#[test]
fn remove_existing() {
    let mut map = LearnedMap::new();
    let g = map.guard();
    map.insert(1u64, "a", &g);
    map.insert(2, "b", &g);
    assert!(map.remove(&1, &g));
    assert_eq!(map.len(), 1);
    assert!(!map.contains_key(&1, &g));
    assert!(map.contains_key(&2, &g));
}

#[test]
fn remove_missing() {
    let mut map = LearnedMap::new();
    let g = map.guard();
    map.insert(1u64, "a", &g);
    assert!(!map.remove(&99, &g));
    assert_eq!(map.len(), 1);
}

#[test]
fn bulk_load_basic() {
    let pairs: Vec<(u64, u64)> = (0..100).map(|i| (i, i * 10)).collect();
    let map = LearnedMap::bulk_load(&pairs).unwrap();
    let g = map.guard();
    assert_eq!(map.len(), 100);
    for (k, v) in &pairs {
        assert_eq!(map.get(k, &g), Some(v));
    }
}

#[test]
fn bulk_load_then_insert() {
    let pairs: Vec<(u64, u64)> = vec![(10, 1), (20, 2), (30, 3)];
    let mut map = LearnedMap::bulk_load(&pairs).unwrap();
    let g = map.guard();
    map.insert(15, 15, &g);
    map.insert(25, 25, &g);
    assert_eq!(map.len(), 5);
    assert_eq!(map.get(&15, &g), Some(&15));
    assert_eq!(map.get(&25, &g), Some(&25));
}

#[test]
fn bulk_load_dedup_keeps_last() {
    let pairs: Vec<(u64, &str)> = vec![(1, "a"), (1, "A"), (2, "b"), (3, "c"), (3, "C")];
    let map = LearnedMap::bulk_load_dedup(&pairs).unwrap();
    let g = map.guard();
    assert_eq!(map.len(), 3);
    assert_eq!(map.get(&1, &g), Some(&"A"));
    assert_eq!(map.get(&2, &g), Some(&"b"));
    assert_eq!(map.get(&3, &g), Some(&"C"));
}

#[test]
fn bulk_load_dedup_no_duplicates() {
    let pairs: Vec<(u64, u64)> = (0..50).map(|i| (i, i * 10)).collect();
    let map = LearnedMap::bulk_load_dedup(&pairs).unwrap();
    let g = map.guard();
    assert_eq!(map.len(), 50);
    for (k, v) in &pairs {
        assert_eq!(map.get(k, &g), Some(v));
    }
}

#[test]
fn bulk_load_dedup_all_same_key() {
    let pairs: Vec<(u64, u64)> = (0..10).map(|i| (42, i)).collect();
    let map = LearnedMap::bulk_load_dedup(&pairs).unwrap();
    let g = map.guard();
    assert_eq!(map.len(), 1);
    assert_eq!(map.get(&42, &g), Some(&9));
}

#[test]
fn bulk_load_dedup_empty() {
    let result = LearnedMap::<u64, u64>::bulk_load_dedup(&[]);
    assert!(result.is_err());
}

#[test]
fn bulk_load_dedup_not_sorted() {
    let pairs: Vec<(u64, u64)> = vec![(3, 0), (1, 0), (2, 0)];
    let result = LearnedMap::bulk_load_dedup(&pairs);
    assert!(result.is_err());
}

#[test]
fn map_from_iterator() {
    let map: LearnedMap<u64, &str> = LearnedMap::from_iter(vec![(1, "a"), (2, "b"), (3, "c")]);
    let g = map.guard();
    assert_eq!(map.len(), 3);
    assert_eq!(map.get(&2, &g), Some(&"b"));
}

#[test]
fn extend_map() {
    let mut map = LearnedMap::new();
    {
        let g = map.guard();
        map.insert(1u64, 10, &g);
    }
    map.extend(vec![(2, 20), (3, 30)]);
    assert_eq!(map.len(), 3);
}

#[test]
fn iter_sorted_order() {
    let mut map = LearnedMap::new();
    let g = map.guard();
    map.insert(30u64, "c", &g);
    map.insert(10, "a", &g);
    map.insert(20, "b", &g);

    let items: Vec<(u64, &str)> = map.iter_sorted(&g);
    assert_eq!(items, vec![(10, "a"), (20, "b"), (30, "c")]);
}

#[test]
fn max_depth_bounded() {
    let pairs: Vec<(u64, u64)> = (0..1000).map(|i| (i, i)).collect();
    let map = LearnedMap::bulk_load(&pairs).unwrap();
    let g = map.guard();
    assert!(
        map.max_depth(&g) <= 5,
        "depth {} is too high for 1000 sequential keys",
        map.max_depth(&g)
    );
}

#[test]
fn stress_insert_lookup_remove() {
    let mut map = LearnedMap::new();
    let g = map.guard();
    let n = 500u64;

    for i in 0..n {
        map.insert(i * 3, i, &g);
    }
    assert_eq!(map.len(), n as usize);

    for i in 0..n {
        assert_eq!(map.get(&(i * 3), &g), Some(&i), "key {} missing", i * 3);
    }

    for i in (0..n).filter(|i| i % 2 == 0) {
        map.remove(&(i * 3), &g);
    }
    assert_eq!(map.len(), (n / 2) as usize);

    for i in (0..n).filter(|i| i % 2 != 0) {
        assert_eq!(map.get(&(i * 3), &g), Some(&i));
    }
}

#[test]
fn manual_rebuild() {
    let mut map = LearnedMap::new();
    let g = map.guard();
    for i in (0..100u64).rev() {
        map.insert(i, i * 10, &g);
    }
    let depth_before = map.max_depth(&g);
    map.rebuild(&g);
    let depth_after = map.max_depth(&g);
    assert!(
        depth_after <= depth_before,
        "rebuild didn't help: {depth_before} -> {depth_after}"
    );
    // All keys still present (need fresh guard after rebuild)
    let g2 = map.guard();
    for i in 0..100u64 {
        assert_eq!(map.get(&i, &g2), Some(&(i * 10)));
    }
}

#[test]
fn map_rebuild_empty_is_noop() {
    let mut map = LearnedMap::<u64, u64>::new();
    let g = map.guard();
    map.rebuild(&g);
    assert!(map.is_empty());
}

#[test]
fn large_incremental_insert() {
    let mut map = LearnedMap::new();
    let g = map.guard();
    for i in 0..1000u64 {
        map.insert(i, i, &g);
    }
    assert_eq!(map.len(), 1000);
    for i in 0..1000u64 {
        assert_eq!(map.get(&i, &g), Some(&i));
    }
}

#[test]
fn pin_convenience() {
    let mut map = LearnedMap::new();
    let mut m = map.pin();
    m.insert(1u64, "one");
    m.insert(2, "two");
    assert_eq!(m.get(&1), Some(&"one"));
    assert_eq!(m.get(&2), Some(&"two"));
    assert_eq!(m.len(), 2);
    assert!(!m.is_empty());
}

#[test]
fn map_ref_remove() {
    let mut map = LearnedMap::new();
    let mut m = map.pin();
    m.insert(10u64, 100);
    m.insert(20, 200);
    assert!(m.remove(&10));
    assert!(!m.remove(&10));
    assert_eq!(m.len(), 1);
    assert!(m.contains_key(&20));
}

#[test]
fn map_ref_iter_sorted() {
    let mut map = LearnedMap::new();
    let mut m = map.pin();
    m.insert(3u64, "c");
    m.insert(1, "a");
    m.insert(2, "b");
    let items = m.iter_sorted();
    assert_eq!(items, vec![(1, "a"), (2, "b"), (3, "c")]);
}

#[test]
fn auto_root_rebuild_from_empty() {
    let mut map = LearnedMap::new();
    let g = map.guard();
    for i in 0..200u64 {
        map.insert(i, i, &g);
    }
    let g2 = map.guard();
    let depth = map.max_depth(&g2);
    assert!(
        depth <= 12,
        "depth {depth} too high after auto root rebuild"
    );
    for i in 0..200u64 {
        assert_eq!(map.get(&i, &g2), Some(&i), "key {i} missing");
    }
}

#[test]
fn auto_root_rebuild_disabled() {
    let mut map = LearnedMap::with_config(Config::new().auto_rebuild(false));
    let g = map.guard();
    for i in 0..200u64 {
        map.insert(i, i, &g);
    }
    let depth = map.max_depth(&g);
    assert!(depth > 5, "depth {depth} too low without auto rebuild");
}

#[test]
fn bulk_load_no_early_rebuild() {
    let pairs: Vec<(u64, u64)> = (0..100).map(|i| (i, i)).collect();
    let map = LearnedMap::bulk_load(&pairs).unwrap();
    let g = map.guard();
    let depth = map.max_depth(&g);
    assert!(depth <= 3, "bulk-loaded tree depth {depth} too high");
    assert_eq!(map.len(), 100);
}

#[test]
fn manual_rebuild_resets_threshold() {
    let mut map = LearnedMap::new();
    let g = map.guard();
    for i in 0..50u64 {
        map.insert(i, i, &g);
    }
    map.rebuild(&g);
    let g2 = map.guard();
    for i in 50..150u64 {
        map.insert(i, i, &g2);
    }
    assert_eq!(map.len(), 150);
    for i in 0..150u64 {
        assert_eq!(map.get(&i, &g2), Some(&i));
    }
}

#[test]
fn clear_empties_map() {
    let mut map = LearnedMap::new();
    let g = map.guard();
    for i in 0..100u64 {
        map.insert(i, i, &g);
    }
    assert_eq!(map.len(), 100);
    map.clear(&g);
    let g2 = map.guard();
    assert_eq!(map.len(), 0);
    assert!(map.is_empty());
    for i in 0..100u64 {
        assert_eq!(map.get(&i, &g2), None);
    }
}

#[test]
fn clear_then_reinsert() {
    let mut map = LearnedMap::new();
    let g = map.guard();
    for i in 0..50u64 {
        map.insert(i, i * 10, &g);
    }
    map.clear(&g);
    let g2 = map.guard();
    for i in 0..30u64 {
        map.insert(i + 100, i, &g2);
    }
    assert_eq!(map.len(), 30);
    assert_eq!(map.get(&100, &g2), Some(&0));
    assert_eq!(map.get(&0, &g2), None);
}

#[test]
fn clear_empty_is_noop() {
    let mut map = LearnedMap::<u64, u64>::new();
    let g = map.guard();
    map.clear(&g);
    assert!(map.is_empty());
}

#[test]
fn map_ref_clear() {
    let mut map = LearnedMap::new();
    let mut m = map.pin();
    m.insert(1u64, "a");
    m.insert(2, "b");
    assert_eq!(m.len(), 2);
    m.clear();
    assert!(m.is_empty());
    assert_eq!(m.get(&1), None);
}

#[test]
fn drain_returns_sorted_entries() {
    let mut map = LearnedMap::new();
    let g = map.guard();
    for i in (0..50u64).rev() {
        map.insert(i, i * 10, &g);
    }
    assert_eq!(map.len(), 50);
    let drained = map.drain(&g);
    assert_eq!(drained.len(), 50);
    // Verify sorted order
    for w in drained.windows(2) {
        assert!(w[0].0 < w[1].0);
    }
    // Verify contents
    for (i, (k, v)) in drained.iter().enumerate() {
        assert_eq!(*k, i as u64);
        assert_eq!(*v, (i as u64) * 10);
    }
    // Map should be empty after drain
    let g2 = map.guard();
    assert!(map.is_empty());
    assert_eq!(map.get(&0, &g2), None);
}

#[test]
fn drain_empty_returns_empty() {
    let mut map = LearnedMap::<u64, u64>::new();
    let g = map.guard();
    let drained = map.drain(&g);
    assert!(drained.is_empty());
    assert!(map.is_empty());
}

#[test]
fn drain_then_reinsert() {
    let mut map = LearnedMap::new();
    let g = map.guard();
    for i in 0..30u64 {
        map.insert(i, i, &g);
    }
    let drained = map.drain(&g);
    assert_eq!(drained.len(), 30);
    let g2 = map.guard();
    for i in 100..110u64 {
        map.insert(i, i, &g2);
    }
    assert_eq!(map.len(), 10);
    assert_eq!(map.get(&100, &g2), Some(&100));
    assert_eq!(map.get(&0, &g2), None);
}

#[test]
fn map_ref_drain() {
    let mut map = LearnedMap::new();
    let mut m = map.pin();
    m.insert(3u64, "c");
    m.insert(1, "a");
    m.insert(2, "b");
    let drained = m.drain();
    assert_eq!(drained, vec![(1, "a"), (2, "b"), (3, "c")]);
    assert!(m.is_empty());
}

#[test]
fn allocated_bytes_empty() {
    let map = LearnedMap::<u64, u64>::new();
    let g = map.guard();
    let bytes = map.allocated_bytes(&g);
    // An empty map still has the root node + slot array.
    assert!(bytes > 0, "empty map should have non-zero allocation");
}

#[test]
fn allocated_bytes_grows_with_entries() {
    let mut map = LearnedMap::new();
    let g = map.guard();
    let empty_bytes = map.allocated_bytes(&g);

    for i in 0..100u64 {
        map.insert(i, i, &g);
    }
    let g2 = map.guard();
    let full_bytes = map.allocated_bytes(&g2);
    assert!(
        full_bytes > empty_bytes,
        "100 entries should use more memory than empty: {full_bytes} vs {empty_bytes}"
    );
}

#[test]
fn allocated_bytes_bulk_load() {
    let pairs: Vec<(u64, u64)> = (0..500).map(|i| (i, i)).collect();
    let map = LearnedMap::bulk_load(&pairs).unwrap();
    let g = map.guard();
    let bytes = map.allocated_bytes(&g);
    // Sanity: at minimum each entry occupies size_of key + value in a SlotInner.
    let min_data_bytes = 500 * std::mem::size_of::<u64>() * 2;
    assert!(
        bytes > min_data_bytes,
        "allocated_bytes {bytes} is less than minimum data size {min_data_bytes}"
    );
}

#[test]
fn map_ref_allocated_bytes() {
    let mut map = LearnedMap::new();
    let mut m = map.pin();
    m.insert(1u64, 1u64);
    m.insert(2, 2);
    let bytes = m.allocated_bytes();
    assert!(bytes > 0);
}

#[test]
fn cleared_and_drained_maps_are_like_new() {
    let fresh = LearnedMap::<u64, u64>::new();
    let mut map = LearnedMap::<u64, u64>::new();
    let g = map.guard();
    for round in 0..2 {
        for i in 0..500u64 {
            map.insert(i * i, i, &g);
        }
        assert!(map.allocated_bytes(&g) > fresh.allocated_bytes(&g));
        if round == 0 {
            map.clear(&g);
        } else {
            assert_eq!(map.drain(&g).len(), 500);
        }
        assert_eq!(map.len(), 0);
        assert!(map.iter_sorted(&g).is_empty());
        assert_eq!(map.max_depth(&g), 1);
        assert_eq!(map.allocated_bytes(&g), fresh.allocated_bytes(&g));
    }
}

#[test]
fn depth_does_not_fall_without_automatic_rebuilds() {
    let mut map = LearnedMap::with_config(Config::new().auto_rebuild(false));
    let g = map.guard();
    let mut depth = 1;
    for i in 0..300u64 {
        map.insert(1_000_000 + i, i, &g);
        assert!(map.max_depth(&g) >= depth);
        depth = map.max_depth(&g);
    }
    for i in 0..300u64 {
        map.remove(&(1_000_000 + i), &g);
        assert_eq!(map.max_depth(&g), depth);
    }
    assert!(depth > 2);
}
