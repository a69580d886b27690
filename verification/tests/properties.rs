//! Maps and sets against the standard collections, on pseudo-random input.

use std::collections::{BTreeMap, BTreeSet};

use scry_index::{Bound, Config, LearnedMap, LearnedSet, Ratio};

/// A linear congruential generator.
struct Numbers(u64);

impl Numbers {
    fn below(&mut self, limit: u64) -> u64 {
        self.0 = self
            .0
            .wrapping_mul(6_364_136_223_846_793_005)
            .wrapping_add(1_442_695_040_888_963_407);
        (self.0 >> 33) % limit
    }

    fn unique_keys(&mut self, count: usize, limit: u64) -> Vec<u64> {
        let mut seen = BTreeSet::new();
        let mut keys = Vec::new();
        while keys.len() < count {
            let k = self.below(limit);
            if seen.insert(k) {
                keys.push(k);
            }
        }
        keys
    }
}

#[test]
fn insert_lookup_roundtrip() {
    for seed in 0..20 {
        let keys = Numbers(seed).unique_keys(200, 100_000);
        let mut map = LearnedMap::new();
        let g = map.guard();
        for &k in &keys {
            map.insert(k, k * 10, &g);
        }
        assert_eq!(map.len(), keys.len());
        for &k in &keys {
            assert_eq!(map.get(&k, &g), Some(&(k * 10)));
        }
    }
}

#[test]
fn insert_overwrite_keeps_latest() {
    let keys = Numbers(1).unique_keys(100, 100_000);
    let mut map = LearnedMap::new();
    let g = map.guard();
    for &k in &keys {
        map.insert(k, 1u64, &g);
    }
    for &k in &keys {
        map.insert(k, 2, &g);
    }
    assert_eq!(map.len(), keys.len());
    for &k in &keys {
        assert_eq!(map.get(&k, &g), Some(&2u64));
    }
}

#[test]
fn remove_makes_key_unfindable() {
    for seed in 0..20 {
        let keys = Numbers(seed).unique_keys(100, 100_000);
        let mut map = LearnedMap::new();
        let g = map.guard();
        for &k in &keys {
            map.insert(k, k, &g);
        }
        let (to_remove, to_keep) = keys.split_at(keys.len() / 2);
        for k in to_remove {
            assert!(map.remove(k, &g));
        }
        assert_eq!(map.len(), to_keep.len());
        for k in to_remove {
            assert_eq!(map.get(k, &g), None);
        }
        for k in to_keep {
            assert_eq!(map.get(k, &g), Some(k));
        }
    }
}

#[test]
fn iter_sorted_matches_insert_set() {
    for seed in 0..20 {
        let keys = Numbers(seed).unique_keys(150, 100_000);
        let mut map = LearnedMap::new();
        let g = map.guard();
        let mut expected = BTreeMap::new();
        for &k in &keys {
            map.insert(k, k, &g);
            expected.insert(k, k);
        }
        let expected_items: Vec<(u64, u64)> = expected.into_iter().collect();
        assert_eq!(map.iter_sorted(&g), expected_items);
    }
}

#[test]
fn bulk_load_roundtrip() {
    for seed in 0..20 {
        let mut keys = Numbers(seed).unique_keys(200, 100_000);
        keys.sort_unstable();
        let pairs: Vec<(u64, u64)> = keys.iter().map(|&k| (k, k * 3)).collect();
        let map = LearnedMap::bulk_load(&pairs).unwrap();
        let g = map.guard();
        assert_eq!(map.len(), keys.len());
        for &k in &keys {
            assert_eq!(map.get(&k, &g), Some(&(k * 3)));
        }
        assert_eq!(map.iter_sorted(&g), pairs);
    }
}

#[test]
fn rebuild_preserves_all_entries() {
    let keys = Numbers(7).unique_keys(200, 100_000);
    let mut map = LearnedMap::new();
    let g = map.guard();
    for &k in &keys {
        map.insert(k, k, &g);
    }
    let before = map.iter_sorted(&g);
    map.rebuild(&g);
    assert_eq!(map.iter_sorted(&g), before);
    assert_eq!(map.len(), keys.len());
}

#[test]
fn mixed_ops_match_btreemap() {
    for seed in 0..40 {
        let mut numbers = Numbers(seed);
        let mut map = LearnedMap::new();
        let g = map.guard();
        let mut oracle = BTreeMap::new();
        for i in 0..600 {
            let key = numbers.below(400);
            if numbers.below(3) > 0 {
                let new = map.insert(key, i, &g);
                assert_eq!(new, oracle.insert(key, i).is_none());
            } else {
                assert_eq!(map.remove(&key, &g), oracle.remove(&key).is_some());
            }
            assert_eq!(map.len(), oracle.len());
        }
        for (&k, &v) in &oracle {
            assert_eq!(map.get(&k, &g), Some(&v));
        }
        let first = map.first_key_value(&g).map(|(k, _)| *k);
        assert_eq!(first, oracle.keys().next().copied());
        let last = map.last_key_value(&g).map(|(k, _)| *k);
        assert_eq!(last, oracle.keys().next_back().copied());
    }
}

#[test]
fn set_matches_btreeset() {
    let mut numbers = Numbers(3);
    let mut set = LearnedSet::new();
    let g = set.guard();
    let mut oracle = BTreeSet::new();
    for _ in 0..400 {
        let k = numbers.below(10_000);
        assert_eq!(set.insert(k, &g), oracle.insert(k));
    }
    for _ in 0..400 {
        let k = numbers.below(10_000);
        assert_eq!(set.remove(&k, &g), oracle.remove(&k));
    }
    assert_eq!(set.len(), oracle.len());
    for k in &oracle {
        assert!(set.contains(k, &g));
    }
}

#[test]
fn various_expansion_factors() {
    for seed in 0..10u32 {
        let mut keys = Numbers(u64::from(seed)).unique_keys(100, 100_000);
        keys.sort_unstable();
        let pairs: Vec<(u64, u64)> = keys.iter().map(|&k| (k, k)).collect();
        let config = Config::new().expansion_factor(Ratio::new(100 + 40 * seed, 100));
        let map = LearnedMap::bulk_load_with_config(&pairs, config).unwrap();
        let g = map.guard();
        assert_eq!(map.len(), keys.len());
        for &k in &keys {
            assert_eq!(map.get(&k, &g), Some(&k));
        }
    }
}

#[test]
fn range_matches_btreemap_range() {
    for seed in 0..40 {
        let mut numbers = Numbers(seed);
        let keys = numbers.unique_keys(200, 100_000);
        let mut map = LearnedMap::new();
        let g = map.guard();
        let mut oracle = BTreeMap::new();
        for &k in &keys {
            map.insert(k, k, &g);
            oracle.insert(k, k);
        }
        let (a, b) = (numbers.below(100_000), numbers.below(100_000));
        let (lo, hi) = (a.min(b), a.max(b));
        let mut range = map.range(Bound::Included(lo), Bound::Included(hi), &g);
        let mut map_keys = Vec::new();
        while let Some((k, _)) = range.next() {
            map_keys.push(*k);
        }
        let btree_keys: Vec<u64> = oracle.range(lo..=hi).map(|(k, _)| *k).collect();
        assert_eq!(map_keys, btree_keys);
        let count = map.range_count(Bound::Excluded(lo), Bound::Excluded(hi), &g);
        let inside = oracle.keys().filter(|k| lo < **k && **k < hi).count();
        assert_eq!(count, inside);
    }
}

#[test]
fn every_operation_matches_btreemap() {
    for seed in 0..30 {
        let mut numbers = Numbers(seed);
        let mut map = LearnedMap::new();
        let g = map.guard();
        let mut oracle = BTreeMap::new();
        for _ in 0..512 {
            let (key, value) = (numbers.below(64) << numbers.below(50), numbers.below(1000));
            match numbers.below(8) {
                0 | 1 => {
                    assert_eq!(map.insert(key, value, &g), oracle.insert(key, value).is_none());
                }
                2 => assert_eq!(map.get(&key, &g), oracle.get(&key)),
                3 => assert_eq!(map.remove(&key, &g), oracle.remove(&key).is_some()),
                4 => {
                    let expected = *oracle.entry(key).or_insert(value);
                    assert_eq!(*map.get_or_insert(key, value, &g), expected);
                }
                5 => assert_eq!(map.contains_key(&key, &g), oracle.contains_key(&key)),
                6 => {
                    let expected: Vec<(u64, u64)> = oracle.iter().map(|(k, v)| (*k, *v)).collect();
                    assert_eq!(map.iter_sorted(&g), expected);
                }
                _ => {
                    let hi = key.saturating_add(1 << 30);
                    let count = map.range_count(Bound::Included(key), Bound::Included(hi), &g);
                    assert_eq!(count, oracle.range(key..=hi).count());
                }
            }
            assert_eq!(map.len(), oracle.len());
        }
    }
}

#[test]
fn bulk_loads_of_any_sorted_input_match_btreemap() {
    for seed in 0..60 {
        let mut numbers = Numbers(seed);
        let count = numbers.below(200) as usize;
        let limit = 1 << (4 + numbers.below(50));
        let mut pairs: Vec<(u64, u64)> =
            (0..count).map(|i| (numbers.below(limit), i as u64)).collect();
        pairs.sort_by_key(|(k, _)| *k);
        let oracle: BTreeMap<u64, u64> = pairs.iter().copied().collect();
        let expected: Vec<(u64, u64)> = oracle.into_iter().collect();

        match LearnedMap::bulk_load_dedup(&pairs) {
            Ok(map) => {
                let g = map.guard();
                assert_eq!(map.iter_sorted(&g), expected);
                assert_eq!(map.len(), expected.len());
            }
            Err(_) => assert!(pairs.is_empty()),
        }
        match LearnedMap::bulk_load(&pairs) {
            Ok(map) => {
                let g = map.guard();
                assert_eq!(map.iter_sorted(&g), expected);
                assert_eq!(pairs.len(), expected.len());
            }
            Err(_) => assert!(pairs.is_empty() || expected.len() < pairs.len()),
        }
    }
}

#[test]
fn string_operations_match_btreemap() {
    for seed in 0..20 {
        let mut numbers = Numbers(seed);
        let mut map: LearnedMap<String, u64> = LearnedMap::new();
        let g = map.guard();
        let mut oracle = BTreeMap::new();
        for value in 0..256 {
            let prefix = "shared-prefix-of-keys-".get(..numbers.below(23) as usize).unwrap();
            let key = format!("{prefix}{}", numbers.below(40));
            if numbers.below(3) > 0 {
                assert_eq!(
                    map.insert(key.clone(), value, &g),
                    oracle.insert(key, value).is_none()
                );
            } else {
                assert_eq!(map.remove(&key, &g), oracle.remove(&key).is_some());
            }
        }
        let expected: Vec<(String, u64)> = oracle.into_iter().collect();
        assert_eq!(map.iter_sorted(&g), expected);
    }
}
