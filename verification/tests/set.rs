//! Tests of [`LearnedSet`] and its handle.

use scry_index::LearnedSet;

#[test]
fn basic_set_ops() {
    let mut set = LearnedSet::new();
    let g = set.guard();
    assert!(set.insert(1u64, &g));
    assert!(set.insert(2, &g));
    assert!(!set.insert(1, &g)); // duplicate
    assert_eq!(set.len(), 2);
    assert!(set.contains(&1, &g));
    assert!(set.remove(&1, &g));
    assert!(!set.contains(&1, &g));
    assert_eq!(set.len(), 1);
}

#[test]
fn from_iterator() {
    let set: LearnedSet<u64> = LearnedSet::from_iter(vec![3, 1, 2]);
    let g = set.guard();
    assert_eq!(set.len(), 3);
    assert!(set.contains(&1, &g));
    assert!(set.contains(&2, &g));
    assert!(set.contains(&3, &g));
}

#[test]
fn bulk_load_set() {
    let keys: Vec<u64> = (0..100).collect();
    let set = LearnedSet::bulk_load(&keys).unwrap();
    let g = set.guard();
    assert_eq!(set.len(), 100);
    for k in &keys {
        assert!(set.contains(k, &g));
    }
}

#[test]
fn set_ref_convenience() {
    let mut set = LearnedSet::new();
    let mut s = set.pin();
    assert!(s.insert(10u64));
    assert!(s.insert(20));
    assert!(!s.insert(10));
    assert_eq!(s.len(), 2);
    assert!(s.contains(&10));
    assert!(s.remove(&10));
    assert!(!s.contains(&10));
    assert_eq!(s.len(), 1);
}
