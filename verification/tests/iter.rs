//! Tests of iteration and ranges.

use std::ops::RangeBounds;

use scry_index::build::bulk_load;
use scry_index::insert::insert;
use scry_index::iter::{first_entry, last_entry, sorted_pairs};
use scry_index::model::LinearModel;
use scry_index::node::Node;
use scry_index::{Bound, Config, Iter, Key, Range, Ratio};

/// Walks an iterator of the library with the methods of the standard one.
struct Items<'a, K, V>(Iter<'a, K, V>);

impl<'a, K: Key, V> Iterator for Items<'a, K, V> {
    type Item = (&'a K, &'a V);

    fn next(&mut self) -> Option<Self::Item> {
        self.0.next()
    }
}

/// Walks a range of the library with the methods of the standard iterators.
struct Span<'a, K, V>(Range<'a, K, V>);

impl<'a, K: Key, V> Iterator for Span<'a, K, V> {
    type Item = (&'a K, &'a V);

    fn next(&mut self) -> Option<Self::Item> {
        self.0.next()
    }
}

fn bound<K: Clone>(b: std::ops::Bound<&K>) -> Bound<K> {
    match b {
        std::ops::Bound::Included(k) => Bound::Included(k.clone()),
        std::ops::Bound::Excluded(k) => Bound::Excluded(k.clone()),
        std::ops::Bound::Unbounded => Bound::Unbounded,
    }
}

fn over<K: Key + Clone, V, R: RangeBounds<K>>(node: &Node<K, V>, range: R) -> Span<'_, K, V> {
    Span(Range::new(node, bound(range.start_bound()), bound(range.end_bound())))
}

fn make_0_to_99() -> Node<u64, u64> {
    let pairs: Vec<(u64, u64)> = (0..100).map(|i| (i, i * 10)).collect();
    bulk_load(&pairs, &Config::default()).unwrap()
}

#[test]
fn iter_empty_tree() {
    let node = Node::<u64, ()>::with_capacity(LinearModel::constant(), 5);
    assert!(Iter::new(&node).next().is_none());
}

#[test]
fn iter_single_element() {
    let pairs = vec![(42u64, "answer")];
    let node = bulk_load(&pairs, &Config::default()).unwrap();
    let items: Vec<_> = Items(Iter::new(&node)).collect();
    assert_eq!(items.len(), 1);
    assert_eq!(items[0], (&42u64, &"answer"));
}

#[test]
fn iter_all_elements() {
    let pairs: Vec<(u64, u64)> = (0..100).map(|i| (i, i * 10)).collect();
    let node = bulk_load(&pairs, &Config::default()).unwrap();
    assert_eq!(Items(Iter::new(&node)).count(), 100);
}

#[test]
fn sorted_pairs_in_order() {
    let pairs: Vec<(u64, u64)> = (0..50).map(|i| (i * 3 + 1, i)).collect();
    let node = bulk_load(&pairs, &Config::default()).unwrap();
    let sorted = sorted_pairs(&node);
    assert_eq!(sorted.len(), 50);
    for window in sorted.windows(2) {
        assert!(
            window[0].0 < window[1].0,
            "not sorted: {} >= {}",
            window[0].0,
            window[1].0
        );
    }
}

#[test]
fn sorted_pairs_match_input() {
    let pairs: Vec<(u64, &str)> = vec![(5, "e"), (10, "j"), (15, "o"), (20, "t")];
    let node = bulk_load(&pairs, &Config::default()).unwrap();
    let sorted = sorted_pairs(&node);
    assert_eq!(sorted, pairs);
}

#[test]
fn iter_after_inserts() {
    let pairs: Vec<(u64, u64)> = vec![(10, 1), (30, 3), (50, 5)];
    let mut node = bulk_load(&pairs, &Config::default()).unwrap();

    insert(&mut node, 20, 2, &Config::default());
    insert(&mut node, 40, 4, &Config::default());

    let sorted = sorted_pairs(&node);
    assert_eq!(sorted.len(), 5);
    let keys: Vec<u64> = sorted.iter().map(|(k, _)| *k).collect();
    assert_eq!(keys, vec![10, 20, 30, 40, 50]);
}

#[test]
fn iter_raw_is_sorted_bulk_load() {
    let pairs: Vec<(u64, u64)> = (0..500).map(|i| (i * 3 + 1, i)).collect();
    let node = bulk_load(&pairs, &Config::default()).unwrap();
    let keys: Vec<u64> = Items(Iter::new(&node)).map(|(k, _)| *k).collect();
    assert_eq!(keys.len(), 500);
    for w in keys.windows(2) {
        assert!(w[0] < w[1], "not sorted: {} >= {}", w[0], w[1]);
    }
}

#[test]
fn iter_raw_is_sorted_after_inserts() {
    let pairs: Vec<(u64, u64)> = (0..100).map(|i| (i * 4, i)).collect();
    let mut node = bulk_load(&pairs, &Config::default()).unwrap();
    for i in 0..100u64 {
        insert(&mut node, i * 4 + 2, i + 1000, &Config::default());
    }
    let keys: Vec<u64> = Items(Iter::new(&node)).map(|(k, _)| *k).collect();
    assert_eq!(keys.len(), 200);
    for w in keys.windows(2) {
        assert!(w[0] < w[1], "not sorted: {} >= {}", w[0], w[1]);
    }
}

#[test]
fn iter_raw_is_sorted_reverse_inserts() {
    let mut node = Node::<u64, u64>::with_capacity(LinearModel::new(Ratio::new(1, 100), 0), 16);
    for i in (0..200u64).rev() {
        insert(&mut node, i, i, &Config::default());
    }
    let keys: Vec<u64> = Items(Iter::new(&node)).map(|(k, _)| *k).collect();
    assert_eq!(keys.len(), 200);
    for w in keys.windows(2) {
        assert!(w[0] < w[1], "not sorted: {} >= {}", w[0], w[1]);
    }
}

#[test]
fn range_inclusive_both() {
    let node = make_0_to_99();
    let items: Vec<u64> = over(&node, 10..=20).map(|(k, _)| *k).collect();
    assert_eq!(items.len(), 11);
    assert_eq!(items, (10..=20).collect::<Vec<_>>());
}

#[test]
fn range_exclusive_end() {
    let node = make_0_to_99();
    let items: Vec<u64> = over(&node, 10..20).map(|(k, _)| *k).collect();
    assert_eq!(items.len(), 10);
    assert_eq!(items, (10..20).collect::<Vec<_>>());
}

#[test]
fn range_from() {
    let node = make_0_to_99();
    let items: Vec<u64> = over(&node, 90..).map(|(k, _)| *k).collect();
    assert_eq!(items.len(), 10);
    assert_eq!(items, (90..100).collect::<Vec<_>>());
}

#[test]
fn range_to() {
    let node = make_0_to_99();
    let items: Vec<u64> = over(&node, ..5).map(|(k, _)| *k).collect();
    assert_eq!(items.len(), 5);
    assert_eq!(items, (0..5).collect::<Vec<_>>());
}

#[test]
fn range_to_inclusive() {
    let node = make_0_to_99();
    let items: Vec<u64> = over(&node, ..=5).map(|(k, _)| *k).collect();
    assert_eq!(items.len(), 6);
    assert_eq!(items, (0..=5).collect::<Vec<_>>());
}

#[test]
fn range_empty_result() {
    let node = make_0_to_99();
    let items: Vec<u64> = over(&node, 200..300).map(|(k, _)| *k).collect();
    assert!(items.is_empty());
}

#[test]
fn range_single_element() {
    let node = make_0_to_99();
    let items: Vec<u64> = over(&node, 50..=50).map(|(k, _)| *k).collect();
    assert_eq!(items, vec![50]);
}

#[test]
fn first_entry_basic() {
    let node = make_0_to_99();
    let (k, v) = first_entry(&node).unwrap();
    assert_eq!(*k, 0);
    assert_eq!(*v, 0);
}

#[test]
fn last_entry_basic() {
    let node = make_0_to_99();
    let (k, v) = last_entry(&node).unwrap();
    assert_eq!(*k, 99);
    assert_eq!(*v, 990);
}

#[test]
fn first_entry_empty() {
    let node = Node::<u64, u64>::with_capacity(LinearModel::constant(), 5);
    assert!(first_entry(&node).is_none());
}

#[test]
fn last_entry_empty() {
    let node = Node::<u64, u64>::with_capacity(LinearModel::constant(), 5);
    assert!(last_entry(&node).is_none());
}

#[test]
fn size_hint_without_hint() {
    let pairs: Vec<(u64, u64)> = (0..10).map(|i| (i, i)).collect();
    let node = bulk_load(&pairs, &Config::default()).unwrap();
    let iter = Iter::new(&node);
    assert_eq!(iter.size_hint(), (0, None));
}

#[test]
fn size_hint_with_hint() {
    let pairs: Vec<(u64, u64)> = (0..10).map(|i| (i, i)).collect();
    let node = bulk_load(&pairs, &Config::default()).unwrap();
    let mut iter = Iter::with_hint(&node, 10);
    assert_eq!(iter.size_hint(), (10, Some(10)));
    iter.next();
    assert_eq!(iter.size_hint(), (9, Some(9)));
}
