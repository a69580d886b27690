//! Tests of bulk loading.

use scry_index::build::{build_degenerate, bulk_load};
use scry_index::lookup::get;
use scry_index::{Config, Error};

fn default_config() -> Config {
    Config::default()
}

#[test]
fn bulk_load_empty() {
    let result = bulk_load::<u64, ()>(&[], &default_config());
    assert!(matches!(result, Err(Error::EmptyData)));
}

#[test]
fn bulk_load_not_sorted() {
    let pairs = vec![(3u64, "c"), (1, "a"), (2, "b")];
    let result = bulk_load(&pairs, &default_config());
    assert!(matches!(result, Err(Error::NotSorted)));
}

#[test]
fn bulk_load_duplicates_rejected() {
    let pairs = vec![(1u64, "a"), (1, "b"), (2, "c")];
    let result = bulk_load(&pairs, &default_config());
    assert!(matches!(result, Err(Error::NotSorted)));
}

#[test]
fn bulk_load_single() {
    let pairs = vec![(42u64, "hello")];
    let node = bulk_load(&pairs, &default_config()).unwrap();
    assert_eq!(node.total_keys(), 1);
}

#[test]
fn bulk_load_sequential() {
    let pairs: Vec<(u64, usize)> = (0..100).map(|i| (i, i as usize)).collect();
    let node = bulk_load(&pairs, &default_config()).unwrap();
    assert_eq!(node.total_keys(), 100);
}

#[test]
fn bulk_load_preserves_all_keys() {
    let pairs: Vec<(u64, u64)> = (0..50).map(|i| (i * 7 + 3, i)).collect();
    let node = bulk_load(&pairs, &default_config()).unwrap();
    assert_eq!(node.total_keys(), 50);
}

#[test]
fn bulk_load_sparse_keys() {
    let pairs = vec![(1u64, 'a'), (1000, 'b'), (1_000_000, 'c')];
    let node = bulk_load(&pairs, &default_config()).unwrap();
    assert_eq!(node.total_keys(), 3);
}

#[test]
fn bulk_load_signed_keys() {
    let pairs: Vec<(i64, &str)> = vec![(-100, "neg"), (0, "zero"), (100, "pos")];
    let node = bulk_load(&pairs, &default_config()).unwrap();
    assert_eq!(node.total_keys(), 3);
}

#[test]
fn bulk_load_same_f64_keys() {
    let base: u64 = 1_700_000_000_000_000_000;
    let pairs: Vec<(u64, u64)> = (0..20).map(|i| (base + i, i)).collect();
    let node = bulk_load(&pairs, &default_config()).unwrap();
    assert_eq!(node.total_keys(), 20);
    for (k, v) in &pairs {
        assert_eq!(
            get(&node, k),
            Some(v),
            "missing key {k}"
        );
    }
}

#[test]
fn build_degenerate_two_keys() {
    let base: u64 = 1_700_000_000_000_000_000;
    let pairs = vec![(base, 1u64), (base + 1, 2)];
    let node = build_degenerate(pairs.clone());
    assert_eq!(node.total_keys(), 2);
    assert_eq!(get(&node, &base), Some(&1));
    assert_eq!(get(&node, &(base + 1)), Some(&2));
}

#[test]
fn build_degenerate_many_keys() {
    let base: u64 = 1_700_000_000_000_000_000;
    let pairs: Vec<(u64, u64)> = (0..50).map(|i| (base + i, i)).collect();
    let node = build_degenerate(pairs.clone());
    assert_eq!(node.total_keys(), 50);
    for (k, v) in &pairs {
        assert_eq!(
            get(&node, k),
            Some(v),
            "missing key {k}"
        );
    }
}
