//! Tests of lookups.

use scry_index::build::bulk_load;
use scry_index::lookup::get;
use scry_index::node::Node;
use scry_index::Config;

fn build_test_tree() -> Node<u64, &'static str> {
    let pairs: Vec<(u64, &str)> = vec![
        (10, "ten"),
        (20, "twenty"),
        (30, "thirty"),
        (40, "forty"),
        (50, "fifty"),
    ];
    bulk_load(&pairs, &Config::default()).unwrap()
}

#[test]
fn find_existing_keys() {
    let tree = build_test_tree();
    assert_eq!(get(&tree, &10), Some(&"ten"));
    assert_eq!(get(&tree, &20), Some(&"twenty"));
    assert_eq!(get(&tree, &30), Some(&"thirty"));
    assert_eq!(get(&tree, &40), Some(&"forty"));
    assert_eq!(get(&tree, &50), Some(&"fifty"));
}

#[test]
fn missing_keys_return_none() {
    let tree = build_test_tree();
    assert_eq!(get(&tree, &0), None);
    assert_eq!(get(&tree, &15), None);
    assert_eq!(get(&tree, &25), None);
    assert_eq!(get(&tree, &100), None);
}

#[test]
fn contains_key_works() {
    let tree = build_test_tree();
    assert!(get(&tree, &10).is_some());
    assert!(get(&tree, &50).is_some());
    assert!(get(&tree, &99).is_none());
}

#[test]
fn single_element_tree() {
    let pairs = vec![(42u64, "answer")];
    let tree = bulk_load(&pairs, &Config::default()).unwrap();
    assert_eq!(get(&tree, &42), Some(&"answer"));
    assert_eq!(get(&tree, &0), None);
}

#[test]
fn large_tree_all_found() {
    let pairs: Vec<(u64, u64)> = (0..1000).map(|i| (i * 3, i)).collect();
    let tree = bulk_load(&pairs, &Config::default()).unwrap();
    for (k, v) in &pairs {
        assert_eq!(get(&tree, k), Some(v), "key {k} not found in tree");
    }
}

#[test]
fn large_tree_gaps_not_found() {
    let pairs: Vec<(u64, u64)> = (0..100).map(|i| (i * 10, i)).collect();
    let tree = bulk_load(&pairs, &Config::default()).unwrap();
    for i in 0..100 {
        let gap_key = i * 10 + 5;
        assert_eq!(
            get(&tree, &gap_key),
            None,
            "gap key {gap_key} should not be found"
        );
    }
}
