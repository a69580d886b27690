//! Tests of inserts.

use scry_index::build::bulk_load;
use scry_index::insert::{
    build_conflict_node, build_single_entry_child, get_or_insert, insert, InsertResult,
};
use scry_index::lookup::get;
use scry_index::model::LinearModel;
use scry_index::node::{Node, Slot};
use scry_index::{Config, Ratio};

fn cfg() -> Config {
    Config::default()
}

fn empty_root() -> Node<u64, u64> {
    let model = LinearModel::new(Ratio::new(1, 10), 0);
    Node::with_capacity(model, 100)
}

#[test]
fn insert_into_empty_slot() {
    let mut node = empty_root();
    let result = insert(&mut node, 50, 500, &cfg());
    assert_eq!(result, InsertResult::Inserted);
    assert_eq!(node.total_keys(), 1);
}

#[test]
fn insert_duplicate_returns_updated() {
    let mut node = empty_root();
    insert(&mut node, 50, 500, &cfg());
    let result = insert(&mut node, 50, 5000, &cfg());
    assert_eq!(result, InsertResult::Updated);
    assert_eq!(node.total_keys(), 1);
}

#[test]
fn insert_conflict_creates_child() {
    let pairs: Vec<(u64, &str)> = vec![(10, "a"), (20, "b")];
    let mut node = bulk_load(&pairs, &Config::default()).unwrap();
    let initial_keys = node.total_keys();

    insert(&mut node, 15, "c", &cfg());
    assert_eq!(node.total_keys(), initial_keys + 1);

    assert_eq!(get(&node, &10), Some(&"a"));
    assert_eq!(get(&node, &15), Some(&"c"));
    assert_eq!(get(&node, &20), Some(&"b"));
}

#[test]
fn insert_many_sequential() {
    let c = cfg();
    let mut node = empty_root();
    for i in 0..100u64 {
        insert(&mut node, i, i, &c);
    }
    assert_eq!(node.total_keys(), 100);
    for i in 0..100u64 {
        assert_eq!(
            get(&node, &i),
            Some(&i),
            "key {i} not found after sequential insert"
        );
    }
}

#[test]
fn insert_reverse_order() {
    let c = cfg();
    let mut node = empty_root();
    for i in (0..50u64).rev() {
        insert(&mut node, i, i * 10, &c);
    }
    assert_eq!(node.total_keys(), 50);
    for i in 0..50u64 {
        assert_eq!(get(&node, &i), Some(&(i * 10)));
    }
}

#[test]
fn insert_update_preserves_count() {
    let c = cfg();
    let mut node = empty_root();
    insert(&mut node, 1, 10, &c);
    insert(&mut node, 2, 20, &c);
    insert(&mut node, 3, 30, &c);
    assert_eq!(node.total_keys(), 3);

    insert(&mut node, 2, 200, &c);
    assert_eq!(node.total_keys(), 3);
    assert_eq!(get(&node, &2), Some(&200));
}

#[test]
fn insert_into_bulk_loaded_tree() {
    let c = cfg();
    let pairs: Vec<(u64, u64)> = (0..100).map(|i| (i * 2, i)).collect();
    let mut node = bulk_load(&pairs, &Config::default()).unwrap();

    for i in 0..100u64 {
        insert(&mut node, i * 2 + 1, i + 1000, &c);
    }

    assert_eq!(node.total_keys(), 200);

    for i in 0..200u64 {
        assert!(
            get(&node, &i).is_some(),
            "key {i} not found after mixed bulk_load + insert"
        );
    }
}

#[test]
fn conflict_node_is_small() {
    let node = build_conflict_node(10u64, "a", 20u64, "b");
    assert_eq!(node.capacity(), 4);
    assert_eq!(node.total_keys(), 2);
}

#[test]
fn conflict_node_both_findable() {
    let node = build_conflict_node(100u64, 1, 200u64, 2);
    assert_eq!(get(&node, &100), Some(&1));
    assert_eq!(get(&node, &200), Some(&2));
}

#[test]
fn insert_update_returns_correct_result() {
    let c = cfg();
    let mut node = empty_root();
    assert_eq!(insert(&mut node, 1, 10, &c), InsertResult::Inserted);
    assert_eq!(insert(&mut node, 1, 20, &c), InsertResult::Updated);
    assert_eq!(insert(&mut node, 2, 30, &c), InsertResult::Inserted);
}

#[test]
fn insert_value_is_updated() {
    let c = cfg();
    let mut node = empty_root();
    insert(&mut node, 42, 100, &c);
    assert_eq!(get(&node, &42), Some(&100));
    insert(&mut node, 42, 999, &c);
    assert_eq!(get(&node, &42), Some(&999));
}

#[test]
fn conflict_node_same_f64_keys() {
    let base: u64 = 1_700_000_000_000_000_000;
    #[allow(clippy::float_cmp)]
    {
        assert_eq!(base as f64, (base + 1) as f64, "precondition: same f64");
    }
    let node = build_conflict_node(base, "a", base + 1, "b");
    assert_eq!(node.total_keys(), 2);
    assert_eq!(get(&node, &base), Some(&"a"));
    assert_eq!(get(&node, &(base + 1)), Some(&"b"));
}

#[test]
fn conflict_node_many_same_f64_keys() {
    let c = cfg();
    let base: u64 = 1_700_000_000_000_000_000;
    let mut node = empty_root();
    for i in 0..20u64 {
        insert(&mut node, base + i, base + i, &c);
    }
    assert_eq!(node.total_keys(), 20);
    for i in 0..20u64 {
        assert_eq!(
            get(&node, &(base + i)),
            Some(&(base + i)),
            "key base+{i} not found"
        );
    }
}

#[test]
fn get_or_insert_empty_slot() {
    let mut node = empty_root();
    let (val, result) = get_or_insert(&mut node, 50, 500, &cfg());
    assert_eq!(result, InsertResult::Inserted);
    assert_eq!(*val, 500);
    assert_eq!(node.total_keys(), 1);
}

#[test]
fn get_or_insert_existing_no_update() {
    let c = cfg();
    let mut node = empty_root();
    insert(&mut node, 50, 500, &c);
    let (val, result) = get_or_insert(&mut node, 50, 999, &c);
    assert_eq!(result, InsertResult::Updated);
    assert_eq!(*val, 500); // original value, not 999
    assert_eq!(node.total_keys(), 1);
}

#[test]
fn get_or_insert_conflict_creates_child() {
    let c = cfg();
    let pairs: Vec<(u64, &str)> = vec![(10, "a"), (20, "b")];
    let mut node = bulk_load(&pairs, &Config::default()).unwrap();
    let initial_keys = node.total_keys();

    let (val, result) = get_or_insert(&mut node, 15, "c", &c);
    assert_eq!(result, InsertResult::Inserted);
    assert_eq!(*val, "c");
    assert_eq!(node.total_keys(), initial_keys + 1);

    // All keys still findable
    assert_eq!(get(&node, &10), Some(&"a"));
    assert_eq!(get(&node, &15), Some(&"c"));
    assert_eq!(get(&node, &20), Some(&"b"));
}

#[test]
fn get_or_insert_idempotent() {
    let c = cfg();
    let mut node = empty_root();
    let (v1, r1) = get_or_insert(&mut node, 42, 100, &c);
    let v1 = *v1;
    let (v2, r2) = get_or_insert(&mut node, 42, 999, &c);
    assert_eq!(r1, InsertResult::Inserted);
    assert_eq!(r2, InsertResult::Updated);
    assert_eq!(v1, 100);
    assert_eq!(*v2, 100); // same value as first call
    assert_eq!(node.total_keys(), 1);
}

#[test]
fn get_or_insert_many_sequential() {
    let c = cfg();
    let mut node = empty_root();
    for i in 0..100u64 {
        let (val, result) = get_or_insert(&mut node, i, i, &c);
        assert_eq!(result, InsertResult::Inserted);
        assert_eq!(*val, i);
    }
    assert_eq!(node.total_keys(), 100);
    for i in 0..100u64 {
        let (val, result) = get_or_insert(&mut node, i, i + 1000, &c);
        assert_eq!(result, InsertResult::Updated);
        assert_eq!(*val, i); // original value
    }
}

#[test]
fn insert_triggers_localized_rebuild() {
    let config = Config::new().rebuild_depth_threshold(4);
    let mut node = empty_root();

    // Insert keys that pile up in the 100-slot node, creating deep chains
    for i in 0..50u64 {
        insert(&mut node, i, i * 10, &config);
    }

    // With threshold 4, localized rebuilds should keep depth bounded
    let depth = node.max_depth();
    assert!(
        depth <= 10,
        "depth {depth} too high with rebuild_depth_threshold=4"
    );

    // All keys should still be present
    for i in 0..50u64 {
        assert_eq!(
            get(&node, &i),
            Some(&(i * 10)),
            "key {i} missing after localized rebuild"
        );
    }
}

#[test]
fn single_entry_child_holds_its_pair_first() {
    let child = build_single_entry_child(7u64, 70u64);
    assert_eq!(child.capacity(), 2);
    assert!(matches!(child.slots[0], Slot::Data(7, 70)));
    assert!(matches!(child.slots[1], Slot::Empty));
    assert_eq!((child.num_keys, child.num_tombstones), (1, 0));
}

#[test]
fn conflict_node_holds_its_pairs_at_the_ends() {
    for node in [build_conflict_node(9u64, 90, 3, 30), build_conflict_node(3u64, 30, 9, 90)] {
        assert_eq!(node.capacity(), 4);
        assert!(matches!(node.slots[0], Slot::Data(3, 30)));
        assert!(matches!(node.slots[1], Slot::Empty));
        assert!(matches!(node.slots[2], Slot::Empty));
        assert!(matches!(node.slots[3], Slot::Data(9, 90)));
        assert_eq!((node.num_keys, node.num_tombstones), (2, 0));
    }
}

#[test]
fn inserts_change_one_slot_and_its_counter() {
    let c = cfg();
    let mut node = empty_root();
    insert(&mut node, 50, 500, &c);
    assert!(matches!(node.slots[5], Slot::Data(50, 500)));
    assert_eq!(node.num_keys, 1);

    // Another key of the slot: both pairs move to a child.
    insert(&mut node, 51, 510, &c);
    assert!(matches!(node.slots[5], Slot::Child { stale: true, .. }));
    assert_eq!(node.num_keys, 0);
    let child = node.load_child(5).unwrap();
    assert!(matches!(child.slots[0], Slot::Data(50, 500)));
    assert!(matches!(child.slots[3], Slot::Data(51, 510)));

    // The same key: a child of one pair takes its place.
    insert(&mut node, 51, 511, &c);
    let child = node.load_child(5).unwrap();
    assert_eq!(child.num_keys, 2);
    let grandchild = child.load_child(3).unwrap();
    assert!(matches!(grandchild.slots[0], Slot::Data(51, 511)));
    assert_eq!(node.num_keys, 0);

    // An existing value is left alone.
    let (found, result) = get_or_insert(&mut node, 50, 1, &c);
    assert_eq!((*found, result), (500, InsertResult::Updated));
    let child = node.load_child(5).unwrap();
    assert!(matches!(child.slots[0], Slot::Data(50, 500)));
    assert_eq!(child.num_keys, 2);
    for (i, slot) in node.slots.iter().enumerate() {
        assert!(i == 5 || matches!(slot, Slot::Empty));
    }
}
