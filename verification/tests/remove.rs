//! Tests of removes.

use scry_index::build::bulk_load;
use scry_index::insert::insert;
use scry_index::lookup::get;
use scry_index::model::LinearModel;
use scry_index::node::{Node, Slot};
use scry_index::remove::remove;
use scry_index::{Config, Ratio};

fn cfg() -> Config {
    Config::default()
}

#[test]
fn remove_existing_key() {
    let c = cfg();
    let pairs = vec![(10u64, "a"), (20, "b"), (30, "c")];
    let mut node = bulk_load(&pairs, &c).unwrap();

    let removed = remove(&mut node, &20, &c);
    assert!(removed);
    assert_eq!(node.total_keys(), 2);
    assert_eq!(get(&node, &20), None);
}

#[test]
fn remove_missing_key() {
    let c = cfg();
    let pairs = vec![(10u64, "a"), (20, "b")];
    let mut node = bulk_load(&pairs, &c).unwrap();

    let removed = remove(&mut node, &99, &c);
    assert!(!removed);
    assert_eq!(node.total_keys(), 2);
}

#[test]
fn remove_all_keys() {
    let c = cfg();
    let pairs = vec![(1u64, 'a'), (2, 'b'), (3, 'c')];
    let mut node = bulk_load(&pairs, &c).unwrap();

    assert!(remove(&mut node, &1, &c));
    assert!(remove(&mut node, &2, &c));
    assert!(remove(&mut node, &3, &c));
    assert_eq!(node.total_keys(), 0);
}

#[test]
fn remove_remove_then_reinsert() {
    let c = cfg();
    let pairs = vec![(10u64, "a"), (20, "b")];
    let mut node = bulk_load(&pairs, &c).unwrap();

    remove(&mut node, &10, &c);
    assert_eq!(get(&node, &10), None);

    insert(&mut node, 10, "A", &c);
    assert_eq!(get(&node, &10), Some(&"A"));
}

#[test]
fn remove_idempotent() {
    let c = cfg();
    let pairs = vec![(5u64, "x")];
    let mut node = bulk_load(&pairs, &c).unwrap();

    assert!(remove(&mut node, &5, &c));
    assert!(!remove(&mut node, &5, &c));
}

#[test]
fn remove_from_child_node() {
    let c = cfg();
    let pairs: Vec<(u64, &str)> = vec![(10, "a"), (20, "b")];
    let mut node = bulk_load(&pairs, &c).unwrap();

    // Insert a key that may create a child
    insert(&mut node, 15, "c", &c);
    assert_eq!(node.total_keys(), 3);

    // Remove from within the child structure
    assert!(remove(&mut node, &15, &c));
    assert_eq!(get(&node, &15), None);
}

#[test]
fn tombstone_compaction_preserves_remaining_keys() {
    let c = Config::new().auto_rebuild(true).tombstone_ratio_threshold(Ratio::new(3, 10));
    let mut root = Node::<u64, u64>::with_capacity(
        LinearModel::new(Ratio::new(1, 100), 0),
        16,
    );
    // Insert keys that create child subtrees
    for i in 0..40u64 {
        insert(&mut root, i, i, &c);
    }
    assert_eq!(root.total_keys(), 40);

    // Remove most keys -- should trigger tombstone compaction
    for i in 0..30u64 {
        remove(&mut root, &i, &c);
    }

    // Remaining keys must still be findable
    for i in 30..40u64 {
        assert_eq!(
            get(&root, &i),
            Some(&i),
            "key {i} lost after tombstone compaction"
        );
    }
}

#[test]
fn removes_leave_one_tombstone_and_count_it() {
    let c = Config::new().auto_rebuild(false);
    let model = LinearModel::new(Ratio::new(1, 10), 0);
    let mut node = Node::<u64, u64>::with_capacity(model, 16);
    for key in [10, 20, 31, 32] {
        insert(&mut node, key, key, &c);
    }
    assert_eq!((node.num_keys, node.num_tombstones), (2, 0));

    assert!(remove(&mut node, &10, &c));
    assert!(matches!(node.slots[1], Slot::Tombstone));
    assert_eq!((node.num_keys, node.num_tombstones), (1, 1));

    // In a child only the child's counters change.
    assert!(remove(&mut node, &31, &c));
    assert_eq!((node.num_keys, node.num_tombstones), (1, 1));
    let child = node.load_child(3).unwrap();
    assert_eq!((child.num_keys, child.num_tombstones), (1, 1));

    // Nothing changes without the key.
    assert!(!remove(&mut node, &10, &c));
    assert!(!remove(&mut node, &99, &c));
    assert_eq!((node.num_keys, node.num_tombstones), (1, 1));

    // A new pair takes the place of the tombstone, which stays counted.
    insert(&mut node, 10, 11, &c);
    assert!(matches!(node.slots[1], Slot::Data(10, 11)));
    assert_eq!((node.num_keys, node.num_tombstones), (2, 1));
}
