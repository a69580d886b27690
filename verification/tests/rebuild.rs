//! Tests of subtree rebuilds.

use scry_index::build::bulk_load;
use scry_index::insert::insert;
use scry_index::lookup::get;
use scry_index::model::LinearModel;
use scry_index::node::{is_child, Node, SLOT_DATA};
use scry_index::rebuild::try_rebuild_subtree;
use scry_index::{Config, Ratio};

fn default_config() -> Config {
    Config::default()
}

#[test]
fn rebuild_subtree_basic() {
    // Disable auto_rebuild so we can test manual subtree rebuild
    let config = Config::new().auto_rebuild(false);

    // Create a root where keys pile up, creating a deep chain
    let mut root = Node::<u64, u64>::with_capacity(LinearModel::new(Ratio::new(1, 100), 0), 16);
    for i in 0..20u64 {
        insert(&mut root, i, i, &config);
    }

    let depth_before = root.max_depth();
    assert!(
        depth_before > 2,
        "setup should create depth > 2, got {depth_before}"
    );

    // Find a child slot and rebuild it
    let mut rebuilt = false;
    for idx in 0..root.capacity() {
        if is_child(root.slot_state(idx)) {
            rebuilt = try_rebuild_subtree(&mut root, idx, &config);
            if rebuilt {
                break;
            }
        }
    }
    assert!(rebuilt, "should have rebuilt at least one subtree");

    // All keys should still be accessible
    for i in 0..20u64 {
        assert_eq!(
            get(&root, &i),
            Some(&i),
            "key {i} lost after subtree rebuild"
        );
    }
}

#[test]
fn rebuild_subtree_preserves_data() {
    let config = default_config();

    let mut root = Node::<u64, u64>::with_capacity(LinearModel::new(Ratio::new(1, 100), 0), 16);
    for i in 0..50u64 {
        insert(&mut root, i, i * 10, &config);
    }

    // Rebuild all child subtrees
    for idx in 0..root.capacity() {
        if is_child(root.slot_state(idx)) {
            try_rebuild_subtree(&mut root, idx, &config);
        }
    }

    // All keys and values must be intact
    assert_eq!(root.total_keys(), 50);
    for i in 0..50u64 {
        assert_eq!(
            get(&root, &i),
            Some(&(i * 10)),
            "key {i} has wrong value after rebuild"
        );
    }
}

#[test]
fn rebuild_subtree_returns_false_for_data_slot() {
    let config = default_config();

    let pairs = vec![(10u64, 100), (20, 200)];
    let mut root = bulk_load(&pairs, &config).unwrap();

    // Find a data slot and try to rebuild it -- should return false
    for idx in 0..root.capacity() {
        if root.slot_state(idx) == SLOT_DATA {
            assert!(!try_rebuild_subtree(&mut root, idx, &config));
            return;
        }
    }
    panic!("no data slot found");
}

#[test]
fn rebuild_subtree_empty_child() {
    let config = default_config();

    // Create a parent with an empty child node
    let empty_child = Node::<u64, u64>::with_capacity(LinearModel::new(Ratio::new(1, 10), 0), 4);
    let mut parent = Node::<u64, u64>::with_capacity(LinearModel::new(Ratio::new(1, 10), 0), 4);
    parent.store_child(0, empty_child);

    // Rebuild should return false (empty subtree)
    assert!(!try_rebuild_subtree(&mut parent, 0, &config));
}
