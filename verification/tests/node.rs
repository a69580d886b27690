//! Tests of nodes and their slots.

use scry_index::model::LinearModel;
use scry_index::node::{Node, SLOT_CHILD_STALE, SLOT_DATA, SLOT_TOMBSTONE};

#[test]
fn new_node_all_empty() {
    let node = Node::<u64, String>::with_capacity(LinearModel::constant(), 10);
    assert_eq!(node.capacity(), 10);
    assert_eq!(node.total_keys(), 0);
}

#[test]
fn total_keys_empty() {
    let node = Node::<u64, ()>::with_capacity(LinearModel::constant(), 5);
    assert_eq!(node.total_keys(), 0);
}

#[test]
fn total_keys_with_data() {
    let mut node = Node::<u64, &str>::with_capacity(LinearModel::constant(), 5);
    node.store_data(0, 1, "a");
    node.inc_keys();
    node.store_data(2, 2, "b");
    node.inc_keys();
    assert_eq!(node.total_keys(), 2);
}

#[test]
fn total_keys_with_children() {

    let mut child = Node::<u64, &str>::with_capacity(LinearModel::constant(), 3);
    child.store_data(0, 10, "x");
    child.inc_keys();
    child.store_data(1, 20, "y");
    child.inc_keys();

    let mut parent = Node::<u64, &str>::with_capacity(LinearModel::constant(), 5);
    parent.store_data(0, 1, "a");
    parent.inc_keys();
    parent.store_child(1, child);

    assert_eq!(parent.total_keys(), 3);
}

#[test]
fn max_depth_leaf() {
    let node = Node::<u64, ()>::with_capacity(LinearModel::constant(), 5);
    assert_eq!(node.max_depth(), 1);
}

#[test]
fn max_depth_nested() {
    let leaf = Node::<u64, ()>::with_capacity(LinearModel::constant(), 2);
    let mut mid = Node::<u64, ()>::with_capacity(LinearModel::constant(), 2);
    mid.store_child(0, leaf);
    let mut root = Node::<u64, ()>::with_capacity(LinearModel::constant(), 2);
    root.store_child(0, mid);
    assert_eq!(root.max_depth(), 3);
}

#[test]
fn store_and_read_data() {
    let mut node = Node::<u64, i32>::with_capacity(LinearModel::constant(), 4);
    node.store_data(1, 42, 100);
    node.inc_keys();

    assert_eq!(node.slot_state(1), SLOT_DATA);
    assert_eq!(*node.read_key(1), 42);
    assert_eq!(*node.read_value(1), 100);
}

#[test]
fn cas_empty_to_data_success() {
    let mut node = Node::<u64, &str>::with_capacity(LinearModel::constant(), 4);
    assert!(node.cas_empty_to_data(0, 10, "hello"));
    assert_eq!(node.slot_state(0), SLOT_DATA);
    assert_eq!(*node.read_key(0), 10);
    assert_eq!(*node.read_value(0), "hello");
    // total_keys scans actual DATA slots, so it's 1 even without inc_keys
    assert_eq!(node.total_keys(), 1);
}

#[test]
fn cas_empty_to_data_fails_on_occupied() {
    let mut node = Node::<u64, u64>::with_capacity(LinearModel::constant(), 4);
    assert!(node.cas_empty_to_data(0, 1, 10));
    // Second attempt should fail
    assert!(!node.cas_empty_to_data(0, 2, 20));
    // Original data preserved
    assert_eq!(*node.read_key(0), 1);
    assert_eq!(*node.read_value(0), 10);
}

#[test]
fn cas_data_to_child_stale() {
    let mut node = Node::<u64, u64>::with_capacity(LinearModel::constant(), 4);
    node.store_data(0, 10, 100);
    node.inc_keys();

    let mut child = Node::<u64, u64>::with_capacity(LinearModel::constant(), 2);
    child.store_data(0, 10, 200);
    child.inc_keys();

    assert!(node.cas_data_to_child_stale(0, child));
    assert_eq!(node.slot_state(0), SLOT_CHILD_STALE);

    let child_shared = node.load_child(0);
    assert!(child_shared.is_some());
}

#[test]
fn cas_data_to_tombstone() {
    let mut node = Node::<u64, u64>::with_capacity(LinearModel::constant(), 4);
    node.store_data(0, 10, 100);
    assert!(node.cas_data_to_tombstone(0));
    assert_eq!(node.slot_state(0), SLOT_TOMBSTONE);
}

#[test]
fn drop_with_inline_data() {
    // Verify that nodes with String values correctly drop inline data.
    let mut node = Node::<u64, String>::with_capacity(LinearModel::constant(), 4);
    node.store_data(0, 1, "hello".to_string());
    node.store_data(1, 2, "world".to_string());
    drop(node);
    // If Drop is implemented correctly, no leak or double-free.
}

#[test]
fn memory_is_estimated_from_slots_and_children() {
    let node_size = std::mem::size_of::<Node<u64, u64>>();
    let pointer = std::mem::size_of::<usize>();
    let mut leaf = Node::<u64, u64>::with_capacity_leaf(LinearModel::constant(), 10);
    assert_eq!(leaf.allocated_bytes(), node_size + 10 * 17);
    let child = Node::<u64, u64>::with_capacity(LinearModel::constant(), 3);
    let child_bytes = node_size + 3 * (17 + pointer);
    assert_eq!(child.allocated_bytes(), child_bytes);
    // The first child brings room for children to every slot.
    leaf.store_child(0, child);
    assert_eq!(leaf.allocated_bytes(), node_size + 10 * (17 + pointer) + child_bytes);
}
