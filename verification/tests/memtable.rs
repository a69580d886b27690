//! Tests of the memtables.

use scry_index::lsm::memtable::btree::BTreeMemtable;
use scry_index::lsm::memtable::learned::LearnedMemtable;
use scry_index::lsm::memtable::skiplist::SkipListMemtable;
use scry_index::lsm::memtable::Memtable;

#[test]
fn btree_insert_and_get() {
    let mut mt = BTreeMemtable::new();
    mt.insert(b"hello".to_vec(), b"world".to_vec());
    assert_eq!(mt.get(b"hello"), Some(b"world".to_vec()));
    assert_eq!(mt.get(b"missing"), None);
    assert_eq!(mt.len(), 1);
}

#[test]
fn btree_upsert_overwrites() {
    let mut mt = BTreeMemtable::new();
    mt.insert(b"key".to_vec(), b"v1".to_vec());
    mt.insert(b"key".to_vec(), b"v2".to_vec());
    assert_eq!(mt.get(b"key"), Some(b"v2".to_vec()));
}

#[test]
fn btree_delete_inserts_tombstone() {
    let mut mt = BTreeMemtable::new();
    mt.insert(b"key".to_vec(), b"value".to_vec());
    mt.delete(b"key");
    assert_eq!(mt.get(b"key"), Some(Vec::new()));
}

#[test]
fn btree_drain_returns_sorted_and_empties() {
    let mut mt = BTreeMemtable::new();
    mt.insert(b"c".to_vec(), b"3".to_vec());
    mt.insert(b"a".to_vec(), b"1".to_vec());
    mt.insert(b"b".to_vec(), b"2".to_vec());

    let entries = mt.drain_sorted();
    let keys: Vec<&[u8]> = entries.iter().map(|(k, _)| k.as_slice()).collect();
    assert_eq!(keys, vec![b"a".as_slice(), b"b", b"c"]);
    assert!(mt.is_empty());
}

#[test]
fn learned_insert_and_get() {
    let mut mt = LearnedMemtable::new();
    mt.insert(b"hello".to_vec(), b"world".to_vec());
    assert_eq!(mt.get(b"hello"), Some(b"world".to_vec()));
    assert_eq!(mt.get(b"missing"), None);
    assert_eq!(mt.len(), 1);
}

#[test]
fn learned_upsert_overwrites() {
    let mut mt = LearnedMemtable::new();
    mt.insert(b"key".to_vec(), b"v1".to_vec());
    mt.insert(b"key".to_vec(), b"v2".to_vec());
    assert_eq!(mt.get(b"key"), Some(b"v2".to_vec()));
}

#[test]
fn learned_delete_inserts_tombstone() {
    let mut mt = LearnedMemtable::new();
    mt.insert(b"key".to_vec(), b"value".to_vec());
    mt.delete(b"key");
    assert_eq!(mt.get(b"key"), Some(Vec::new()));
}

#[test]
fn learned_drain_returns_sorted_and_empties() {
    let mut mt = LearnedMemtable::new();
    mt.insert(b"c".to_vec(), b"3".to_vec());
    mt.insert(b"a".to_vec(), b"1".to_vec());
    mt.insert(b"b".to_vec(), b"2".to_vec());

    let entries = mt.drain_sorted();
    let keys: Vec<&[u8]> = entries.iter().map(|(k, _)| k.as_slice()).collect();
    assert_eq!(keys, vec![b"a".as_slice(), b"b", b"c"]);
    assert!(mt.is_empty());
}

#[test]
fn skiplist_insert_and_get() {
    let mut mt = SkipListMemtable::new();
    mt.insert(b"hello".to_vec(), b"world".to_vec());
    assert_eq!(mt.get(b"hello"), Some(b"world".to_vec()));
    assert_eq!(mt.get(b"missing"), None);
    assert_eq!(mt.len(), 1);
}

#[test]
fn skiplist_upsert_overwrites() {
    let mut mt = SkipListMemtable::new();
    mt.insert(b"key".to_vec(), b"v1".to_vec());
    mt.insert(b"key".to_vec(), b"v2".to_vec());
    assert_eq!(mt.get(b"key"), Some(b"v2".to_vec()));
}

#[test]
fn skiplist_delete_inserts_tombstone() {
    let mut mt = SkipListMemtable::new();
    mt.insert(b"key".to_vec(), b"value".to_vec());
    mt.delete(b"key");
    assert_eq!(mt.get(b"key"), Some(Vec::new()));
}

#[test]
fn skiplist_drain_returns_sorted_and_empties() {
    let mut mt = SkipListMemtable::new();
    mt.insert(b"c".to_vec(), b"3".to_vec());
    mt.insert(b"a".to_vec(), b"1".to_vec());
    mt.insert(b"b".to_vec(), b"2".to_vec());

    let entries = mt.drain_sorted();
    let keys: Vec<&[u8]> = entries.iter().map(|(k, _)| k.as_slice()).collect();
    assert_eq!(keys, vec![b"a".as_slice(), b"b", b"c"]);
    assert!(mt.is_empty());
}
