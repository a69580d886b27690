//! Tests of the parts of the storage engine.

use std::io;

use scry_index::lsm::codec::{find_framed, push_framed, push_u32, push_u64, read_u32, read_u64};
use scry_index::lsm::compaction::{compaction_sources, maybe_compact, MAX_TABLES_PER_LEVEL};
use scry_index::lsm::engine::split_record;
use scry_index::lsm::error::Error;
use scry_index::lsm::manifest::{join_path, parse_table_name, Manifest};
use scry_index::lsm::memtable::{BTreeMemtable, LearnedMemtable, Memtable, SkipListMemtable};
use scry_index::lsm::sstable::SsTableMeta;
use scry_index::lsm::text::{decimal, hex, padded_decimal};

fn table(id: u64, level: usize) -> SsTableMeta {
    SsTableMeta {
        id,
        level,
        path: format!("L{level}_{id:06}.sst"),
        entry_count: 1,
        min_key: vec![b'a'],
        max_key: vec![b'z'],
    }
}

#[test]
fn engine_errors_are_described() {
    let e = Error::from(io::Error::new(io::ErrorKind::Other, "disk on fire"));
    assert_eq!(e.to_string(), "I/O error: disk on fire");
    assert_eq!(Error::Corruption("bad".into()).to_string(), "corruption: bad");
    assert_eq!(Error::Poisoned.to_string(), "lock poisoned");
}

#[test]
fn numbers_are_stored_little_endian() {
    let mut out = Vec::new();
    push_u32(&mut out, 0x0102_0304);
    push_u64(&mut out, 0x0102_0304_0506_0708);
    assert_eq!(out, vec![4, 3, 2, 1, 8, 7, 6, 5, 4, 3, 2, 1]);
    assert_eq!(read_u32(&out, 0), 0x0102_0304);
    assert_eq!(read_u64(&out, 4), 0x0102_0304_0506_0708);
}

#[test]
fn framed_bytes_are_found() {
    let mut out = vec![0xee];
    push_framed(&mut out, b"abc");
    assert_eq!(out, vec![0xee, 3, 0, 0, 0, b'a', b'b', b'c']);
    assert_eq!(find_framed(&out, 1), Some((5, 8)));
    assert_eq!(find_framed(&out[..7], 1), None);
    assert_eq!(find_framed(&out[..4], 1), None);
}

#[test]
fn numbers_are_written_as_text() {
    assert_eq!(hex(0), "0x0");
    assert_eq!(hex(0x2a), "0x2a");
    assert_eq!(decimal(0), "0");
    assert_eq!(decimal(u64::MAX), "18446744073709551615");
    assert_eq!(padded_decimal(42, 6), "000042");
    assert_eq!(padded_decimal(1_234_567, 6), "1234567");
}

#[test]
fn manifest_names_and_numbers_tables() {
    let mut manifest = Manifest::new("db", 4);
    assert_eq!(manifest.dir(), "db");
    assert_eq!(manifest.next_sstable_path(0), (0, "db/L0_000000.sst".to_string()));
    assert_eq!(manifest.next_sstable_path(2), (1, "db/L2_000001.sst".to_string()));
    let mut rooted = Manifest::new("/", 4);
    assert_eq!(rooted.next_sstable_path(0), (0, "/L0_000000.sst".to_string()));
    let mut bare = Manifest::new("", 4);
    assert_eq!(bare.next_sstable_path(1), (0, "L1_000000.sst".to_string()));
}

#[test]
fn paths_are_joined_by_one_slash() {
    for (dir, name) in [("db", "x"), ("db/", "x"), ("/", "x"), ("", "x"), ("a/b", "c")] {
        let joined = std::path::Path::new(dir).join(name);
        assert_eq!(join_path(dir, name), joined.to_str().unwrap());
    }
}

#[test]
fn manifest_keeps_levels_newest_first() {
    let mut manifest = Manifest::new("db", 4);
    assert_eq!(manifest.depth(), 4);
    assert_eq!(manifest.num_levels(), 0);
    for id in 0..3 {
        manifest.add(table(id, 0));
    }
    manifest.add(table(3, 5));
    assert_eq!(manifest.depth(), 6);
    assert_eq!(manifest.num_levels(), 2);
    let ids: Vec<u64> = manifest.level(0).iter().map(|m| m.id).collect();
    assert_eq!(ids, vec![2, 1, 0]);
    assert_eq!(manifest.level_count(5), 1);
    assert_eq!(manifest.level_count(9), 0);
    assert!(manifest.level(9).is_empty());
    assert_eq!(manifest.levels().len(), 6);

    manifest.remove(0, &[1, 7]);
    manifest.remove(9, &[0]);
    let ids: Vec<u64> = manifest.level(0).iter().map(|m| m.id).collect();
    assert_eq!(ids, vec![2, 0]);
}

#[test]
fn compaction_takes_the_first_overfull_level() {
    let mut manifest = Manifest::new("db", 4);
    for id in 0..=MAX_TABLES_PER_LEVEL as u64 {
        manifest.add(table(id, 1));
        manifest.add(table(100 + id, 3));
    }
    assert_eq!(maybe_compact(&manifest, 0), Some(1));
    assert_eq!(maybe_compact(&manifest, 2), Some(3));
    assert_eq!(maybe_compact(&manifest, 4), None);
    let ids: Vec<u64> = compaction_sources(&manifest, 1).iter().map(|m| m.id).collect();
    assert_eq!(ids, vec![0, 1, 2, 3, 4]);
}

#[test]
fn records_end_at_the_first_tab() {
    assert_eq!(split_record(b"k\tv"), Some((b"k".to_vec(), b"v".to_vec())));
    assert_eq!(split_record(b"k\tv\tw"), Some((b"k".to_vec(), b"v\tw".to_vec())));
    assert_eq!(split_record(b"\tv"), Some((Vec::new(), b"v".to_vec())));
    assert_eq!(split_record(b"no tab"), None);
    assert_eq!(split_record(b""), None);
}

fn counts_bytes<M: Memtable>(mut memtable: M, overwritten: usize) {
    assert_eq!(memtable.approximate_bytes(), 0);
    memtable.insert(b"key".to_vec(), b"value".to_vec());
    assert_eq!(memtable.approximate_bytes(), 8);
    memtable.insert(b"key".to_vec(), b"v".to_vec());
    assert_eq!(memtable.approximate_bytes(), overwritten);
    assert_eq!(memtable.len(), 1);
    memtable.delete(b"other");
    assert_eq!(memtable.len(), 2);
    let drained = memtable.drain_sorted();
    assert_eq!(
        drained,
        vec![(b"key".to_vec(), b"v".to_vec()), (b"other".to_vec(), Vec::new())]
    );
    assert_eq!(memtable.approximate_bytes(), 0);
    assert_eq!(memtable.get(b"key"), None);
}

#[test]
fn memtables_count_bytes() {
    counts_bytes(BTreeMemtable::new(), 12);
    counts_bytes(SkipListMemtable::new(), 12);
    counts_bytes(LearnedMemtable::new(), 8);
}

#[test]
fn skip_list_keeps_many_pairs_sorted() {
    let mut memtable = SkipListMemtable::new();
    for i in (0u32..500).rev() {
        memtable.insert(i.to_be_bytes().to_vec(), vec![i as u8]);
    }
    assert_eq!(memtable.len(), 500);
    assert_eq!(memtable.get(&7u32.to_be_bytes()), Some(vec![7]));
    let drained = memtable.drain_sorted();
    assert_eq!(drained.len(), 500);
    for (i, (k, v)) in drained.iter().enumerate() {
        assert_eq!(k, &(i as u32).to_be_bytes().to_vec());
        assert_eq!(v, &vec![i as u8]);
    }
    assert!(memtable.is_empty());
}

#[test]
fn table_names_are_read_back() {
    assert_eq!(parse_table_name("L0_000000.sst"), Some((0, 0)));
    assert_eq!(parse_table_name("L2_000001.sst"), Some((2, 1)));
    assert_eq!(parse_table_name("L12_1234567.sst"), Some((12, 1_234_567)));
    let largest = format!("L3_{}.sst", u64::MAX);
    assert_eq!(parse_table_name(&largest), Some((3, u64::MAX)));
    for name in [
        "",
        "L0_0.sst",
        "L0_0000001.sst",
        "L00_000001.sst",
        "L_000001.sst",
        "0_000001.sst",
        "L0_000001.tmp",
        "L0_00000a.sst",
        "L0-000001.sst",
        "L0_99999999999999999999.sst",
        "wal.log",
    ] {
        assert_eq!(parse_table_name(name), None, "{name}");
    }
}

#[test]
fn ids_are_not_given_out_twice() {
    let mut manifest = Manifest::new("db", 4);
    let (first, name) = manifest.next_sstable_path(1);
    manifest.add(table(first, 1));
    manifest.remove(1, &[first]);
    let (second, other) = manifest.next_sstable_path(1);
    assert_eq!((first, second), (0, 1));
    assert_ne!(name, other);

    let (mut loaded, leftovers) = Manifest::load("db", 4, vec![table(9, 0), table(4, 2)]).unwrap();
    assert!(leftovers.is_empty());
    assert_eq!(loaded.next_sstable_path(0).0, 10);
    assert_eq!(loaded.level_count(2), 1);
}
