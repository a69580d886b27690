//! Tests of the storage engine, with its files held in memory.

use std::collections::BTreeMap;

use scry_index::lsm::compaction::{
    compaction_sources, maybe_compact, CompactionStep, MAX_TABLES_PER_LEVEL,
};
use scry_index::lsm::engine::{
    split_record, EngineConfig, FlushJob, GetStep, LsmEngine, DEFAULT_FLUSH_THRESHOLD,
};
use scry_index::lsm::error::{Error, Result};
use scry_index::lsm::memtable::{BTreeMemtable, LearnedMemtable, Memtable, SkipListMemtable};
use scry_index::lsm::manifest::parse_table_name;
use scry_index::lsm::sstable::reader::{
    describe_table, parse_index, read_footer, IndexEntry, SsTableReader,
};
use scry_index::lsm::sstable::{SsTableMeta, FOOTER_SIZE};

/// A directory in memory.
#[derive(Default)]
struct Dir {
    log: Vec<u8>,
    files: BTreeMap<String, Vec<u8>>,
}

/// An engine together with its directory.
struct Store<M: Memtable> {
    engine: LsmEngine<M>,
    dir: Dir,
}

fn index_of(file: &[u8]) -> Vec<IndexEntry> {
    let end = file.len() - FOOTER_SIZE;
    let footer = read_footer(&file[end..]).unwrap();
    parse_index(&file[footer.index_offset as usize..end])
}

fn meta_of(path: &str, file: &[u8]) -> SsTableMeta {
    let (level, id) = parse_table_name(path.strip_prefix("db/").unwrap()).unwrap();
    let footer = read_footer(&file[file.len() - FOOTER_SIZE..]).unwrap();
    let index = index_of(file);
    let block = match index.last() {
        Some(e) => &file[e.offset as usize..(e.offset + e.block_len) as usize],
        None => &[],
    };
    describe_table(id, level, path, &footer, &index, block).unwrap()
}

impl<M: Memtable> Store<M> {
    fn open(mut dir: Dir, memtable: M, threshold: usize) -> Self {
        let config = EngineConfig {
            flush_threshold: threshold,
        };
        let tables = dir.files.iter().map(|(name, file)| meta_of(name, file)).collect();
        let opened = LsmEngine::open("db", memtable, tables, &dir.log, config).unwrap();
        dir.log.truncate(opened.valid_log);
        for name in opened.leftovers {
            assert!(dir.files.remove(&name).is_some());
        }
        Store {
            engine: opened.engine,
            dir,
        }
    }

    fn put(&mut self, key: &[u8], value: &[u8]) {
        let job = self.engine.put(key, value);
        self.dir.log.extend(self.engine.sync_log());
        if let Some(job) = job {
            self.write(job, true);
        }
    }

    fn delete(&mut self, key: &[u8]) {
        self.engine.delete(key);
        self.dir.log.extend(self.engine.sync_log());
    }

    fn get(&self, key: &[u8]) -> Option<Vec<u8>> {
        let mut step = self.engine.get(key);
        loop {
            match step {
                GetStep::Done(value) => return value,
                GetStep::Probe(probe) => {
                    let file = &self.dir.files[probe.path()];
                    let reply = SsTableReader::open(file).unwrap().get(key).unwrap();
                    step = probe.resume(reply);
                }
            }
        }
    }

    fn flush(&mut self) {
        if let Some(job) = self.engine.flush() {
            self.write(job, true);
        }
    }

    fn write(&mut self, job: FlushJob, truncate: bool) {
        self.dir.files.insert(job.meta.path.clone(), job.file);
        assert!(self.engine.can_commit(&job.meta));
        self.engine.commit_table(job.meta);
        if truncate {
            self.engine.truncate_log();
            self.dir.log.clear();
        }
        let mut from = 0;
        while let Some(level) = maybe_compact(self.engine.manifest(), from) {
            self.compact(level);
            from = level + 1;
        }
    }

    fn compact(&mut self, level: usize) {
        let names: Vec<String> = compaction_sources(self.engine.manifest(), level)
            .iter()
            .map(|m| m.path.clone())
            .collect();
        let indexes = names.iter().map(|n| index_of(&self.dir.files[n])).collect();
        let mut compaction = self.engine.start_compaction(level, indexes).unwrap();
        let path = compaction.table_path().to_string();
        let mut output = Vec::new();
        while let CompactionStep::Read {
            source,
            offset,
            len,
        } = compaction.step().unwrap()
        {
            let (offset, len) = (offset as usize, len as usize);
            let block = self.dir.files[&names[source]][offset..offset + len].to_vec();
            compaction.supply(source, block);
            output.extend(compaction.take_output());
        }
        let compacted = compaction.finish();
        self.engine.finish_compaction(compacted.change);
        for name in compacted.removed {
            assert!(self.dir.files.remove(&name).is_some());
        }
        if let Some(rest) = compacted.output {
            output.extend(rest);
            self.dir.files.insert(path, output);
        }
    }

    fn ingest_sorted(&mut self, entries: Vec<(Vec<u8>, Vec<u8>)>) -> Result<u64> {
        match self.engine.ingest_sorted(&entries)? {
            Some(job) => {
                let count = job.meta.entry_count;
                self.write(job, false);
                Ok(count)
            }
            None => Ok(0),
        }
    }

    fn ingest_iter(&mut self, iter: impl Iterator<Item = (Vec<u8>, Vec<u8>)>) -> u64 {
        let mut count = 0;
        for (key, value) in iter {
            self.put(&key, &value);
            count += 1;
        }
        count
    }

    fn ingest_reader(&mut self, text: &[u8]) -> u64 {
        let mut count = 0;
        for line in text.split(|b| *b == b'\n') {
            if let Some((key, value)) = split_record(line) {
                self.put(&key, &value);
                count += 1;
            }
        }
        count
    }

    fn tables(&self, level: usize) -> usize {
        self.engine.manifest().level_count(level)
    }
}

fn open_engine() -> Store<LearnedMemtable> {
    Store::open(
        Dir::default(),
        LearnedMemtable::new(),
        EngineConfig::default().flush_threshold,
    )
}

fn open_engine_with_threshold(threshold: usize) -> Store<LearnedMemtable> {
    Store::open(Dir::default(), LearnedMemtable::new(), threshold)
}

#[test]
fn put_get_roundtrip() {
    let mut engine = open_engine();

    engine.put(b"hello", b"world");
    engine.put(b"foo", b"bar");

    assert_eq!(engine.get(b"hello"), Some(b"world".to_vec()));
    assert_eq!(engine.get(b"foo"), Some(b"bar".to_vec()));
    assert_eq!(engine.get(b"missing"), None);
}

#[test]
fn delete_returns_none() {
    let mut engine = open_engine();

    engine.put(b"key", b"value");
    assert_eq!(engine.get(b"key"), Some(b"value".to_vec()));

    engine.delete(b"key");
    assert_eq!(engine.get(b"key"), None);
}

#[test]
fn overwrite_value() {
    let mut engine = open_engine();

    engine.put(b"key", b"v1");
    engine.put(b"key", b"v2");
    assert_eq!(engine.get(b"key"), Some(b"v2".to_vec()));
}

#[test]
fn flush_and_read_from_sstable() {
    let mut engine = open_engine();

    engine.put(b"aaa", b"111");
    engine.put(b"bbb", b"222");
    engine.put(b"ccc", b"333");

    // Force flush to SSTable.
    engine.flush();

    // Data should still be readable from SSTable.
    assert_eq!(engine.get(b"aaa"), Some(b"111".to_vec()));
    assert_eq!(engine.get(b"bbb"), Some(b"222".to_vec()));
    assert_eq!(engine.get(b"ccc"), Some(b"333".to_vec()));
    assert_eq!(engine.get(b"missing"), None);
}

#[test]
fn tombstone_propagates_through_flush() {
    let mut engine = open_engine();

    // Put a key, flush it to SSTable.
    engine.put(b"key", b"value");
    engine.flush();

    // Delete the key (tombstone goes to memtable).
    engine.delete(b"key");

    // Tombstone in memtable should shadow the SSTable value.
    assert_eq!(engine.get(b"key"), None);

    // Flush the tombstone to SSTable.
    engine.flush();

    // Still deleted.
    assert_eq!(engine.get(b"key"), None);
}

#[test]
fn wal_recovery() {
    // Write some data. It is only in the log.
    let mut engine = open_engine();
    engine.put(b"key1", b"val1");
    engine.put(b"key2", b"val2");
    engine.delete(b"key1");

    // Reopen: the log should be replayed.
    let engine = Store::open(engine.dir, LearnedMemtable::new(), DEFAULT_FLUSH_THRESHOLD);
    assert_eq!(engine.get(b"key1"), None); // Was deleted.
    assert_eq!(engine.get(b"key2"), Some(b"val2".to_vec()));
}

#[test]
fn auto_flush_on_threshold() {
    // Tiny threshold to force auto-flush.
    let mut engine = open_engine_with_threshold(100);

    // Insert enough data to exceed 100 bytes.
    for i in 0u32..20 {
        let key = format!("key-{i:04}");
        let val = format!("value-{i:04}");
        engine.put(key.as_bytes(), val.as_bytes());
    }

    // After auto-flush, data should be readable (either from memtable
    // or from SSTable).
    for i in 0u32..20 {
        let key = format!("key-{i:04}");
        let val = format!("value-{i:04}");
        assert_eq!(
            engine.get(key.as_bytes()),
            Some(val.into_bytes()),
            "missing key: {key}"
        );
    }
}

#[test]
fn multiple_flushes_and_reads() {
    let mut engine = open_engine();

    // Batch 1.
    for i in 0u32..100 {
        let key = format!("a-{i:05}");
        engine.put(key.as_bytes(), b"batch1");
    }
    engine.flush();

    // Batch 2.
    for i in 0u32..100 {
        let key = format!("b-{i:05}");
        engine.put(key.as_bytes(), b"batch2");
    }
    engine.flush();

    // Both batches readable.
    assert_eq!(engine.get(b"a-00050"), Some(b"batch1".to_vec()));
    assert_eq!(engine.get(b"b-00050"), Some(b"batch2".to_vec()));
}

#[test]
fn ingest_iter_basic() {
    let mut engine = open_engine();

    let count = engine.ingest_iter((0u32..50).map(|i| {
        (
            format!("k-{i:04}").into_bytes(),
            format!("v-{i:04}").into_bytes(),
        )
    }));
    assert_eq!(count, 50);

    assert_eq!(engine.get(b"k-0000"), Some(b"v-0000".to_vec()));
    assert_eq!(engine.get(b"k-0049"), Some(b"v-0049".to_vec()));
    assert_eq!(engine.get(b"k-0050"), None);
}

#[test]
fn ingest_iter_triggers_flush() {
    // Tiny threshold so ingestion triggers multiple flushes.
    let mut engine = open_engine_with_threshold(200);

    let count = engine.ingest_iter((0u32..100).map(|i| {
        (
            format!("k-{i:04}").into_bytes(),
            b"some-value-data".to_vec(),
        )
    }));
    assert_eq!(count, 100);

    // All entries readable across memtable + SSTables.
    for i in 0u32..100 {
        let key = format!("k-{i:04}");
        assert!(
            engine.get(key.as_bytes()).is_some(),
            "missing after ingest: {key}"
        );
    }
}

#[test]
fn ingest_reader_tsv() {
    let mut engine = open_engine();

    let tsv = b"alpha\t111\nbravo\t222\ncharlie\t333\n";
    let count = engine.ingest_reader(&tsv[..]);
    assert_eq!(count, 3);

    assert_eq!(engine.get(b"alpha"), Some(b"111".to_vec()));
    assert_eq!(engine.get(b"bravo"), Some(b"222".to_vec()));
    assert_eq!(engine.get(b"charlie"), Some(b"333".to_vec()));
}

#[test]
fn ingest_reader_skips_malformed_lines() {
    let mut engine = open_engine();

    let tsv = b"good\tdata\nbad line no tab\n\nalso_good\tmore_data\n";
    let count = engine.ingest_reader(&tsv[..]);
    assert_eq!(count, 2); // Only the two valid lines.

    assert_eq!(engine.get(b"good"), Some(b"data".to_vec()));
    assert_eq!(engine.get(b"also_good"), Some(b"more_data".to_vec()));
}

#[test]
fn ingest_sorted_bypasses_memtable() {
    let mut engine = open_engine();

    let count = engine
        .ingest_sorted(
            (0u32..200)
                .map(|i| {
                    (
                        format!("s-{i:05}").into_bytes(),
                        format!("v-{i:05}").into_bytes(),
                    )
                })
                .collect(),
        )
        .unwrap();
    assert_eq!(count, 200);

    // Data is readable from SSTable (not memtable).
    assert_eq!(engine.engine.memtable_len(), 0);
    assert_eq!(engine.get(b"s-00000"), Some(b"v-00000".to_vec()));
    assert_eq!(engine.get(b"s-00100"), Some(b"v-00100".to_vec()));
    assert_eq!(engine.get(b"s-00199"), Some(b"v-00199".to_vec()));
    assert_eq!(engine.get(b"s-00200"), None);
}

#[test]
fn ingest_sorted_rejects_unsorted() {
    let mut engine = open_engine();

    let bad_data = vec![
        (b"bbb".to_vec(), b"2".to_vec()),
        (b"aaa".to_vec(), b"1".to_vec()), // Out of order.
    ];

    let result = engine.ingest_sorted(bad_data);
    assert!(result.is_err());
    match result {
        Err(Error::Corruption(text)) => {
            assert_eq!(text, "ingest_sorted: keys not in ascending order");
        }
        _ => panic!("not refused as corrupt"),
    }
}

#[test]
fn ingest_sorted_empty_is_noop() {
    let mut engine = open_engine();

    let count = engine.ingest_sorted(Vec::new()).unwrap();
    assert_eq!(count, 0);
}

#[test]
fn mixed_ingest_and_put() {
    let mut engine = open_engine();

    // Bulk-ingest sorted data directly to SSTable.
    let sorted: Vec<(Vec<u8>, Vec<u8>)> = vec![
        (b"a".to_vec(), b"from-sorted".to_vec()),
        (b"c".to_vec(), b"from-sorted".to_vec()),
    ];
    engine.ingest_sorted(sorted).unwrap();

    // Regular puts go through memtable.
    engine.put(b"b", b"from-put");

    // Overwrite a sorted key via put.
    engine.put(b"a", b"overwritten");

    // Reads merge both sources correctly.
    assert_eq!(engine.get(b"a"), Some(b"overwritten".to_vec()));
    assert_eq!(engine.get(b"b"), Some(b"from-put".to_vec()));
    assert_eq!(engine.get(b"c"), Some(b"from-sorted".to_vec()));
}

fn overwrites_survive_compaction<M: Memtable>(memtable: M) {
    let mut store = Store::open(Dir::default(), memtable, DEFAULT_FLUSH_THRESHOLD);
    let mut expected = BTreeMap::new();
    for round in 0u32..30 {
        for i in 0u32..20 {
            let key = format!("k{:03}", (i * 7 + round * 3) % 50).into_bytes();
            let value = format!("r{round}").into_bytes();
            store.put(&key, &value);
            expected.insert(key, value);
        }
        store.flush();
        assert!(store.tables(0) <= MAX_TABLES_PER_LEVEL);
    }
    // The rounds overlap, so their merged tables are one.
    assert_eq!(store.tables(1), 1);
    for (key, value) in &expected {
        assert_eq!(store.get(key), Some(value.clone()));
    }
    assert_eq!(store.get(b"absent"), None);
    // Exactly the live tables are on disk.
    let live: usize = (0..4).map(|l| store.tables(l)).sum();
    assert_eq!(live, store.dir.files.len());
}

#[test]
fn compaction_keeps_the_newest_values_learned() {
    overwrites_survive_compaction(LearnedMemtable::new());
}

#[test]
fn compaction_keeps_the_newest_values_btree() {
    overwrites_survive_compaction(BTreeMemtable::new());
}

#[test]
fn compaction_keeps_the_newest_values_skiplist() {
    overwrites_survive_compaction(SkipListMemtable::new());
}

#[test]
fn deleted_keys_stay_deleted_over_compaction() {
    let mut store = open_engine();
    store.put(b"gone", b"x");
    store.put(b"kept", b"y");
    store.flush();
    store.delete(b"gone");
    for i in 0..=MAX_TABLES_PER_LEVEL {
        store.put(format!("fill{i}").as_bytes(), b"z");
        store.flush();
    }
    assert_eq!(store.tables(1), 1);
    assert_eq!(store.get(b"gone"), None);
    assert_eq!(store.get(b"kept"), Some(b"y".to_vec()));
}

#[test]
fn level_is_compacted_when_it_holds_more_than_the_limit() {
    let mut store = open_engine();
    for i in 0..MAX_TABLES_PER_LEVEL {
        store.put(format!("k{i}").as_bytes(), b"v");
        store.flush();
    }
    assert_eq!(store.tables(0), MAX_TABLES_PER_LEVEL);
    store.put(b"last", b"v");
    store.flush();
    assert_eq!(store.tables(0), 0);
    assert_eq!(store.tables(1), 1);
}

#[test]
fn tombstones_are_dropped_at_the_highest_level() {
    let mut store = open_engine();
    for _ in 0..(MAX_TABLES_PER_LEVEL + 1) * (MAX_TABLES_PER_LEVEL + 1) * (MAX_TABLES_PER_LEVEL + 1)
    {
        store.delete(b"nothing");
        store.flush();
    }
    // The merged tables of level 2 have no pair left.
    assert_eq!(store.tables(3), 0);
    assert_eq!(store.get(b"nothing"), None);
}

#[test]
fn empty_value_reads_as_deleted() {
    let mut store = open_engine();
    store.put(b"key", b"value");
    store.put(b"key", b"");
    assert_eq!(store.get(b"key"), None);
}

#[test]
fn flush_of_an_empty_memtable_writes_nothing() {
    let mut store = open_engine();
    assert!(store.engine.flush().is_none());
    assert_eq!(store.tables(0), 0);
}

#[test]
fn table_names_follow_level_and_id() {
    let mut store = open_engine();
    for i in 0..=MAX_TABLES_PER_LEVEL {
        store.put(format!("k{i}").as_bytes(), b"v");
        store.flush();
    }
    let names: Vec<&String> = store.dir.files.keys().collect();
    assert_eq!(names, vec!["db/L1_000005.sst"]);
}

#[test]
fn corrupt_log_is_refused() {
    let log = [9u8, 0, 0, 0, 0, 0, 0, 0, 0];
    let opened = LsmEngine::open(
        "db",
        BTreeMemtable::new(),
        Vec::new(),
        &log,
        EngineConfig::default(),
    );
    match opened {
        Err(e) => assert_eq!(e.to_string(), "corruption: unknown WAL record type: 0x9"),
        Ok(_) => panic!("opened a corrupt log"),
    }
}

#[test]
fn streamed_ingest_writes_the_same_table() {
    let entries: Vec<(Vec<u8>, Vec<u8>)> = (0u32..300)
        .map(|i| (format!("k{i:05}").into_bytes(), vec![b'x'; 100]))
        .collect();
    let mut whole = open_engine();
    let job = whole.engine.ingest_sorted(&entries).unwrap().unwrap();

    let mut parts = open_engine();
    let mut ingest = parts.engine.start_ingest();
    let mut file = Vec::new();
    for (key, value) in &entries {
        ingest.add(key, value).unwrap();
        file.extend(ingest.take_output());
    }
    assert!(ingest.add(b"k00000", b"late").is_err());
    assert_eq!(ingest.table_path(), job.meta.path);
    let rest = ingest.finish().unwrap();
    file.extend(rest.file);
    assert_eq!(file, job.file);
    assert_eq!(rest.meta.entry_count, 300);
    assert_eq!(rest.meta.min_key, b"k00000");
    assert_eq!(rest.meta.max_key, b"k00299");
}

fn one(key: &[u8], value: &[u8]) -> Vec<(Vec<u8>, Vec<u8>)> {
    vec![(key.to_vec(), value.to_vec())]
}

/// The key ranges of each level above 0.
fn assert_no_overlap<M: Memtable>(store: &Store<M>) {
    for (level, tables) in store.engine.manifest().levels() {
        for (i, a) in tables.iter().enumerate() {
            assert!(a.min_key <= a.max_key);
            assert_eq!(a.level, level);
            for b in &tables[i + 1..] {
                assert!(level == 0 || a.max_key < b.min_key || b.max_key < a.min_key);
            }
        }
    }
}

#[test]
fn deleted_key_stays_deleted_through_compactions() {
    let mut store = open_engine();
    store.put(b"k", b"old");
    store.flush();
    // Push the value down to the last level.
    for level in 0..3 {
        store.compact(level);
        assert_eq!(store.get(b"k"), Some(b"old".to_vec()));
    }
    assert_eq!(store.tables(3), 1);
    store.delete(b"k");
    store.flush();
    for level in 0..3 {
        store.compact(level);
        assert_eq!(store.get(b"k"), None);
    }
    // The tombstone met the value and both are gone.
    assert_eq!(store.tables(3), 0);
    assert_eq!(store.get(b"k"), None);
}

#[test]
fn tombstone_is_kept_above_older_levels() {
    let mut store = open_engine();
    store.put(b"k", b"old");
    store.flush();
    store.compact(0);
    store.compact(1);
    store.delete(b"k");
    store.flush();
    store.compact(0);
    assert_eq!(store.tables(1), 1);
    assert_eq!(store.get(b"k"), None);
}

#[test]
fn higher_levels_do_not_overlap() {
    let mut store = open_engine();
    for round in 0u32..12 {
        for i in 0u32..20 {
            let key = format!("{:03}", (i * 7 + round * 13) % 100);
            store.put(key.as_bytes(), &round.to_le_bytes());
        }
        store.flush();
        assert_no_overlap(&store);
    }
    assert_eq!(store.tables(1), 1);
}

#[test]
fn only_overlapping_tables_are_merged() {
    let mut store = open_engine();
    for key in [b"a", b"m", b"z"] {
        store.ingest_sorted(one(key, b"1")).unwrap();
        store.compact(0);
    }
    assert_eq!(store.tables(1), 3);
    store.ingest_sorted(one(b"m", b"2")).unwrap();
    store.compact(0);
    assert_eq!(store.tables(1), 3);
    assert_no_overlap(&store);
    assert_eq!(store.get(b"a"), Some(b"1".to_vec()));
    assert_eq!(store.get(b"m"), Some(b"2".to_vec()));
    assert_eq!(store.get(b"z"), Some(b"1".to_vec()));
}

#[test]
fn reopening_finds_the_tables() {
    let mut store = open_engine();
    store.ingest_sorted(one(b"a", b"1")).unwrap();
    store.put(b"b", b"2");
    store.flush();
    store.compact(0);
    store.ingest_sorted(one(b"a", b"3")).unwrap();
    store.put(b"c", b"4");

    let mut store = Store::open(store.dir, LearnedMemtable::new(), DEFAULT_FLUSH_THRESHOLD);
    assert_eq!(store.tables(0), 1);
    assert_eq!(store.tables(1), 1);
    assert_eq!(store.get(b"a"), Some(b"3".to_vec()));
    assert_eq!(store.get(b"b"), Some(b"2".to_vec()));
    assert_eq!(store.get(b"c"), Some(b"4".to_vec()));

    // New tables get new names.
    let files = store.dir.files.len();
    store.flush();
    assert_eq!(store.dir.files.len(), files + 1);
    assert_eq!(store.get(b"c"), Some(b"4".to_vec()));
}

#[test]
fn writes_after_a_cut_off_log_are_replayed() {
    let dir = Dir {
        log: vec![0x01, 0xFF, 0xFF],
        ..Dir::default()
    };
    let mut store = Store::open(dir, BTreeMemtable::new(), DEFAULT_FLUSH_THRESHOLD);
    assert!(store.dir.log.is_empty());
    store.put(b"k", b"v");
    let store = Store::open(store.dir, BTreeMemtable::new(), DEFAULT_FLUSH_THRESHOLD);
    assert_eq!(store.get(b"k"), Some(b"v".to_vec()));
}

#[test]
fn tables_of_an_interrupted_compaction_are_removed() {
    let mut store = open_engine();
    store.ingest_sorted(one(b"k", b"1")).unwrap();
    store.compact(0);
    let (name, file) = store.dir.files.iter().next().unwrap();
    let old = (name.clone(), file.clone());
    store.delete(b"k");
    store.put(b"l", b"2");
    store.flush();
    store.compact(0);
    // The merged table's source is still there.
    store.dir.files.insert(old.0.clone(), old.1);
    let store = Store::open(store.dir, LearnedMemtable::new(), DEFAULT_FLUSH_THRESHOLD);
    assert!(!store.dir.files.contains_key(&old.0));
    assert_eq!(store.get(b"k"), None);
    assert_eq!(store.get(b"l"), Some(b"2".to_vec()));
}

#[test]
fn conflicting_tables_are_an_error() {
    let table = |level: usize, min: &[u8], max: &[u8]| SsTableMeta {
        id: 7,
        level,
        path: "L0_000007.sst".to_string(),
        entry_count: 1,
        min_key: min.to_vec(),
        max_key: max.to_vec(),
    };
    let open = |tables: Vec<SsTableMeta>| {
        LsmEngine::open("db", BTreeMemtable::new(), tables, &[], EngineConfig::default())
    };
    for tables in [
        vec![table(0, b"a", b"b"), table(1, b"c", b"d")],
        vec![table(0, b"b", b"a")],
    ] {
        match open(tables) {
            Err(Error::Corruption(text)) => assert_eq!(text, "conflicting SSTables"),
            _ => panic!("expected an error"),
        }
    }
    assert!(open(vec![table(0, b"a", b"b")]).is_ok());
}

#[test]
fn misplaced_entries_are_merged() {
    let mut store = open_engine();
    store.ingest_sorted(one(b"k", b"1")).unwrap();
    let name = compaction_sources(store.engine.manifest(), 0)[0].path.clone();
    let file = store.dir.files[&name].clone();
    let mut compaction = store.engine.start_compaction(0, vec![index_of(&file)]).unwrap();
    // The key of the block is not in the key range of the table.
    let mut block = file[..10].to_vec();
    block[4] = b'z';
    match compaction.step() {
        Ok(CompactionStep::Read { source: 0, offset: 0, len: 10 }) => {}
        _ => panic!("expected a read"),
    }
    compaction.supply(0, block);
    assert!(matches!(compaction.step(), Ok(CompactionStep::Done)));
    let compacted = compaction.finish();
    store.engine.finish_compaction(compacted.change);
    let merged = &store.engine.manifest().level(1)[0];
    assert_eq!(merged.min_key, b"z");
    assert_eq!(merged.max_key, b"z");
    assert_eq!(merged.entry_count, 1);
}

#[test]
fn tables_need_a_new_id() {
    let mut store = open_engine();
    store.put(b"k", b"v");
    let job = store.engine.flush().unwrap();
    let meta = job.meta.clone();
    assert!(store.engine.can_commit(&meta));
    store.engine.commit_table(job.meta);
    assert!(!store.engine.can_commit(&meta));
    let later = SsTableMeta { id: 1, ..meta };
    assert!(!store.engine.can_commit(&later));
}

#[test]
fn random_writes_read_back_across_restarts() {
    let mut store = open_engine();
    let mut oracle: BTreeMap<Vec<u8>, Vec<u8>> = BTreeMap::new();
    let mut state = 12345u64;
    for round in 0..600u32 {
        state = state.wrapping_mul(6364136223846793005).wrapping_add(1442695040888963407);
        let key = format!("{:02}", (state >> 33) % 40).into_bytes();
        match (state >> 50) % 8 {
            0 | 1 => {
                store.delete(&key);
                oracle.remove(&key);
            }
            2 => store.flush(),
            3 => {
                let level = ((state >> 20) % 4) as usize;
                if store.tables(level) > 0 {
                    store.compact(level);
                }
            }
            4 if round % 5 == 0 => {
                store = Store::open(store.dir, LearnedMemtable::new(), DEFAULT_FLUSH_THRESHOLD);
            }
            _ => {
                let value = round.to_le_bytes().to_vec();
                store.put(&key, &value);
                oracle.insert(key, value);
            }
        }
        assert_no_overlap(&store);
    }
    for i in 0..40 {
        let key = format!("{i:02}").into_bytes();
        assert_eq!(store.get(&key), oracle.get(&key).cloned());
    }
}

#[test]
fn overwrites_fill_only_some_memtables() {
    fn flushes<M: Memtable>(memtable: M) -> usize {
        let mut store = Store::open(Dir::default(), memtable, 30);
        for _ in 0..8 {
            store.put(b"key", b"value");
        }
        store.tables(0)
    }
    // Each put counts eight bytes.
    assert_eq!(flushes(BTreeMemtable::new()), 2);
    assert_eq!(flushes(SkipListMemtable::new()), 2);
    // A learned memtable does not count a key again.
    assert_eq!(flushes(LearnedMemtable::new()), 0);
}

#[test]
fn compaction_rounds_keep_reads_and_order() {
    let mut store = open_engine_with_threshold(64);
    let mut oracle: BTreeMap<Vec<u8>, Vec<u8>> = BTreeMap::new();
    for i in 0u32..200 {
        let key = format!("{:03}", (i * 37) % 90).into_bytes();
        let value = i.to_string().into_bytes();
        store.put(&key, &value);
        oracle.insert(key, value);
    }
    for level in 0..3 {
        if store.tables(level) > 0 {
            store.compact(level);
        }
        assert_no_overlap(&store);
        for (key, value) in &oracle {
            assert_eq!(store.get(key).as_ref(), Some(value));
        }
    }
}
