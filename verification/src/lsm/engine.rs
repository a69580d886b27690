//! LSM engine: coordinates memtable, log, SSTables, and compaction.
//!
//! The engine decides what is logged, kept in memory, written to tables, read
//! and merged. The owner of the files performs the reads and writes. Writes go
//! to the log and the memtable. When the memtable exceeds a size threshold, it
//! is drained to an SSTable on disk and the log is truncated. Reads check the
//! memtable first, then SSTables from newest to oldest.

use vstd::prelude::*;

use super::compaction::{
    compact_level, is_added, is_started, merge_inputs, Compaction, TableChange,
};
use super::error::{Error, Result};
use super::manifest::{
    are_leftovers, is_disjoint, is_loaded, is_new_id, is_newest_id, is_ranked, is_recoverable,
    is_split, issued_for, lemma_loaded, lemma_order_push, table_path, tables_of, Manifest,
};
use super::memtable::{grown, Memtable};
use super::pairs::{key_sorted, lemma_lex, lex_lt, lists, pairs};
use super::sstable::reader::IndexEntry;
use super::sstable::writer::{first_key_of, last_key_of, Finished, SsTableWriter};
use super::sstable::{full_block_bytes, stored, table_bytes, SsTableMeta, DEFAULT_BLOCK_SIZE};
use super::wal::{
    delete_bytes, first_record, lemma_record_shrinks, log_entries, put_bytes, unknown_type_text,
    valid_len, LogEntry, Recovered, Wal, WalRecord,
};
use crate::key::{bytes_copy, bytes_le, lex_le};

verus! {

/// Default flush threshold: 4 MiB of key-value data.
pub const DEFAULT_FLUSH_THRESHOLD: usize = 4194304;

/// Number of LSM levels.
pub const NUM_LEVELS: usize = 4;

/// Configuration for the LSM engine.
#[derive(Clone, Copy, Debug)]
pub struct EngineConfig {
    /// Memtable flush threshold in bytes.
    pub flush_threshold: usize,
}

impl Default for EngineConfig {
    fn default() -> (r: Self)
        ensures
            r.flush_threshold == DEFAULT_FLUSH_THRESHOLD,
    {
        EngineConfig { flush_threshold: DEFAULT_FLUSH_THRESHOLD }
    }
}

/// The contents after an operation.
pub open spec fn applied(m: Map<Seq<u8>, Seq<u8>>, e: LogEntry) -> Map<Seq<u8>, Seq<u8>> {
    match e {
        LogEntry::Put(key, value) => m.insert(key, value),
        LogEntry::Delete(key) => m.insert(key, Seq::empty()),
    }
}

/// The contents after a sequence of operations.
pub open spec fn replayed(m: Map<Seq<u8>, Seq<u8>>, entries: Seq<LogEntry>) -> Map<
    Seq<u8>,
    Seq<u8>,
>
    decreases entries.len(),
{
    if entries.len() == 0 {
        m
    } else {
        applied(replayed(m, entries.drop_last()), entries.last())
    }
}

/// The approximate memory usage after an operation on a memtable with the given
/// contents. `overwrites` tells whether the bytes of a pair count as well when its
/// key is already there.
pub open spec fn grown_by(
    count: usize,
    contents: Map<Seq<u8>, Seq<u8>>,
    e: LogEntry,
    overwrites: bool,
) -> usize {
    match e {
        LogEntry::Put(key, value) => grown(
            count,
            key,
            value,
            overwrites || !contents.dom().contains(key),
        ),
        LogEntry::Delete(key) => grown(
            count,
            key,
            Seq::empty(),
            overwrites || !contents.dom().contains(key),
        ),
    }
}

/// The approximate memory usage after a sequence of operations.
pub open spec fn grown_by_all(
    count: usize,
    contents: Map<Seq<u8>, Seq<u8>>,
    entries: Seq<LogEntry>,
    overwrites: bool,
) -> usize
    decreases entries.len(),
{
    if entries.len() == 0 {
        count
    } else {
        let before = entries.drop_last();
        grown_by(
            grown_by_all(count, contents, before, overwrites),
            replayed(contents, before),
            entries.last(),
            overwrites,
        )
    }
}

/// The key range of the table covers the key.
pub open spec fn covers(meta: SsTableMeta, key: Seq<u8>) -> bool {
    lex_le(meta.min_key@, key) && lex_le(key, meta.max_key@)
}

/// The test for tables whose key range covers the key.
pub open spec fn covering(key: Seq<u8>) -> spec_fn(SsTableMeta) -> bool {
    |m: SsTableMeta| covers(m, key)
}

/// The tables that a read of the key looks into, in order: level by level,
/// newest first within a level.
pub open spec fn candidates(levels: Seq<Seq<SsTableMeta>>, key: Seq<u8>) -> Seq<SsTableMeta>
    decreases levels.len(),
{
    if levels.len() == 0 {
        Seq::empty()
    } else {
        candidates(levels.drop_last(), key) + levels.last().filter(covering(key))
    }
}

/// What readers see of a stored value: a tombstone stands for no value.
pub open spec fn visible(v: Option<Seq<u8>>) -> Option<Seq<u8>> {
    match v {
        Some(bytes) => if bytes.len() > 0 {
            Some(bytes)
        } else {
            None
        },
        None => None,
    }
}

/// The bytes of an optional value.
pub open spec fn value_view(v: Option<Vec<u8>>) -> Option<Seq<u8>> {
    match v {
        Some(bytes) => Some(bytes@),
        None => None,
    }
}

/// `None` for a tombstone.
fn unless_tombstone(value: Vec<u8>) -> (r: Option<Vec<u8>>)
    ensures
        value_view(r) == visible(Some(value@)),
{
    if value.len() == 0 {
        None
    } else {
        Some(value)
    }
}

/// The path and ID of a table.
pub open spec fn table_ref(m: SsTableMeta) -> (u64, Seq<char>) {
    (m.id, m.path@)
}

/// The contents of a list of table paths and IDs.
pub open spec fn ref_views(v: Seq<(u64, String)>) -> Seq<(u64, Seq<char>)> {
    v.map_values(|e: (u64, String)| (e.0, e.1@))
}

/// A read that goes on in the tables.
pub struct Probe {
    /// The tables to look into, last one first.
    tables: Vec<(u64, String)>,
}

/// The next step of a read.
pub enum GetStep {
    /// The answer.
    Done(Option<Vec<u8>>),
    /// A table has to be looked into.
    Probe(Probe),
}

impl Probe {
    /// There is a table to look into.
    pub closed spec fn wf(self) -> bool {
        self.tables@.len() > 0
    }

    /// The tables to look into, in order.
    pub closed spec fn pending(self) -> Seq<(u64, Seq<char>)> {
        ref_views(self.tables@).reverse()
    }

    /// The path of the file to look into.
    pub fn path(&self) -> (r: &str)
        requires
            self.wf(),
        ensures
            self.pending().len() > 0,
            r@ == self.pending()[0].1,
    {
        let last: usize = self.tables.len() - 1;
        assert(ref_views(self.tables@)[last as int] == (
            self.tables@[last as int].0,
            self.tables@[last as int].1@,
        ));
        self.tables[last].1.as_str()
    }

    /// The step after what was found in the table for the key.
    pub open spec fn is_resumed(self, reply: Option<Seq<u8>>, r: GetStep) -> bool {
        match reply {
            Some(v) => r is Done && value_view(r->Done_0) == visible(Some(v)),
            None => if self.pending().len() == 1 {
                r == GetStep::Done(None)
            } else {
                &&& r is Probe
                &&& r->Probe_0.wf()
                &&& r->Probe_0.pending() == self.pending().drop_first()
            },
        }
    }

    /// Go on with what was found in the table for the key.
    pub fn resume(self, reply: Option<Vec<u8>>) -> (r: GetStep)
        requires
            self.wf(),
        ensures
            self.is_resumed(value_view(reply), r),
    {
        match reply {
            Some(value) => GetStep::Done(unless_tombstone(value)),
            None => {
                let mut probe: Probe = self;
                let ghost before_step = probe.tables@;
                probe.tables.pop();
                assert(ref_views(probe.tables@) =~= ref_views(before_step).drop_last());
                if probe.tables.len() == 0 {
                    GetStep::Done(None)
                } else {
                    assert(probe.pending() =~= self.pending().drop_first());
                    GetStep::Probe(probe)
                }
            },
        }
    }
}

/// A table that has to be written.
pub struct FlushJob {
    /// Description of the table.
    pub meta: SsTableMeta,
    /// The bytes of its file.
    pub file: Vec<u8>,
}

/// The description of a table of a directory with these entries.
pub open spec fn describes(
    meta: SsTableMeta,
    dir: Seq<char>,
    id: u64,
    level: nat,
    s: Seq<(Seq<u8>, Seq<u8>)>,
) -> bool {
    &&& meta.id == id
    &&& meta.level == level
    &&& meta.path@ == table_path(dir, level, id as nat)
    &&& meta.entry_count == stored(s.len())
    &&& meta.min_key@ == first_key_of(s)
    &&& meta.max_key@ == last_key_of(s)
}

impl FlushJob {
    /// The job writes a table of level 0 with the given ID and these entries to the
    /// directory.
    pub open spec fn writes(self, dir: Seq<char>, id: u64, s: Seq<(Seq<u8>, Seq<u8>)>) -> bool {
        &&& describes(self.meta, dir, id, 0, s)
        &&& self.file@ == table_bytes(s, DEFAULT_BLOCK_SIZE as nat)
    }

    /// The job writes a table of level 0 with the given ID that lists the map to the
    /// directory.
    pub open spec fn writes_map(
        self,
        dir: Seq<char>,
        id: u64,
        m: Map<Seq<u8>, Seq<u8>>,
    ) -> bool {
        exists|s: Seq<(Seq<u8>, Seq<u8>)>| #[trigger] lists(s, m) && self.writes(dir, id, s)
    }
}

/// Write entries to a table.
fn build_table(id: u64, path: String, entries: &Vec<(Vec<u8>, Vec<u8>)>) -> (r: FlushJob)
    ensures
        forall|dir: Seq<char>|
            path@ == #[trigger] table_path(dir, 0, id as nat) ==> r.writes(
                dir,
                id,
                pairs(entries@),
            ),
{
    let mut writer: SsTableWriter = SsTableWriter::new();
    let ghost s = pairs(entries@);
    let mut i: usize = 0;
    assert(s.take(0) =~= Seq::<(Seq<u8>, Seq<u8>)>::empty());
    while i < entries.len()
        invariant
            i <= entries@.len(),
            s == pairs(entries@),
            writer.wf(),
            writer.target() == DEFAULT_BLOCK_SIZE,
            writer.taken() == Seq::<u8>::empty(),
            writer.entries() == s.take(i as int),
        decreases entries@.len() - i,
    {
        writer.add(entries[i].0.as_slice(), entries[i].1.as_slice());
        assert(s.take(i + 1) =~= s.take(i as int).push(s[i as int]));
        i += 1;
    }
    assert(s.take(i as int) =~= s);
    let finished: Finished = writer.finish();
    assert(Seq::<u8>::empty() + finished.output@ =~= finished.output@);
    FlushJob {
        meta: SsTableMeta {
            id,
            level: 0,
            path,
            entry_count: finished.entry_count,
            min_key: finished.min_key,
            max_key: finished.max_key,
        },
        file: finished.output,
    }
}

/// A minimal LSM-tree key-value engine.
///
/// Writes go through the log and the memtable. When the memtable reaches the
/// flush threshold, it is drained to a sorted SSTable. Reads check the memtable
/// first, then SSTables newest-to-oldest.
pub struct LsmEngine<M: Memtable> {
    memtable: M,
    wal: Wal,
    manifest: Manifest,
    flush_threshold: usize,
}

/// What is found when a store is opened.
pub struct Opened<M: Memtable> {
    /// The engine.
    pub engine: LsmEngine<M>,
    /// The length of the log file up to which it holds complete records. The
    /// rest has to be cut off.
    pub valid_log: usize,
    /// Paths of table files that have to be removed, because a compaction merged
    /// them and did not come to remove them.
    pub leftovers: Vec<String>,
}

/// The message for tables that cannot be those of a store.
pub open spec fn bad_tables_text() -> Seq<char> {
    "conflicting SSTables"@
}

impl<M: Memtable> LsmEngine<M> {
    /// The memtable is in a consistent state and, as long as no ID was given out
    /// twice, the live tables are in order: their IDs are distinct and below the
    /// next one, each is at its level, and those of level 0 come newest first.
    pub closed spec fn wf(self) -> bool {
        &&& self.memtable.wf()
        &&& self.manifest.wf()
        &&& self.manifest.has_unique_ids() ==> is_ranked(self.manifest@, self.manifest.issued())
    }

    /// The live tables are in order.
    pub proof fn lemma_ranked(self)
        requires
            self.wf(),
        ensures
            self.tables().wf(),
            self.tables().has_unique_ids() ==> is_ranked(self.tables()@, self.tables().issued()),
    {
    }

    /// The contents of the memtable.
    pub closed spec fn memory(self) -> Map<Seq<u8>, Seq<u8>> {
        self.memtable.contents()
    }

    /// The approximate size of the memtable.
    pub closed spec fn byte_count(self) -> usize {
        self.memtable.byte_count()
    }

    /// The bytes that have to be written to the end of the log.
    pub closed spec fn log(self) -> Seq<u8> {
        self.wal@
    }

    /// The live tables.
    pub closed spec fn tables(self) -> Manifest {
        self.manifest
    }

    /// The flush threshold.
    pub closed spec fn threshold(self) -> usize {
        self.flush_threshold
    }

    /// There is room for the key in the memtable.
    pub open spec fn has_room(self, key: Seq<u8>) -> bool {
        self.memory().dom().contains(key) || self.memory().len() < isize::MAX as nat
    }

    /// Open an LSM engine for the given directory, with the tables that were found
    /// there and the contents of its log file (empty if there is none).
    ///
    /// The records of the log are replayed into the memtable for crash
    /// recovery.
    ///
    /// # Errors
    ///
    /// Returns [`Error::Corruption`] if the log holds a complete record of an
    /// unknown type, or if tables share an ID or have an improper key range.
    pub fn open(
        dir: &str,
        memtable: M,
        tables: Vec<SsTableMeta>,
        log: &[u8],
        config: EngineConfig,
    ) -> (r: Result<Opened<M>>)
        requires
            memtable.wf(),
            memtable.contents().len() + log@.len() <= isize::MAX as nat,
        ensures
            match r {
                Ok(opened) => {
                    let engine = opened.engine;
                    &&& log_entries(log@) is Ok
                    &&& is_recoverable(tables@)
                    &&& engine.wf()
                    &&& engine.memory() == replayed(memtable.contents(), log_entries(log@)->Ok_0)
                    &&& engine.byte_count() == grown_by_all(
                        memtable.byte_count(),
                        memtable.contents(),
                        log_entries(log@)->Ok_0,
                        M::counts_overwrites(),
                    )
                    &&& engine.log() == Seq::<u8>::empty()
                    &&& is_loaded(engine.tables()@, tables@, NUM_LEVELS as nat)
                    &&& is_disjoint(engine.tables()@)
                    &&& engine.tables().issued() == issued_for(tables@)
                    &&& engine.tables().directory() == dir@
                    &&& engine.threshold() == config.flush_threshold
                    &&& opened.valid_log == valid_len(log@)
                    &&& are_leftovers(opened.leftovers@.map_values(|s: String| s@), tables@)
                },
                Err(e) => {
                    &&& e is Corruption
                    &&& match log_entries(log@) {
                        Err(kind) => e->Corruption_0@ == unknown_type_text(kind),
                        Ok(_) => !is_recoverable(tables@) && e->Corruption_0@
                            == bad_tables_text(),
                    }
                },
            },
    {
        // Recover from the log.
        let recovered: Recovered = match Wal::replay(log) {
            Ok(recovered) => recovered,
            Err(e) => {
                return Err(e);
            },
        };
        let (manifest, leftovers): (Manifest, Vec<String>) = match Manifest::load(
            dir,
            NUM_LEVELS,
            tables,
        ) {
            Some(loaded) => loaded,
            None => {
                return Err(Error::Corruption("conflicting SSTables".to_owned()));
            },
        };
        let records: Vec<WalRecord> = recovered.records;
        proof {
            lemma_loaded(manifest@, tables@, NUM_LEVELS as nat);
        }
        let ghost all = records@.map_values(|w: WalRecord| w@);
        let ghost start = memtable.contents();
        let ghost start_bytes = memtable.byte_count();
        proof {
            lemma_record_count(log@);
            memtable.lemma_finite();
        }
        let mut memtable: M = memtable;
        let mut i: usize = 0;
        assert(all.take(0) =~= Seq::<LogEntry>::empty());
        while i < records.len()
            invariant
                i <= records@.len(),
                all == records@.map_values(|w: WalRecord| w@),
                memtable.wf(),
                memtable.contents() == replayed(start, all.take(i as int)),
                memtable.byte_count() == grown_by_all(
                    start_bytes,
                    start,
                    all.take(i as int),
                    M::counts_overwrites(),
                ),
                memtable.contents().dom().finite(),
                memtable.contents().len() + (records@.len() - i) <= isize::MAX as nat,
            decreases records@.len() - i,
        {
            proof {
                assert(all.take(i + 1).drop_last() =~= all.take(i as int));
                assert(all.take(i + 1).last() == records@[i as int]@);
            }
            match &records[i] {
                WalRecord::Put { key, value } => {
                    memtable.insert(bytes_copy(key.as_slice()), bytes_copy(value.as_slice()));
                },
                WalRecord::Delete { key } => {
                    memtable.delete(key.as_slice());
                },
            }
            i += 1;
        }
        assert(all.take(i as int) =~= all);
        Ok(
            Opened {
                engine: LsmEngine {
                    memtable,
                    wal: Wal::open(),
                    manifest,
                    flush_threshold: config.flush_threshold,
                },
                valid_log: recovered.valid_len,
                leftovers,
            },
        )
    }

    /// Insert a key-value pair.
    ///
    /// Returns the table that has to be written, if the memtable was full.
    pub fn put(&mut self, key: &[u8], value: &[u8]) -> (r: Option<FlushJob>)
        requires
            old(self).wf(),
            old(self).has_room(key@),
        ensures
            final(self).wf(),
            final(self).threshold() == old(self).threshold(),
            final(self).log() == old(self).log() + put_bytes(key@, value@),
            final(self).tables()@ == old(self).tables()@,
            final(self).tables().directory() == old(self).tables().directory(),
            ({
                let m = old(self).memory().insert(key@, value@);
                let bytes = grown(
                    old(self).byte_count(),
                    key@,
                    value@,
                    M::counts_overwrites() || !old(self).memory().dom().contains(key@),
                );
                let id = old(self).tables().next_id();
                if bytes >= old(self).threshold() {
                    &&& r is Some
                    &&& r->0.writes_map(old(self).tables().directory(), id, m)
                    &&& final(self).accepts(r->0.meta)
                    &&& final(self).memory() == Map::<Seq<u8>, Seq<u8>>::empty()
                    &&& final(self).byte_count() == 0
                    &&& final(self).tables().next_id() == id.wrapping_add(1)
                    &&& final(self).tables().issued() == old(self).tables().issued() + 1
                } else {
                    &&& r is None
                    &&& final(self).memory() == m
                    &&& final(self).byte_count() == bytes
                    &&& final(self).tables() == old(self).tables()
                }
            }),
    {
        // Log first for durability.
        self.wal.append_put(key, value);
        self.memtable.insert(bytes_copy(key), bytes_copy(value));
        proof {
            let m = self.memtable.contents();
            assert(m.dom().contains(key@));
            assert(m != Map::<Seq<u8>, Seq<u8>>::empty());
        }
        self.maybe_flush()
    }

    /// The first step of a read: the memtable answers, or the tables whose key
    /// range covers the key have to be looked into.
    pub open spec fn is_first_step(self, key: Seq<u8>, r: GetStep) -> bool {
        if self.memory().dom().contains(key) {
            r is Done && value_view(r->Done_0) == visible(Some(self.memory()[key]))
        } else {
            let found = candidates(self.tables()@, key);
            if found.len() == 0 {
                r == GetStep::Done(None)
            } else {
                &&& r is Probe
                &&& r->Probe_0.wf()
                &&& r->Probe_0.pending() == found.map_values(|m: SsTableMeta| table_ref(m))
            }
        }
    }

    /// Look up a key. The answer is `None` if the key is not found or deleted.
    pub fn get(&self, key: &[u8]) -> (r: GetStep)
        requires
            self.wf(),
        ensures
            self.is_first_step(key@, r),
    {
        // Check memtable (freshest data).
        if let Some(value) = self.memtable.get(key) {
            return GetStep::Done(unless_tombstone(value));
        }
        // Find the SSTables to check, from oldest (Ln) to newest (L0).
        let levels: Vec<(usize, &[SsTableMeta])> = self.manifest.levels();
        let ghost all = self.manifest@;
        let ghost as_ref = |m: SsTableMeta| table_ref(m);
        let mut tables: Vec<(u64, String)> = Vec::new();
        let mut level: usize = levels.len();
        let ghost found = candidates(all, key@);
        assert(all.take(level as int) =~= all);
        assert(candidates(all, key@) + Seq::empty() =~= candidates(all, key@));
        let ghost mut tail: Seq<SsTableMeta> = Seq::empty();
        assert(ref_views(tables@).reverse() =~= tail.map_values(as_ref));
        while level > 0
            invariant
                level <= levels@.len(),
                levels@.len() == all.len(),
                forall|i: int| 0 <= i < levels@.len() ==> (#[trigger] levels@[i]).1@ == all[i],
                as_ref == (|m: SsTableMeta| table_ref(m)),
                found == candidates(all.take(level as int), key@) + tail,
                ref_views(tables@).reverse() == tail.map_values(as_ref),
            decreases level,
        {
            level -= 1;
            let here: &[SsTableMeta] = levels[level].1;
            let ghost below = candidates(all.take(level as int), key@);
            let ghost old_tail = tail;
            proof {
                assert(here@ == all[level as int]);
                assert(all.take(level + 1).drop_last() =~= all.take(level as int));
                assert(all.take(level + 1).last() == here@);
                assert(candidates(all.take(level + 1), key@) == below + here@.filter(
                    covering(key@),
                ));
            }
            let mut i: usize = here.len();
            assert(here@.take(i as int) =~= here@);
            assert(below + (here@.take(i as int).filter(covering(key@)) + tail) =~= found);
            // Within a level, the newest table comes first.
            while i > 0
                invariant
                    i <= here@.len(),
                    as_ref == (|m: SsTableMeta| table_ref(m)),
                    found == below + (here@.take(i as int).filter(covering(key@)) + tail),
                    ref_views(tables@).reverse() == tail.map_values(as_ref),
                decreases i,
            {
                i -= 1;
                let meta: &SsTableMeta = &here[i];
                let ghost p = covering(key@);
                let ghost shorter = here@.take(i as int);
                proof {
                    assert(here@.take(i + 1).drop_last() =~= shorter);
                    assert(here@.take(i + 1).last() == *meta);
                    reveal(Seq::filter);
                }
                if bytes_le(meta.min_key.as_slice(), key) && bytes_le(key, meta.max_key.as_slice()) {
                    let ghost before_step = tables@;
                    tables.push((meta.id, meta.path.clone()));
                    proof {
                        let longer = seq![*meta] + tail;
                        assert(here@.take(i + 1).filter(p) == shorter.filter(p).push(*meta));
                        assert(shorter.filter(p).push(*meta) + tail =~= shorter.filter(p)
                            + longer);
                        assert(ref_views(tables@) =~= ref_views(before_step).push(
                            table_ref(*meta),
                        ));
                        assert(ref_views(tables@).reverse() =~= seq![table_ref(*meta)] + ref_views(
                            before_step,
                        ).reverse());
                        assert(longer.map_values(as_ref) =~= seq![table_ref(*meta)]
                            + tail.map_values(as_ref));
                        tail = longer;
                    }
                } else {
                    assert(here@.take(i + 1).filter(p) == shorter.filter(p));
                }
            }
            proof {
                assert(here@.take(0).filter(covering(key@)) =~= Seq::<SsTableMeta>::empty()) by {
                    reveal(Seq::filter);
                }
                assert(Seq::<SsTableMeta>::empty() + tail =~= tail);
            }
        }
        proof {
            assert(candidates(all.take(0), key@) =~= Seq::<SsTableMeta>::empty());
            assert(Seq::<SsTableMeta>::empty() + tail =~= tail);
            assert(found =~= tail);
        }
        if tables.len() == 0 {
            assert(ref_views(tables@).reverse().len() == 0);
            GetStep::Done(None)
        } else {
            assert(ref_views(tables@).reverse().len() > 0);
            GetStep::Probe(Probe { tables })
        }
    }

    /// Delete a key by inserting a tombstone.
    pub fn delete(&mut self, key: &[u8])
        requires
            old(self).wf(),
            old(self).has_room(key@),
        ensures
            final(self).wf(),
            final(self).threshold() == old(self).threshold(),
            final(self).log() == old(self).log() + delete_bytes(key@),
            final(self).memory() == old(self).memory().insert(key@, Seq::<u8>::empty()),
            final(self).byte_count() == grown(
                old(self).byte_count(),
                key@,
                Seq::<u8>::empty(),
                M::counts_overwrites() || !old(self).memory().dom().contains(key@),
            ),
            final(self).tables() == old(self).tables(),
    {
        self.wal.append_delete(key);
        self.memtable.delete(key);
    }

    /// Force the memtable to flush to an SSTable, regardless of size.
    ///
    /// Returns the table that has to be written, if the memtable was not empty.
    pub fn flush(&mut self) -> (r: Option<FlushJob>)
        requires
            old(self).wf(),
        ensures
            final(self).wf(),
            final(self).threshold() == old(self).threshold(),
            final(self).log() == old(self).log(),
            final(self).tables()@ == old(self).tables()@,
            final(self).tables().directory() == old(self).tables().directory(),
            final(self).memory() == Map::<Seq<u8>, Seq<u8>>::empty(),
            final(self).byte_count() == 0,
            ({
                let id = old(self).tables().next_id();
                if old(self).memory() == Map::<Seq<u8>, Seq<u8>>::empty() {
                    &&& r is None
                    &&& final(self).tables() == old(self).tables()
                } else {
                    &&& r is Some
                    &&& r->0.writes_map(
                        old(self).tables().directory(),
                        id,
                        old(self).memory(),
                    )
                    &&& final(self).accepts(r->0.meta)
                    &&& final(self).tables().next_id() == id.wrapping_add(1)
                    &&& final(self).tables().issued() == old(self).tables().issued() + 1
                }
            }),
    {
        self.flush_memtable()
    }

    /// Check if the memtable exceeds the threshold and flush if needed.
    fn maybe_flush(&mut self) -> (r: Option<FlushJob>)
        requires
            old(self).wf(),
            old(self).memory() != Map::<Seq<u8>, Seq<u8>>::empty(),
        ensures
            final(self).wf(),
            final(self).threshold() == old(self).threshold(),
            final(self).log() == old(self).log(),
            final(self).tables()@ == old(self).tables()@,
            final(self).tables().directory() == old(self).tables().directory(),
            ({
                let id = old(self).tables().next_id();
                if old(self).byte_count() >= old(self).threshold() {
                    &&& r is Some
                    &&& r->0.writes_map(
                        old(self).tables().directory(),
                        id,
                        old(self).memory(),
                    )
                    &&& final(self).accepts(r->0.meta)
                    &&& final(self).memory() == Map::<Seq<u8>, Seq<u8>>::empty()
                    &&& final(self).byte_count() == 0
                    &&& final(self).tables().next_id() == id.wrapping_add(1)
                    &&& final(self).tables().issued() == old(self).tables().issued() + 1
                } else {
                    &&& r is None
                    &&& final(self).memory() == old(self).memory()
                    &&& final(self).byte_count() == old(self).byte_count()
                    &&& final(self).tables() == old(self).tables()
                }
            }),
    {
        if self.memtable.approximate_bytes() >= self.flush_threshold {
            self.flush_memtable()
        } else {
            None
        }
    }

    /// Drain the memtable to a new SSTable.
    fn flush_memtable(&mut self) -> (r: Option<FlushJob>)
        requires
            old(self).wf(),
        ensures
            final(self).wf(),
            final(self).threshold() == old(self).threshold(),
            final(self).log() == old(self).log(),
            final(self).tables()@ == old(self).tables()@,
            final(self).tables().directory() == old(self).tables().directory(),
            final(self).memory() == Map::<Seq<u8>, Seq<u8>>::empty(),
            final(self).byte_count() == 0,
            ({
                let id = old(self).tables().next_id();
                if old(self).memory() == Map::<Seq<u8>, Seq<u8>>::empty() {
                    &&& r is None
                    &&& final(self).tables() == old(self).tables()
                } else {
                    &&& r is Some
                    &&& r->0.writes_map(
                        old(self).tables().directory(),
                        id,
                        old(self).memory(),
                    )
                    &&& final(self).accepts(r->0.meta)
                    &&& final(self).tables().next_id() == id.wrapping_add(1)
                    &&& final(self).tables().issued() == old(self).tables().issued() + 1
                }
            }),
    {
        let entries: Vec<(Vec<u8>, Vec<u8>)> = self.memtable.drain_sorted();
        proof {
            super::pairs::lemma_pair_map(pairs(entries@));
            if entries@.len() == 0 {
                assert(old(self).memory().dom() =~= Set::empty());
                assert(old(self).memory() =~= Map::<Seq<u8>, Seq<u8>>::empty());
            } else {
                let k = pairs(entries@)[0].0;
                assert(old(self).memory().dom().contains(k));
            }
        }
        if entries.len() == 0 {
            return None;
        }
        // Write a new L0 SSTable.
        proof {
            lemma_next_id(self.manifest);
            lemma_key_range(pairs(entries@));
        }
        let (id, path): (u64, String) = self.manifest.next_sstable_path(0);
        let job: FlushJob = build_table(id, path, &entries);
        assert(job.writes(old(self).tables().directory(), id, pairs(entries@)));
        assert(lists(pairs(entries@), old(self).memory()));
        Some(job)
    }

    /// The table can be registered: it belongs to level 0, its ID was given out
    /// after those of all live tables, and its key range is proper.
    pub open spec fn accepts(self, meta: SsTableMeta) -> bool {
        &&& meta.level == 0
        &&& lex_le(meta.min_key@, meta.max_key@)
        &&& self.tables().has_unique_ids() ==> is_newest_id(
            self.tables()@,
            self.tables().issued(),
            meta.id,
        )
    }

    /// Register a table that was written.
    pub fn commit_table(&mut self, meta: SsTableMeta)
        requires
            old(self).wf(),
            old(self).accepts(meta),
        ensures
            final(self).wf(),
            final(self).threshold() == old(self).threshold(),
            final(self).log() == old(self).log(),
            final(self).memory() == old(self).memory(),
            final(self).byte_count() == old(self).byte_count(),
            is_added(old(self).tables()@, final(self).tables()@, meta),
            is_disjoint(old(self).tables()@) ==> is_disjoint(final(self).tables()@),
            final(self).tables().next_id() == old(self).tables().next_id(),
            final(self).tables().issued() == old(self).tables().issued(),
            final(self).tables().directory() == old(self).tables().directory(),
    {
        proof {
            if self.manifest.has_unique_ids() {
                lemma_order_push(self.manifest@, self.manifest.issued(), meta);
            }
        }
        self.manifest.add(meta);
        assert(is_added(old(self).tables()@, self.manifest@, meta)) by {
            assert forall|l: int| 0 <= l < self.manifest@.len() implies #[trigger] self.manifest@[l]
                == if l == meta.level {
                seq![meta] + tables_of(old(self).tables()@, l)
            } else {
                tables_of(old(self).tables()@, l)
            } by {}
        }
        proof {
            if is_disjoint(old(self).tables()@) {
                assert forall|l: int| 1 <= l < self.manifest@.len() implies is_split(
                    #[trigger] self.manifest@[l],
                ) by {
                    assert(self.manifest@[l] == tables_of(old(self).tables()@, l));
                    if l < old(self).tables()@.len() {
                        assert(is_split(old(self).tables()@[l]));
                    }
                }
            }
        }
    }

    /// Whether a table can be registered.
    pub fn can_commit(&self, meta: &SsTableMeta) -> (r: bool)
        requires
            self.wf(),
        ensures
            r ==> self.accepts(*meta),
            self.tables().issued() <= u64::MAX ==> r == self.accepts(*meta),
    {
        meta.level == 0 && self.manifest.is_newest(meta.id) && bytes_le(
            meta.min_key.as_slice(),
            meta.max_key.as_slice(),
        )
    }

    /// Take the bytes that have to be written to the end of the log.
    pub fn sync_log(&mut self) -> (r: Vec<u8>)
        requires
            old(self).wf(),
        ensures
            final(self).wf(),
            final(self).threshold() == old(self).threshold(),
            final(self).memory() == old(self).memory(),
            final(self).byte_count() == old(self).byte_count(),
            final(self).tables() == old(self).tables(),
            r@ == old(self).log(),
            final(self).log() == Seq::<u8>::empty(),
    {
        self.wal.sync()
    }

    /// Forget the bytes for the log, when the log file is truncated after a
    /// flush.
    pub fn truncate_log(&mut self)
        requires
            old(self).wf(),
        ensures
            final(self).wf(),
            final(self).threshold() == old(self).threshold(),
            final(self).memory() == old(self).memory(),
            final(self).byte_count() == old(self).byte_count(),
            final(self).tables() == old(self).tables(),
            final(self).log() == Seq::<u8>::empty(),
    {
        self.wal.truncate();
    }

    /// Number of entries in the memtable, tombstones included.
    pub fn memtable_len(&self) -> (r: usize)
        requires
            self.wf(),
        ensures
            r == self.memory().len(),
    {
        self.memtable.len()
    }

    /// The live tables.
    pub fn manifest(&self) -> (r: &Manifest)
        ensures
            *r == self.tables(),
    {
        &self.manifest
    }

    /// The compaction was started on the live tables, and its ID is not in use.
    pub open spec fn expects(self, c: Compaction) -> bool {
        &&& c.base() == self.tables()@
        &&& self.tables().has_unique_ids() ==> c.id() < self.tables().issued() && is_new_id(
            self.tables()@,
            c.id(),
        )
    }

    /// Start to compact a level. See [`compact_level`].
    pub fn start_compaction(&mut self, level: usize, indexes: Vec<Vec<IndexEntry>>) -> (r: Option<
        Compaction,
    >)
        requires
            old(self).wf(),
            level + 1 < usize::MAX,
            indexes@.len() == merge_inputs(old(self).tables()@, level as int).len(),
        ensures
            final(self).wf(),
            final(self).threshold() == old(self).threshold(),
            final(self).log() == old(self).log(),
            final(self).memory() == old(self).memory(),
            final(self).byte_count() == old(self).byte_count(),
            final(self).tables()@ == old(self).tables()@,
            final(self).tables().directory() == old(self).tables().directory(),
            match r {
                None => old(self).tables().tables_at(level as int).len() == 0
                    && final(self).tables() == old(self).tables(),
                Some(c) => {
                    &&& final(self).tables().next_id() == old(self).tables().next_id().wrapping_add(
                        1,
                    )
                    &&& final(self).tables().issued() == old(self).tables().issued() + 1
                    &&& is_started(c, old(self).tables(), level, indexes@)
                    &&& final(self).expects(c)
                },
            },
    {
        proof {
            lemma_next_id(self.manifest);
        }
        compact_level(&mut self.manifest, level, indexes)
    }

    /// Register the new table of a finished compaction, once it is written, in the
    /// place of the merged ones. See [`Compaction::finish`].
    pub fn finish_compaction(&mut self, change: TableChange)
        requires
            old(self).wf(),
            change.wf(),
            change.task().wf(),
            change.task().is_complete(),
            change.task().level() + 1 < usize::MAX,
            old(self).expects(change.task()),
        ensures
            final(self).wf(),
            final(self).threshold() == old(self).threshold(),
            final(self).log() == old(self).log(),
            final(self).memory() == old(self).memory(),
            final(self).byte_count() == old(self).byte_count(),
            final(self).tables().next_id() == old(self).tables().next_id(),
            final(self).tables().directory() == old(self).tables().directory(),
            final(self).tables().issued() == old(self).tables().issued(),
            change.task().is_finished(old(self).tables()@, final(self).tables()@),
            old(self).tables().has_unique_ids() && is_disjoint(old(self).tables()@)
                && change.task().is_sound() ==> is_disjoint(final(self).tables()@),
    {
        let ghost task = change.task();
        change.apply(&mut self.manifest);
        proof {
            task.lemma_plan();
            if self.manifest.has_unique_ids() {
                task.lemma_ranked(self.manifest@, self.manifest.issued());
                if is_disjoint(old(self).tables()@) && task.is_sound() {
                    task.lemma_disjoint(self.manifest@, self.manifest.issued());
                }
            }
        }
    }

    /// Start to ingest sorted pairs directly as an L0 SSTable, bypassing the
    /// memtable.
    pub fn start_ingest(&mut self) -> (r: SortedIngest)
        requires
            old(self).wf(),
        ensures
            final(self).wf(),
            final(self).threshold() == old(self).threshold(),
            final(self).log() == old(self).log(),
            final(self).memory() == old(self).memory(),
            final(self).byte_count() == old(self).byte_count(),
            final(self).tables()@ == old(self).tables()@,
            final(self).tables().next_id() == old(self).tables().next_id().wrapping_add(1),
            final(self).tables().issued() == old(self).tables().issued() + 1,
            final(self).tables().directory() == old(self).tables().directory(),
            final(self).tables().has_unique_ids() ==> is_newest_id(
                final(self).tables()@,
                final(self).tables().issued(),
                r.id(),
            ),
            r.wf(),
            r.id() == old(self).tables().next_id(),
            r.directory() == old(self).tables().directory(),
            r.entries() == Seq::<(Seq<u8>, Seq<u8>)>::empty(),
            r.taken() == Seq::<u8>::empty(),
    {
        proof {
            lemma_next_id(self.manifest);
        }
        let (id, path): (u64, String) = self.manifest.next_sstable_path(0);
        SortedIngest {
            id,
            path,
            writer: SsTableWriter::new(),
            prev_key: None,
            dir: Ghost(self.tables().directory()),
        }
    }

    /// Ingest sorted pairs directly as an L0 SSTable, bypassing the memtable
    /// entirely.
    ///
    /// This is the fastest path for bulk loading sorted data. Nothing is logged:
    /// the SSTable is the durable copy. Returns the table that has to be
    /// written, `None` if there are no pairs.
    ///
    /// # Errors
    ///
    /// Returns [`Error::Corruption`] if the keys do not ascend.
    pub fn ingest_sorted(&mut self, entries: &Vec<(Vec<u8>, Vec<u8>)>) -> (r: Result<
        Option<FlushJob>,
    >)
        requires
            old(self).wf(),
        ensures
            final(self).wf(),
            final(self).threshold() == old(self).threshold(),
            final(self).log() == old(self).log(),
            final(self).memory() == old(self).memory(),
            final(self).byte_count() == old(self).byte_count(),
            final(self).tables()@ == old(self).tables()@,
            final(self).tables().next_id() == old(self).tables().next_id().wrapping_add(1),
            final(self).tables().issued() == old(self).tables().issued() + 1,
            final(self).tables().directory() == old(self).tables().directory(),
            match r {
                Ok(Some(job)) => {
                    &&& key_sorted(pairs(entries@))
                    &&& entries@.len() > 0
                    &&& job.writes(
                        old(self).tables().directory(),
                        old(self).tables().next_id(),
                        pairs(entries@),
                    )
                    &&& final(self).accepts(job.meta)
                },
                Ok(None) => entries@.len() == 0,
                Err(e) => {
                    &&& !key_sorted(pairs(entries@))
                    &&& e is Corruption
                    &&& e->Corruption_0@ == "ingest_sorted: keys not in ascending order"@
                },
            },
    {
        let mut ingest: SortedIngest = self.start_ingest();
        let ghost s = pairs(entries@);
        let mut i: usize = 0;
        assert(s.take(0) =~= Seq::<(Seq<u8>, Seq<u8>)>::empty());
        while i < entries.len()
            invariant
                i <= entries@.len(),
                s == pairs(entries@),
                ingest.wf(),
                ingest.id() == old(self).tables().next_id(),
                ingest.directory() == old(self).tables().directory(),
                ingest.entries() == s.take(i as int),
                ingest.taken() == Seq::<u8>::empty(),
                self.wf(),
                self.threshold() == old(self).threshold(),
                self.log() == old(self).log(),
                self.memory() == old(self).memory(),
                self.byte_count() == old(self).byte_count(),
                self.tables()@ == old(self).tables()@,
                self.tables().next_id() == old(self).tables().next_id().wrapping_add(1),
                self.tables().issued() == old(self).tables().issued() + 1,
                self.tables().directory() == old(self).tables().directory(),
                self.tables().has_unique_ids() ==> is_newest_id(
                    self.tables()@,
                    self.tables().issued(),
                    ingest.id(),
                ),
            decreases entries@.len() - i,
        {
            let key: &Vec<u8> = &entries[i].0;
            match ingest.add(key.as_slice(), entries[i].1.as_slice()) {
                Ok(()) => {
                    assert(s.take(i + 1) =~= s.take(i as int).push(s[i as int]));
                },
                Err(e) => {
                    assert(s.take(i as int).last() == s[i - 1]);
                    assert(s[i as int].0 == key@);
                    return Err(e);
                },
            }
            i += 1;
        }
        assert(s.take(i as int) =~= s);
        match ingest.finish() {
            Some(job) => {
                assert(Seq::<u8>::empty() + job.file@ =~= job.file@);
                proof {
                    lemma_key_range(s);
                }
                Ok(Some(job))
            },
            None => Ok(None),
        }
    }
}

/// A table that is written from sorted pairs.
pub struct SortedIngest {
    id: u64,
    path: String,
    writer: SsTableWriter,
    prev_key: Option<Vec<u8>>,
    // The directory of the store.
    dir: Ghost<Seq<char>>,
}

impl SortedIngest {
    /// The pairs so far ascend.
    pub closed spec fn wf(self) -> bool {
        &&& self.writer.wf()
        &&& self.writer.target() == DEFAULT_BLOCK_SIZE
        &&& self.path@ == table_path(self.dir@, 0, self.id as nat)
        &&& key_sorted(self.writer.entries())
        &&& match self.prev_key {
            Some(key) => self.writer.entries().len() > 0 && key@ == self.writer.entries().last().0,
            None => self.writer.entries().len() == 0,
        }
    }

    /// ID of the table.
    pub closed spec fn id(self) -> u64 {
        self.id
    }

    /// The directory of the store.
    pub closed spec fn directory(self) -> Seq<char> {
        self.dir@
    }

    /// The pairs so far.
    pub closed spec fn entries(self) -> Seq<(Seq<u8>, Seq<u8>)> {
        self.writer.entries()
    }

    /// The output that was taken.
    pub closed spec fn taken(self) -> Seq<u8> {
        self.writer.taken()
    }

    /// Path of the file of the table.
    pub fn table_path(&self) -> (r: &str)
        requires
            self.wf(),
        ensures
            r@ == table_path(self.directory(), 0, self.id() as nat),
    {
        self.path.as_str()
    }

    /// Add a pair.
    ///
    /// # Errors
    ///
    /// Returns [`Error::Corruption`] if its key is not after the previous one.
    pub fn add(&mut self, key: &[u8], value: &[u8]) -> (r: Result<()>)
        requires
            old(self).wf(),
        ensures
            final(self).wf(),
            final(self).id() == old(self).id(),
            final(self).directory() == old(self).directory(),
            final(self).taken() == old(self).taken(),
            match r {
                Ok(()) => {
                    &&& old(self).entries().len() == 0 || lex_lt(
                        old(self).entries().last().0,
                        key@,
                    )
                    &&& final(self).entries() == old(self).entries().push((key@, value@))
                },
                Err(e) => {
                    &&& old(self).entries().len() > 0
                    &&& !lex_lt(old(self).entries().last().0, key@)
                    &&& final(self).entries() == old(self).entries()
                    &&& e is Corruption
                    &&& e->Corruption_0@ == "ingest_sorted: keys not in ascending order"@
                },
            },
    {
        // Verify sort order.
        if let Some(prev) = &self.prev_key {
            proof {
                lemma_lex(prev@, key@, prev@);
                lemma_lex(key@, prev@, key@);
            }
            if bytes_le(key, prev.as_slice()) {
                return Err(
                    Error::Corruption("ingest_sorted: keys not in ascending order".to_owned()),
                );
            }
        }
        let ghost s = self.writer.entries();
        self.writer.add(key, value);
        self.prev_key = Some(bytes_copy(key));
        proof {
            let t = self.writer.entries();
            assert forall|i: int, j: int| 0 <= i < j < t.len() implies lex_lt(
                #[trigger] t[i].0,
                #[trigger] t[j].0,
            ) by {
                if j < s.len() {
                    assert(lex_lt(s[i].0, s[j].0));
                } else {
                    let last = s.len() - 1;
                    if i < last {
                        assert(lex_lt(s[i].0, s[last].0));
                        lemma_lex(s[i].0, s[last].0, key@);
                        lemma_lex(s[last].0, key@, s[i].0);
                    }
                }
            }
        }
        Ok(())
    }

    /// Take the finished blocks of the table, to be written to the end of its
    /// file.
    pub fn take_output(&mut self) -> (r: Vec<u8>)
        requires
            old(self).wf(),
        ensures
            final(self).wf(),
            final(self).id() == old(self).id(),
            final(self).directory() == old(self).directory(),
            final(self).entries() == old(self).entries(),
            final(self).taken() == old(self).taken() + r@,
            final(self).taken() == full_block_bytes(
                old(self).entries(),
                DEFAULT_BLOCK_SIZE as nat,
            ),
    {
        self.writer.take_output()
    }

    /// Finish the table: its description and the bytes that complete its file.
    /// `None` if there are no pairs.
    pub fn finish(self) -> (r: Option<FlushJob>)
        requires
            self.wf(),
        ensures
            match r {
                None => self.entries().len() == 0,
                Some(job) => {
                    &&& self.entries().len() > 0
                    &&& describes(job.meta, self.directory(), self.id(), 0, self.entries())
                    &&& self.taken() + job.file@ == table_bytes(
                        self.entries(),
                        DEFAULT_BLOCK_SIZE as nat,
                    )
                },
            },
    {
        let task: SortedIngest = self;
        if task.prev_key.is_none() {
            return None;
        }
        let finished: Finished = task.writer.finish();
        Some(
            FlushJob {
                meta: SsTableMeta {
                    id: task.id,
                    level: 0,
                    path: task.path,
                    entry_count: finished.entry_count,
                    min_key: finished.min_key,
                    max_key: finished.max_key,
                },
                file: finished.output,
            },
        )
    }
}

/// The next ID is newer than those of all live tables.
proof fn lemma_next_id(m: Manifest)
    requires
        m.wf(),
        m.has_unique_ids() ==> is_ranked(m@, m.issued()),
    ensures
        m.issued() < 0x1_0000_0000_0000_0000 ==> {
            &&& is_newest_id(m@, m.issued() + 1, m.next_id())
            &&& is_ranked(m@, m.issued() + 1)
        },
{
}

/// The key range of sorted pairs is proper.
proof fn lemma_key_range(s: Seq<(Seq<u8>, Seq<u8>)>)
    requires
        key_sorted(s),
        s.len() > 0,
    ensures
        lex_le(first_key_of(s), last_key_of(s)),
{
    lemma_lex(s[0].0, s[0].0, s[0].0);
    if s.len() > 1 {
        assert(lex_lt(s[0].0, s[s.len() - 1].0));
    }
}

/// A log has at most as many records as bytes.
proof fn lemma_record_count(s: Seq<u8>)
    ensures
        log_entries(s) matches Ok(entries) ==> entries.len() <= s.len(),
    decreases s.len(),
{
    lemma_record_shrinks(s);
    if let Some((kind, key, value, rest)) = first_record(s) {
        lemma_record_count(rest);
    }
}

/// The first tab of a line.
pub open spec fn is_first_tab(line: Seq<u8>, i: int) -> bool {
    &&& 0 <= i < line.len()
    &&& line[i] == 9
    &&& forall|j: int| 0 <= j < i ==> line[j] != 9
}

/// Parse a line of the form `key\tvalue`: the key ends at the first tab.
///
/// Returns `None` for empty and malformed lines, which are skipped.
pub fn split_record(line: &[u8]) -> (r: Option<(Vec<u8>, Vec<u8>)>)
    ensures
        match r {
            Some((key, value)) => exists|i: int| #[trigger]
                is_first_tab(line@, i) && key@ == line@.take(i) && value@ == line@.skip(i + 1),
            None => !line@.contains(9u8),
        },
{
    let mut i: usize = 0;
    while i < line.len()
        invariant
            i <= line@.len(),
            forall|j: int| 0 <= j < i ==> line@[j] != 9,
        decreases line@.len() - i,
    {
        if line[i] == 9 {
            let key: Vec<u8> = super::codec::copy_range(line, 0, i);
            let value: Vec<u8> = super::codec::copy_range(line, i + 1, line.len());
            assert(is_first_tab(line@, i as int));
            assert(key@ =~= line@.take(i as int));
            assert(value@ =~= line@.skip(i + 1));
            return Some((key, value));
        }
        i += 1;
    }
    None
}

} // verus!
