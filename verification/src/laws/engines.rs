//! What the engine promises: writes are logged and kept, tables are written when the
//! memory is full, and reads look where the newest value is.

use vstd::prelude::*;

use crate::lsm::codec::{framed, lemma_unframe};
use crate::lsm::compaction::{Compaction, TableChange};
use crate::lsm::engine::{
    candidates, covering, grown_by_all, is_first_tab, replayed, split_record, table_ref, value_view,
    EngineConfig, FlushJob, GetStep, LsmEngine, Opened, Probe, SortedIngest,
};
use crate::lsm::error::Result;
use crate::lsm::manifest::{join_path, table_name, Manifest};
use crate::lsm::memtable::Memtable;
use crate::lsm::pairs::{
    has_key, key_sorted, lemma_lex, lemma_pair_map, lex_lt, lists, pair_map, pairs,
};
use crate::lsm::sstable::reader::{found_bytes, SsTableReader};
use crate::lsm::sstable::roundtrip::{is_storable, law_table_lookup, law_table_roundtrip};
use crate::lsm::sstable::{table_bytes, FormatError, SsTableMeta};
use crate::lsm::text::{decimal, padded_decimal};
use crate::lsm::wal::{
    delete_bytes, log_entries, put_bytes, LogEntry, Recovered, Wal, WalRecord,
};

use super::formats::{lemma_stands, stands_at, u32_at};
use super::keys::{is_alphabetical, law_byte_order_is_alphabetical};
use super::levels::{is_replaced_at, is_table_name, lemma_finished};
use super::memtables::is_in_order;

verus! {

/// The engine keeps its memory, its log and its tables as they are.
pub open spec fn is_same<M: Memtable>(a: LsmEngine<M>, b: LsmEngine<M>) -> bool {
    &&& a.memory() == b.memory()
    &&& a.byte_count() == b.byte_count()
    &&& a.log() == b.log()
    &&& a.tables()@ == b.tables()@
    &&& a.threshold() == b.threshold()
}

/// A put of a new key returns a table exactly if the bytes in memory, those of the pair
/// included, reach the threshold. Then nothing is left in memory; otherwise the bytes
/// are counted.
pub proof fn law_full_memory_is_flushed<M: Memtable>(
    e: &mut LsmEngine<M>,
    key: &[u8],
    value: &[u8],
    r: Option<FlushJob>,
)
    requires
        call_ensures(LsmEngine::<M>::put, (e, key, value), r),
        !old(e).memory().dom().contains(key@),
        old(e).byte_count() + key@.len() + value@.len() <= usize::MAX,
    ensures
        ({
            let bytes = old(e).byte_count() + key@.len() + value@.len();
            &&& r is Some <==> bytes >= old(e).threshold()
            &&& final(e).byte_count() == if r is Some {
                0
            } else {
                bytes
            }
            &&& final(e).memory() == if r is Some {
                Map::empty()
            } else {
                old(e).memory().insert(key@, value@)
            }
            &&& final(e).threshold() == old(e).threshold()
            &&& final(e).tables()@ == old(e).tables()@
        }),
{
}

/// A put or a delete of a known key counts its bytes exactly if the memtable counts those
/// of overwrites. A put returns a table exactly if the count reaches the threshold.
pub proof fn law_overwrites_are_flushed_too<M: Memtable>(
    e: &mut LsmEngine<M>,
    key: &[u8],
    value: &[u8],
    r: Option<FlushJob>,
    deleted: &mut LsmEngine<M>,
    gone: &[u8],
)
    requires
        call_ensures(LsmEngine::<M>::put, (e, key, value), r),
        call_ensures(LsmEngine::<M>::delete, (deleted, gone), ()),
        old(e).memory().dom().contains(key@),
        old(e).byte_count() + key@.len() + value@.len() <= usize::MAX,
        old(deleted).memory().dom().contains(gone@),
        old(deleted).byte_count() + gone@.len() <= usize::MAX,
    ensures
        ({
            let bytes = old(e).byte_count() + (if M::counts_overwrites() {
                key@.len() + value@.len()
            } else {
                0
            });
            &&& r is Some <==> bytes >= old(e).threshold()
            &&& final(e).byte_count() == if r is Some {
                0
            } else {
                bytes
            }
        }),
        final(deleted).byte_count() == old(deleted).byte_count() + (if M::counts_overwrites() {
            gone@.len() as int
        } else {
            0
        }),
{
}

/// A delete of a new key counts the bytes of the key, and writes no table.
pub proof fn law_deletes_stay_in_memory<M: Memtable>(e: &mut LsmEngine<M>, key: &[u8])
    requires
        call_ensures(LsmEngine::<M>::delete, (e, key), ()),
        !old(e).memory().dom().contains(key@),
        old(e).byte_count() + key@.len() <= usize::MAX,
    ensures
        final(e).byte_count() == old(e).byte_count() + key@.len(),
        final(e).memory() == old(e).memory().insert(key@, Seq::<u8>::empty()),
        final(e).threshold() == old(e).threshold(),
        final(e).tables() == old(e).tables(),
{
}

/// The bytes of keys and values in all.
pub open spec fn bytes_of_all(s: Seq<(Seq<u8>, Seq<u8>)>) -> int
    decreases s.len(),
{
    if s.len() == 0 {
        0
    } else {
        bytes_of_all(s.drop_last()) + s.last().0.len() + s.last().1.len()
    }
}

/// The puts of the pairs.
pub open spec fn puts_of(s: Seq<(Seq<u8>, Seq<u8>)>) -> Seq<LogEntry> {
    s.map_values(|e: (Seq<u8>, Seq<u8>)| LogEntry::Put(e.0, e.1))
}

/// Putting pairs with new and different keys counts all their bytes, whichever memtable
/// it is.
pub proof fn law_bytes_add_up(
    count: usize,
    contents: Map<Seq<u8>, Seq<u8>>,
    s: Seq<(Seq<u8>, Seq<u8>)>,
    overwrites: bool,
)
    requires
        forall|i: int| 0 <= i < s.len() ==> !contents.dom().contains((#[trigger] s[i]).0),
        forall|i: int, j: int| 0 <= i < j < s.len() ==> (#[trigger] s[i]).0 != (#[trigger] s[j]).0,
        count + bytes_of_all(s) <= usize::MAX,
    ensures
        grown_by_all(count, contents, puts_of(s), overwrites) == count + bytes_of_all(s),
        bytes_of_all(s) >= 0,
        forall|k: Seq<u8>|
            #![trigger replayed(contents, puts_of(s)).dom().contains(k)]
            replayed(contents, puts_of(s)).dom().contains(k) ==> contents.dom().contains(k)
                || exists|i: int| 0 <= i < s.len() && (#[trigger] s[i]).0 == k,
    decreases s.len(),
{
    let all = puts_of(s);
    if s.len() > 0 {
        let t = s.drop_last();
        assert(puts_of(t) =~= all.drop_last());
        assert(forall|i: int| 0 <= i < t.len() ==> t[i] == s[i]);
        law_bytes_add_up(count, contents, t, overwrites);
        let e = s[s.len() - 1];
        assert(all.last() == LogEntry::Put(e.0, e.1));
        let before = replayed(contents, puts_of(t));
        if before.dom().contains(e.0) {
            let i = choose|i: int| 0 <= i < t.len() && (#[trigger] t[i]).0 == e.0;
            assert(s[i].0 == e.0);
        }
        assert forall|k: Seq<u8>|
            #![trigger replayed(contents, all).dom().contains(k)]
            replayed(contents, all).dom().contains(k) implies contents.dom().contains(k)
            || exists|i: int| 0 <= i < s.len() && (#[trigger] s[i]).0 == k by {
            if k == e.0 {
                assert(s[s.len() - 1].0 == k);
            } else {
                assert(before.dom().contains(k));
                if !contents.dom().contains(k) {
                    let i = choose|i: int| 0 <= i < t.len() && (#[trigger] t[i]).0 == k;
                    assert(s[i].0 == k);
                }
            }
        }
    }
}

/// What a read answers: the bytes of a value, nothing, or the tables to look into.
pub open spec fn is_answer(step: GetStep, value: Option<Seq<u8>>) -> bool {
    step is Done && value_view(step->Done_0) == value
}

/// The two reads have the same answer or look into the same tables.
pub open spec fn is_same_step(a: GetStep, b: GetStep) -> bool {
    match (a, b) {
        (GetStep::Done(x), GetStep::Done(y)) => value_view(x) == value_view(y),
        (GetStep::Probe(p), GetStep::Probe(q)) => p.pending() == q.pending(),
        _ => false,
    }
}

/// What is put is read back while it is in memory, as nothing if it is empty. The other
/// keys keep their answers.
pub proof fn law_puts_are_answered<M: Memtable>(
    e: &mut LsmEngine<M>,
    key: &[u8],
    value: &[u8],
    r: Option<FlushJob>,
    k: &[u8],
    before: GetStep,
    after: GetStep,
)
    requires
        call_ensures(LsmEngine::<M>::put, (e, key, value), r),
        r is None,
        call_ensures(LsmEngine::<M>::get, (&*old(e), k), before),
        call_ensures(LsmEngine::<M>::get, (&*final(e), k), after),
    ensures
        k@ == key@ && value@.len() > 0 ==> is_answer(after, Some(value@)),
        k@ == key@ && value@.len() == 0 ==> is_answer(after, None),
        k@ != key@ ==> is_same_step(before, after),
{
}

/// What is deleted is not found. The other keys keep their answers.
pub proof fn law_deletes_are_answered<M: Memtable>(
    e: &mut LsmEngine<M>,
    key: &[u8],
    k: &[u8],
    before: GetStep,
    after: GetStep,
)
    requires
        call_ensures(LsmEngine::<M>::delete, (e, key), ()),
        call_ensures(LsmEngine::<M>::get, (&*old(e), k), before),
        call_ensures(LsmEngine::<M>::get, (&*final(e), k), after),
    ensures
        k@ == key@ ==> is_answer(after, None),
        k@ != key@ ==> is_same_step(before, after),
{
}

/// The table can hold the key.
pub open spec fn holds_in_range(m: SsTableMeta, key: Seq<u8>) -> bool {
    is_alphabetical(m.min_key@, key) && is_alphabetical(key, m.max_key@)
}

/// The position comes first: in a lower level, or earlier in the same level.
pub open spec fn comes_first(a: (int, int), b: (int, int)) -> bool {
    a.0 < b.0 || (a.0 == b.0 && a.1 < b.1)
}

/// There is a table at the position, and its key range has the key.
pub open spec fn is_candidate(
    levels: Seq<Seq<SsTableMeta>>,
    key: Seq<u8>,
    at: (int, int),
) -> bool {
    0 <= at.0 < levels.len() && 0 <= at.1 < levels[at.0].len() && holds_in_range(
        levels[at.0][at.1],
        key,
    )
}

/// The tables stand at these positions. They are all those whose key range has the key,
/// level by level and in each level from the first to the last.
pub open spec fn is_probe_order(
    levels: Seq<Seq<SsTableMeta>>,
    key: Seq<u8>,
    found: Seq<SsTableMeta>,
    at: Seq<(int, int)>,
) -> bool {
    &&& at.len() == found.len()
    &&& forall|i: int|
        #![trigger at[i]]
        0 <= i < at.len() ==> is_candidate(levels, key, at[i]) && levels[at[i].0][at[i].1]
            == found[i]
    &&& forall|i: int, j: int|
        0 <= i < j < at.len() ==> comes_first(#[trigger] at[i], #[trigger] at[j])
    &&& forall|p: (int, int)| #[trigger] is_candidate(levels, key, p) ==> at.contains(p)
}

/// Where the kept elements of a list stand.
proof fn lemma_filter_positions(
    s: Seq<SsTableMeta>,
    p: spec_fn(SsTableMeta) -> bool,
) -> (at: Seq<int>)
    ensures
        at.len() == s.filter(p).len(),
        forall|i: int|
            #![trigger at[i]]
            0 <= i < at.len() ==> 0 <= at[i] < s.len() && s[at[i]] == s.filter(p)[i] && p(
                s[at[i]],
            ),
        forall|i: int, j: int| 0 <= i < j < at.len() ==> #[trigger] at[i] < #[trigger] at[j],
        forall|x: int| 0 <= x < s.len() && p(#[trigger] s[x]) ==> at.contains(x),
    decreases s.len(),
{
    reveal(Seq::filter);
    if s.len() == 0 {
        Seq::empty()
    } else {
        let t = s.drop_last();
        let before = lemma_filter_positions(t, p);
        let n = s.len() - 1;
        assert forall|x: int| 0 <= x < n && p(#[trigger] s[x]) implies before.contains(x) by {
            assert(t[x] == s[x]);
        }
        assert forall|i: int|
            #![trigger before[i]]
            0 <= i < before.len() implies 0 <= before[i] < n && s[before[i]] == t.filter(p)[i]
            && p(s[before[i]]) by {
            assert(t[before[i]] == s[before[i]]);
        }
        if p(s.last()) {
            let at = before.push(n);
            assert(at[before.len() as int] == n);
            assert forall|x: int| 0 <= x < s.len() && p(#[trigger] s[x]) implies at.contains(
                x,
            ) by {
                if x < n {
                    let i = choose|i: int| 0 <= i < before.len() && before[i] == x;
                    assert(at[i] == x);
                }
            }
            at
        } else {
            before
        }
    }
}

/// The candidates stand in the order of the levels.
proof fn lemma_candidates(levels: Seq<Seq<SsTableMeta>>, key: Seq<u8>) -> (at: Seq<(int, int)>)
    ensures
        is_probe_order(levels, key, candidates(levels, key), at),
    decreases levels.len(),
{
    if levels.len() == 0 {
        Seq::empty()
    } else {
        let rest = levels.drop_last();
        let n = levels.len() - 1;
        let here = levels[n];
        let p = covering(key);
        let before = lemma_candidates(rest, key);
        let positions = lemma_filter_positions(here, p);
        let last = Seq::new(positions.len(), |i: int| (n, positions[i]));
        let at = before + last;
        let found = candidates(levels, key);
        assert(found == candidates(rest, key) + here.filter(p));
        assert forall|m: SsTableMeta| #[trigger] holds_in_range(m, key) == p(m) by {
            law_byte_order_is_alphabetical(m.min_key@, key);
            law_byte_order_is_alphabetical(key, m.max_key@);
        }
        assert forall|i: int|
            #![trigger at[i]]
            0 <= i < at.len() implies is_candidate(levels, key, at[i]) && levels[at[i].0][at[i].1]
            == found[i] by {
            if i < before.len() {
                assert(at[i] == before[i]);
                assert(is_candidate(rest, key, before[i]));
            } else {
                let j = i - before.len();
                assert(at[i] == last[j]);
                assert(here[positions[j]] == here.filter(p)[j]);
                assert(holds_in_range(here[positions[j]], key));
            }
        }
        assert forall|i: int, j: int| 0 <= i < j < at.len() implies comes_first(
            #[trigger] at[i],
            #[trigger] at[j],
        ) by {
            if j < before.len() {
                assert(comes_first(before[i], before[j]));
            } else if i < before.len() {
                assert(is_candidate(rest, key, before[i]));
                assert(at[j] == last[j - before.len()]);
            } else {
                let (x, y) = (i - before.len(), j - before.len());
                assert(at[i] == last[x] && at[j] == last[y]);
                assert(positions[x] < positions[y]);
            }
        }
        assert forall|q: (int, int)| #[trigger] is_candidate(levels, key, q) implies at.contains(
            q,
        ) by {
            if q.0 < n {
                assert(is_candidate(rest, key, q));
                let i = choose|i: int| 0 <= i < before.len() && before[i] == q;
                assert(at[i] == q);
            } else {
                assert(p(here[q.1]));
                let x = choose|x: int| 0 <= x < positions.len() && positions[x] == q.1;
                assert(last[x] == q);
                assert(at[before.len() + x] == q);
            }
        }
        at
    }
}

/// A key that is not in memory is looked for in the tables whose key range has it, level
/// by level and in each level from the first to the last. Without such a table it is
/// not found.
pub proof fn law_reads_look_into_the_covering_tables<M: Memtable>(
    e: &LsmEngine<M>,
    key: &[u8],
    r: GetStep,
)
    requires
        call_ensures(LsmEngine::<M>::get, (e, key), r),
        !e.memory().dom().contains(key@),
    ensures
        exists|found: Seq<SsTableMeta>, at: Seq<(int, int)>|
            {
                &&& #[trigger] is_probe_order(e.tables()@, key@, found, at)
                &&& found.len() == 0 ==> is_answer(r, None)
                &&& found.len() > 0 ==> r is Probe && r->Probe_0.pending().len() == found.len()
                    && forall|i: int|
                    0 <= i < found.len() ==> #[trigger] r->Probe_0.pending()[i] == (
                        found[i].id,
                        found[i].path@,
                    )
            },
{
    let found = candidates(e.tables()@, key@);
    let at = lemma_candidates(e.tables()@, key@);
    assert(is_probe_order(e.tables()@, key@, found, at));
    if found.len() > 0 {
        let refs = found.map_values(|m: SsTableMeta| table_ref(m));
        assert(r->Probe_0.pending() == refs);
        assert forall|i: int| 0 <= i < found.len() implies #[trigger] r->Probe_0.pending()[i] == (
            found[i].id,
            found[i].path@,
        ) by {
            assert(refs[i] == table_ref(found[i]));
        }
    }
}

/// A read goes from table to table. What a table has ends it, and an empty value ends it
/// with nothing.
pub proof fn law_probes_go_on_to_the_next_table(
    p: Probe,
    reply: Option<Vec<u8>>,
    r: GetStep,
    path: &str,
)
    requires
        p.wf(),
        call_ensures(Probe::resume, (p, reply), r),
        call_ensures(Probe::path, (&p,), path),
    ensures
        p.pending().len() > 0,
        path@ == p.pending()[0].1,
        reply matches Some(v) ==> is_answer(
            r,
            if v@.len() > 0 {
                Some(v@)
            } else {
                None
            },
        ),
        reply is None && p.pending().len() == 1 ==> is_answer(r, None),
        reply is None && p.pending().len() > 1 ==> r is Probe && r->Probe_0.pending()
            == p.pending().drop_first(),
{
}

/// Puts are logged behind what is to be written: a byte 1, the key and the value.
#[verifier::spinoff_prover]
#[verifier::rlimit(40)]
pub proof fn law_engine_puts_are_logged<M: Memtable>(
    e: &mut LsmEngine<M>,
    key: &[u8],
    value: &[u8],
    r: Option<FlushJob>,
    after: &mut LsmEngine<M>,
    bytes: Vec<u8>,
)
    requires
        call_ensures(LsmEngine::<M>::put, (e, key, value), r),
        *old(after) == *final(e),
        call_ensures(LsmEngine::<M>::sync_log, (after,), bytes),
        key@.len() < 0x1_0000_0000,
        value@.len() < 0x1_0000_0000,
    ensures
        ({
            let (s, n) = (bytes@, old(e).log().len() as int);
            &&& s.take(n) == old(e).log()
            &&& s.len() == n + 9 + key@.len() + value@.len()
            &&& s[n] == 1
            &&& stands_at(s, n + 1, key@)
            &&& stands_at(s, n + 5 + key@.len(), value@)
        }),
{
    assert(bytes@ == old(e).log() + put_bytes(key@, value@));
    lemma_record(old(e).log(), 1, key@, value@);
}

/// Deletes are logged behind what is to be written: a byte 2, the key and a length of
/// zero.
#[verifier::spinoff_prover]
#[verifier::rlimit(40)]
pub proof fn law_engine_deletes_are_logged<M: Memtable>(
    e: &mut LsmEngine<M>,
    key: &[u8],
    after: &mut LsmEngine<M>,
    bytes: Vec<u8>,
)
    requires
        call_ensures(LsmEngine::<M>::delete, (e, key), ()),
        *old(after) == *final(e),
        call_ensures(LsmEngine::<M>::sync_log, (after,), bytes),
        key@.len() < 0x1_0000_0000,
    ensures
        ({
            let (s, n) = (bytes@, old(e).log().len() as int);
            &&& s.take(n) == old(e).log()
            &&& s.len() == n + 9 + key@.len()
            &&& s[n] == 2
            &&& stands_at(s, n + 1, key@)
            &&& u32_at(s, n + 5 + key@.len()) == 0
        }),
{
    assert(bytes@ == old(e).log() + delete_bytes(key@));
    lemma_record(old(e).log(), 2, key@, Seq::empty());
}

/// Where the parts of a record stand.
proof fn lemma_record(log: Seq<u8>, kind: u8, key: Seq<u8>, value: Seq<u8>)
    requires
        key.len() < 0x1_0000_0000,
        value.len() < 0x1_0000_0000,
    ensures
        ({
            let s = log + (seq![kind] + framed(key) + framed(value));
            let n = log.len() as int;
            &&& s.take(n) == log
            &&& s.len() == n + 9 + key.len() + value.len()
            &&& s[n] == kind
            &&& stands_at(s, n + 1, key)
            &&& stands_at(s, n + 5 + key.len(), value)
        }),
{
    let s = log + (seq![kind] + framed(key) + framed(value));
    let n = log.len() as int;
    lemma_unframe(key, Seq::empty());
    lemma_unframe(value, Seq::empty());
    let m = n + 1 + framed(key).len() as int;
    assert(s.take(n) =~= log);
    assert(s.subrange(n + 1, m) =~= framed(key));
    assert(s.subrange(m, m + framed(value).len()) =~= framed(value));
    lemma_stands(s, n + 1, key);
    lemma_stands(s, m, value);
}

/// Taking the bytes for the log or dropping them changes nothing else.
pub proof fn law_logging_changes_nothing_else<M: Memtable>(
    synced: &mut LsmEngine<M>,
    truncated: &mut LsmEngine<M>,
    r: Vec<u8>,
)
    requires
        call_ensures(LsmEngine::<M>::sync_log, (synced,), r),
        call_ensures(LsmEngine::<M>::truncate_log, (truncated,), ()),
    ensures
        r@ == old(synced).log(),
        final(synced).log().len() == 0,
        final(synced).memory() == old(synced).memory(),
        final(synced).byte_count() == old(synced).byte_count(),
        final(synced).tables() == old(synced).tables(),
        final(truncated).log().len() == 0,
        final(truncated).memory() == old(truncated).memory(),
        final(truncated).byte_count() == old(truncated).byte_count(),
        final(truncated).tables() == old(truncated).tables(),
{
}

/// The key of a logged operation.
pub open spec fn key_of(e: LogEntry) -> Seq<u8> {
    match e {
        LogEntry::Put(key, _) => key,
        LogEntry::Delete(key) => key,
    }
}

/// Replaying leaves each key with the value of its last operation.
proof fn lemma_replayed(m: Map<Seq<u8>, Seq<u8>>, s: Seq<LogEntry>, key: Seq<u8>, i: int)
    requires
        -1 <= i < s.len(),
        i >= 0 ==> key_of(s[i]) == key,
        forall|j: int| i < j < s.len() ==> key_of(#[trigger] s[j]) != key,
    ensures
        i >= 0 ==> replayed(m, s).dom().contains(key) && replayed(m, s)[key] == match s[i] {
            LogEntry::Put(_, value) => value,
            LogEntry::Delete(_) => Seq::empty(),
        },
        i < 0 ==> replayed(m, s).dom().contains(key) == m.dom().contains(key),
        i < 0 && m.dom().contains(key) ==> replayed(m, s)[key] == m[key],
    decreases s.len(),
{
    if s.len() > 0 && i < s.len() - 1 {
        let t = s.drop_last();
        assert(forall|j: int| 0 <= j < t.len() ==> t[j] == s[j]);
        lemma_replayed(m, t, key, i);
        assert(key_of(s[s.len() - 1]) != key);
    }
}

/// An engine that is opened on a log answers with the last logged operation on each key.
/// What is cut off is what the replay did not take.
pub proof fn law_logs_are_replayed_on_opening<M: Memtable>(
    dir: &str,
    memtable: M,
    tables: Vec<SsTableMeta>,
    log: &[u8],
    config: EngineConfig,
    r: Result<Opened<M>>,
    recovered: Result<Recovered>,
    key: &[u8],
    answer: GetStep,
    i: int,
)
    requires
        call_ensures(LsmEngine::<M>::open, (dir, memtable, tables, log, config), r),
        call_ensures(Wal::replay, (log,), recovered),
        r is Ok && recovered is Ok,
        0 <= i < recovered->Ok_0.records@.len(),
        key_of(recovered->Ok_0.records@[i]@) == key@,
        forall|j: int|
            i < j < recovered->Ok_0.records@.len() ==> key_of(
                (#[trigger] recovered->Ok_0.records@[j])@,
            ) != key@,
        call_ensures(LsmEngine::<M>::get, (&r->Ok_0.engine, key), answer),
    ensures
        match recovered->Ok_0.records@[i] {
            WalRecord::Put { value, .. } => is_answer(
                answer,
                if value@.len() > 0 {
                    Some(value@)
                } else {
                    None
                },
            ),
            WalRecord::Delete { .. } => is_answer(answer, None),
        },
        r->Ok_0.valid_log == recovered->Ok_0.valid_len,
        r->Ok_0.engine.threshold() == config.flush_threshold,
        r->Ok_0.engine.log().len() == 0,
{
    let s = recovered->Ok_0.records@.map_values(|w: WalRecord| w@);
    assert(log_entries(log@) == Ok::<Seq<LogEntry>, u8>(s));
    assert(s[i] == recovered->Ok_0.records@[i]@);
    assert forall|j: int| i < j < s.len() implies key_of(#[trigger] s[j]) != key@ by {
        assert(s[j] == recovered->Ok_0.records@[j]@);
    }
    lemma_replayed(memtable.contents(), s, key@, i);
}

/// Opening fails exactly if the log does not replay or the tables cannot be loaded.
pub proof fn law_bad_stores_are_not_opened<M: Memtable>(
    dir: &str,
    memtable: M,
    tables: Vec<SsTableMeta>,
    log: &[u8],
    config: EngineConfig,
    r: Result<Opened<M>>,
    recovered: Result<Recovered>,
    loaded: Option<(Manifest, Vec<String>)>,
    l: int,
    t: SsTableMeta,
    path: Seq<char>,
)
    requires
        call_ensures(LsmEngine::<M>::open, (dir, memtable, tables, log, config), r),
        call_ensures(Wal::replay, (log,), recovered),
        call_ensures(Manifest::load, (dir, 4usize, tables), loaded),
    ensures
        r is Ok <==> recovered is Ok && loaded is Some,
        recovered matches Err(e) ==> r is Err && r->Err_0 is Corruption && e is Corruption
            && r->Err_0->Corruption_0@ == e->Corruption_0@,
        recovered is Ok && loaded is None ==> r is Err && r->Err_0 is Corruption
            && r->Err_0->Corruption_0@ == "conflicting SSTables"@,
        loaded matches Some((m, leftovers)) ==> (r is Ok ==> {
            let tables = r->Ok_0.engine.tables();
            &&& tables@.len() == m@.len()
            &&& tables.issued() == m.issued()
            &&& tables.directory() == m.directory()
            &&& 0 <= l < m@.len() ==> (tables@[l].contains(t) <==> m@[l].contains(t))
            &&& (exists|i: int| 0 <= i < leftovers@.len() && (#[trigger] leftovers@[i])@ == path)
                <==> exists|i: int|
                0 <= i < r->Ok_0.leftovers@.len() && (#[trigger] r->Ok_0.leftovers@[i])@ == path
        }),
{
    if let Some((m, leftovers)) = loaded {
        if let Ok(opened) = r {
            lemma_texts(leftovers@, path);
            lemma_texts(opened.leftovers@, path);
            let (a, b) = (
                leftovers@.map_values(|s: String| s@),
                opened.leftovers@.map_values(|s: String| s@),
            );
            assert(a.contains(path) <==> b.contains(path));
        }
    }
}

/// A text is among the texts.
proof fn lemma_texts(v: Seq<String>, path: Seq<char>)
    ensures
        v.map_values(|s: String| s@).contains(path) <==> exists|i: int|
            0 <= i < v.len() && (#[trigger] v[i])@ == path,
{
    let texts = v.map_values(|s: String| s@);
    if texts.contains(path) {
        let i = choose|i: int| 0 <= i < texts.len() && texts[i] == path;
        assert(v[i]@ == path);
    }
    if exists|i: int| 0 <= i < v.len() && (#[trigger] v[i])@ == path {
        let i = choose|i: int| 0 <= i < v.len() && (#[trigger] v[i])@ == path;
        assert(texts[i] == path);
    }
}

/// The bytes of logged puts with new and different keys count when a store is opened.
pub proof fn law_replayed_bytes_are_counted<M: Memtable>(
    dir: &str,
    memtable: M,
    tables: Vec<SsTableMeta>,
    log: &[u8],
    config: EngineConfig,
    r: Result<Opened<M>>,
    recovered: Result<Recovered>,
    s: Seq<(Seq<u8>, Seq<u8>)>,
)
    requires
        call_ensures(LsmEngine::<M>::open, (dir, memtable, tables, log, config), r),
        call_ensures(Wal::replay, (log,), recovered),
        r is Ok && recovered is Ok,
        recovered->Ok_0.records@.len() == s.len(),
        forall|i: int|
            0 <= i < s.len() ==> (#[trigger] recovered->Ok_0.records@[i])@ == LogEntry::Put(
                s[i].0,
                s[i].1,
            ),
        forall|i: int|
            0 <= i < s.len() ==> !memtable.contents().dom().contains((#[trigger] s[i]).0),
        forall|i: int, j: int| 0 <= i < j < s.len() ==> (#[trigger] s[i]).0 != (#[trigger] s[j]).0,
        memtable.byte_count() + bytes_of_all(s) <= usize::MAX,
    ensures
        r->Ok_0.engine.byte_count() == memtable.byte_count() + bytes_of_all(s),
{
    let all = recovered->Ok_0.records@.map_values(|w: WalRecord| w@);
    assert(log_entries(log@) == Ok::<Seq<LogEntry>, u8>(all));
    assert(all =~= puts_of(s)) by {
        assert forall|i: int| 0 <= i < s.len() implies #[trigger] all[i] == puts_of(s)[i] by {
            assert(all[i] == recovered->Ok_0.records@[i]@);
        }
    }
    law_bytes_add_up(memtable.byte_count(), memtable.contents(), s, M::counts_overwrites());
}

/// A line is split at its first tab. Without a tab it is no pair.
pub proof fn law_lines_are_split_at_the_first_tab(line: &[u8], r: Option<(Vec<u8>, Vec<u8>)>)
    requires
        call_ensures(split_record, (line,), r),
    ensures
        r is None <==> !line@.contains(9u8),
        r matches Some((key, value)) ==> {
            &&& line@ == key@ + seq![9u8] + value@
            &&& !key@.contains(9u8)
        },
{
    if let Some((key, value)) = r {
        let i = choose|i: int| #[trigger]
            is_first_tab(line@, i) && key@ == line@.take(i) && value@ == line@.skip(i + 1);
        assert(line@[i] == 9u8);
        assert(line@ =~= key@ + seq![9u8] + value@);
        if key@.contains(9u8) {
            let j = choose|j: int| 0 <= j < key@.len() && key@[j] == 9u8;
            assert(line@[j] == 9u8);
        }
    }
}

/// Keys and values fit the format of tables.
pub open spec fn fits_a_table(m: Map<Seq<u8>, Seq<u8>>) -> bool {
    forall|k: Seq<u8>| #[trigger]
        m.dom().contains(k) ==> k.len() < 0x1_0000_0000 && m[k].len() < 0x1_0000_0000
}

/// A flush writes a table exactly if there is something in memory, and leaves nothing
/// there. A lookup in its file finds what was in memory, and nothing else.
pub proof fn law_flushed_tables_hold_the_memory<'a, M: Memtable>(
    e: &mut LsmEngine<M>,
    r: Option<FlushJob>,
    file: &'a [u8],
    reader: core::result::Result<SsTableReader<'a>, FormatError>,
    key: &[u8],
    found: core::result::Result<Option<Vec<u8>>, FormatError>,
)
    requires
        call_ensures(LsmEngine::<M>::flush, (e,), r),
        fits_a_table(old(e).memory()),
        r matches Some(job) ==> file@ == job.file@ && job.file@.len() < 0x1_0000_0000_0000_0000
            && call_ensures(SsTableReader::open, (file,), reader) && (reader matches Ok(t)
            ==> call_ensures(SsTableReader::get, (&t, key), found)),
        old(e).memory().len() < 0x1_0000_0000_0000_0000,
    ensures
        r is Some <==> old(e).memory() != Map::<Seq<u8>, Seq<u8>>::empty(),
        final(e).memory() == Map::<Seq<u8>, Seq<u8>>::empty(),
        final(e).byte_count() == 0,
        final(e).tables()@ == old(e).tables()@,
        r matches Some(job) ==> {
            &&& job.meta.level == 0
            &&& job.meta.id == old(e).tables().next_id()
            &&& job.meta.entry_count == old(e).memory().len()
            &&& old(e).memory().dom().contains(job.meta.min_key@)
            &&& old(e).memory().dom().contains(job.meta.max_key@)
            &&& old(e).memory().dom().contains(key@) ==> is_alphabetical(
                job.meta.min_key@,
                key@,
            ) && is_alphabetical(key@, job.meta.max_key@)
            &&& reader is Ok
            &&& found is Ok
            &&& found->Ok_0 is Some <==> old(e).memory().dom().contains(key@)
            &&& found->Ok_0 is Some ==> found->Ok_0->0@ == old(e).memory()[key@]
        },
{
    if let Some(job) = r {
        let m = old(e).memory();
        let dir = old(e).tables().directory();
        let id = old(e).tables().next_id();
        let s = choose|s: Seq<(Seq<u8>, Seq<u8>)>| #[trigger] lists(s, m) && job.writes(dir, id, s);
        lemma_flushed(job, dir, id, s, m, key@);
        law_table_roundtrip(s, 4096);
        assert(reader is Ok);
        law_table_lookup(reader->Ok_0, s, 4096, key@);
        let answer = if pair_map(s).dom().contains(key@) {
            Some(pair_map(s)[key@])
        } else {
            None
        };
        assert(found_bytes(found) == Ok::<Option<Seq<u8>>, FormatError>(answer));
    }
}

/// A put that fills the memory writes a table of all that was in memory and of the pair.
/// A lookup in its file finds that, and nothing else.
#[verifier::spinoff_prover]
#[verifier::rlimit(40)]
pub proof fn law_full_memory_is_written<'a, M: Memtable>(
    e: &mut LsmEngine<M>,
    put_key: &[u8],
    value: &[u8],
    r: Option<FlushJob>,
    file: &'a [u8],
    reader: core::result::Result<SsTableReader<'a>, FormatError>,
    key: &[u8],
    found: core::result::Result<Option<Vec<u8>>, FormatError>,
)
    requires
        call_ensures(LsmEngine::<M>::put, (e, put_key, value), r),
        r is Some,
        fits_a_table(old(e).memory().insert(put_key@, value@)),
        old(e).memory().insert(put_key@, value@).len() < 0x1_0000_0000_0000_0000,
        r matches Some(job) ==> file@ == job.file@ && job.file@.len() < 0x1_0000_0000_0000_0000,
        call_ensures(SsTableReader::open, (file,), reader),
        reader matches Ok(t) ==> call_ensures(SsTableReader::get, (&t, key), found),
    ensures
        ({
            let (job, m) = (r->0, old(e).memory().insert(put_key@, value@));
            &&& job.meta.level == 0
            &&& job.meta.id == old(e).tables().next_id()
            &&& job.meta.entry_count == m.len()
            &&& m.dom().contains(key@) ==> is_alphabetical(job.meta.min_key@, key@)
                && is_alphabetical(key@, job.meta.max_key@)
            &&& reader is Ok
            &&& found is Ok
            &&& found->Ok_0 is Some <==> m.dom().contains(key@)
            &&& found->Ok_0 is Some ==> found->Ok_0->0@ == m[key@]
        }),
{
    let job = r->0;
    let m = old(e).memory().insert(put_key@, value@);
    assert(m.dom().contains(put_key@));
    let dir = old(e).tables().directory();
    let id = old(e).tables().next_id();
    let s = choose|s: Seq<(Seq<u8>, Seq<u8>)>| #[trigger] lists(s, m) && job.writes(dir, id, s);
    lemma_flushed(job, dir, id, s, m, key@);
    law_table_roundtrip(s, 4096);
    assert(reader is Ok);
    law_table_lookup(reader->Ok_0, s, 4096, key@);
    let answer = if pair_map(s).dom().contains(key@) {
        Some(pair_map(s)[key@])
    } else {
        None
    };
    assert(found_bytes(found) == Ok::<Option<Seq<u8>>, FormatError>(answer));
}

/// A table that lists a map describes it.
proof fn lemma_flushed(
    job: FlushJob,
    dir: Seq<char>,
    id: u64,
    s: Seq<(Seq<u8>, Seq<u8>)>,
    m: Map<Seq<u8>, Seq<u8>>,
    key: Seq<u8>,
)
    requires
        lists(s, m),
        job.writes(dir, id, s),
        s.len() > 0 || m != Map::<Seq<u8>, Seq<u8>>::empty(),
        fits_a_table(m),
        job.file@.len() < 0x1_0000_0000_0000_0000,
        m.len() < 0x1_0000_0000_0000_0000,
    ensures
        is_storable(s, 4096),
        s.len() > 0,
        job.meta.level == 0 && job.meta.id == id,
        job.meta.entry_count == m.len(),
        m.dom().contains(job.meta.min_key@),
        m.dom().contains(job.meta.max_key@),
        m.dom().contains(key) ==> is_alphabetical(job.meta.min_key@, key) && is_alphabetical(
            key,
            job.meta.max_key@,
        ),
{
    lemma_pair_map(s);
    if s.len() == 0 {
        assert(m =~= Map::<Seq<u8>, Seq<u8>>::empty());
    }
    assert(m.dom().contains(s[0].0));
    let n = s.len() - 1;
    assert(m.dom().contains(s[n].0));
    assert forall|i: int| 0 <= i < s.len() implies (#[trigger] s[i]).0.len() < 0x1_0000_0000
        && s[i].1.len() < 0x1_0000_0000 by {
        assert(m.dom().contains(s[i].0));
        assert(m[s[i].0] == s[i].1);
    }
    if m.dom().contains(key) {
        assert(has_key(s, key));
        let i = choose|i: int| 0 <= i < s.len() && (#[trigger] s[i]).0 == key;
        lemma_lex(s[i].0, s[i].0, s[i].0);
        if i > 0 {
            assert(lex_lt(s[0].0, s[i].0));
        }
        if i < n {
            assert(lex_lt(s[i].0, s[n].0));
        }
        law_byte_order_is_alphabetical(s[0].0, key);
        law_byte_order_is_alphabetical(key, s[n].0);
    }
}

/// A table that is flushed is named after its level and its number, in the directory of
/// the store.
pub proof fn law_flushed_tables_are_named<M: Memtable>(
    e: &mut LsmEngine<M>,
    r: Option<FlushJob>,
    tables: &Manifest,
    dir: &str,
    l: String,
    i: String,
    name: &str,
    path: String,
)
    requires
        call_ensures(LsmEngine::<M>::flush, (e,), r),
        call_ensures(LsmEngine::<M>::manifest, (&*old(e),), tables),
        call_ensures(Manifest::dir, (tables,), dir),
        call_ensures(decimal, (0u64,), l),
        r matches Some(job) ==> call_ensures(padded_decimal, (job.meta.id, 6usize), i),
        is_table_name(name@, l@, i@),
        call_ensures(join_path, (dir, name), path),
    ensures
        r matches Some(job) ==> job.meta.path@ == path@,
{
    if let Some(job) = r {
        super::levels::lemma_name(0, job.meta.id, l, i);
        assert(name@ == table_name(0, job.meta.id as nat));
    }
}

/// A table that is registered comes first in its level, and what is in memory stays.
pub proof fn law_written_tables_are_registered<M: Memtable>(
    e: &mut LsmEngine<M>,
    meta: SsTableMeta,
    level: usize,
    old_tables: &Manifest,
    new_tables: &Manifest,
    before: &[SsTableMeta],
    after: &[SsTableMeta],
)
    requires
        meta.level == 0,
        call_ensures(LsmEngine::<M>::commit_table, (e, meta), ()),
        call_ensures(LsmEngine::<M>::manifest, (&*old(e),), old_tables),
        call_ensures(LsmEngine::<M>::manifest, (&*final(e),), new_tables),
        call_ensures(Manifest::level, (old_tables, level), before),
        call_ensures(Manifest::level, (new_tables, level), after),
    ensures
        level == 0 ==> after@ == seq![meta] + before@,
        level > 0 ==> after@ == before@,
        final(e).memory() == old(e).memory(),
        final(e).byte_count() == old(e).byte_count(),
        final(e).log() == old(e).log(),
{
    let l = level as int;
    if l < final(e).tables()@.len() {
        assert(final(e).tables()@[l] == if l == meta.level {
            seq![meta] + old(e).tables().tables_at(l)
        } else {
            old(e).tables().tables_at(l)
        });
    }
}

/// A table can be registered if it is of the first level, has a proper key range, and its
/// number was given out after those of all tables.
pub proof fn law_newest_tables_can_be_registered<M: Memtable>(
    e: &LsmEngine<M>,
    meta: &SsTableMeta,
    r: bool,
    tables: &Manifest,
    newest: bool,
)
    requires
        e.wf(),
        e.tables().issued() <= u64::MAX,
        call_ensures(LsmEngine::<M>::can_commit, (e, meta), r),
        call_ensures(LsmEngine::<M>::manifest, (e,), tables),
        call_ensures(Manifest::is_newest, (tables, meta.id), newest),
    ensures
        r <==> meta.level == 0 && newest && is_alphabetical(meta.min_key@, meta.max_key@),
{
    e.lemma_ranked();
    law_byte_order_is_alphabetical(meta.min_key@, meta.max_key@);
}

/// The entries in memory are counted, and the flush threshold is 4 MiB by default.
pub proof fn law_memory_is_counted<M: Memtable>(e: &LsmEngine<M>, r: usize, config: EngineConfig)
    requires
        call_ensures(LsmEngine::<M>::memtable_len, (e,), r),
        call_ensures(<EngineConfig as Default>::default, (), config),
    ensures
        r == e.memory().len(),
        config.flush_threshold == 4 * 1024 * 1024,
{
}

/// Sorted pairs are ingested as one table, without touching the memory or the log. Pairs
/// that are not in order are refused, and for no pairs there is no table.
pub proof fn law_sorted_pairs_are_ingested<M: Memtable>(
    e: &mut LsmEngine<M>,
    entries: &Vec<(Vec<u8>, Vec<u8>)>,
    r: Result<Option<FlushJob>>,
)
    requires
        call_ensures(LsmEngine::<M>::ingest_sorted, (e, entries), r),
    ensures
        is_same(*old(e), *final(e)),
        r is Ok <==> is_in_order(entries@),
        r matches Err(x) ==> x is Corruption && x->Corruption_0@
            == "ingest_sorted: keys not in ascending order"@,
        r matches Ok(job) ==> (job is Some <==> entries@.len() > 0),
        r matches Ok(Some(job)) ==> {
            &&& job.meta.level == 0
            &&& job.meta.id == old(e).tables().next_id()
            &&& entries@.len() <= u64::MAX ==> job.meta.entry_count == entries@.len()
            &&& job.meta.min_key@ == entries@[0].0@
            &&& job.meta.max_key@ == entries@[entries@.len() - 1].0@
            &&& job.file@ == table_bytes(pairs(entries@), 4096)
        },
{
    let s = pairs(entries@);
    assert(s.len() == entries@.len());
    assert(key_sorted(s) == is_in_order(entries@)) by {
        if key_sorted(s) {
            assert forall|i: int, j: int| 0 <= i < j < entries@.len() implies is_alphabetical(
                #[trigger] entries@[i].0@,
                #[trigger] entries@[j].0@,
            ) && entries@[i].0@ != entries@[j].0@ by {
                assert(lex_lt(s[i].0, s[j].0));
                law_byte_order_is_alphabetical(s[i].0, s[j].0);
            }
        }
        if is_in_order(entries@) {
            assert forall|i: int, j: int| 0 <= i < j < s.len() implies lex_lt(
                #[trigger] s[i].0,
                #[trigger] s[j].0,
            ) by {
                assert(is_alphabetical(entries@[i].0@, entries@[j].0@));
                law_byte_order_is_alphabetical(s[i].0, s[j].0);
            }
        }
    }
    if entries@.len() == 0 {
        assert(key_sorted(s));
    }
}

/// Pairs are ingested one by one as long as each key comes after the one before.
pub proof fn law_ingestion_goes_pair_by_pair(
    g: &mut SortedIngest,
    key: &[u8],
    value: &[u8],
    r: Result<()>,
    taken: &mut SortedIngest,
    out: Vec<u8>,
)
    requires
        call_ensures(SortedIngest::add, (g, key, value), r),
        call_ensures(SortedIngest::take_output, (taken,), out),
    ensures
        r is Ok <==> old(g).entries().len() == 0 || (is_alphabetical(
            old(g).entries()[old(g).entries().len() - 1].0,
            key@,
        ) && old(g).entries()[old(g).entries().len() - 1].0 != key@),
        final(g).entries() == if r is Ok {
            old(g).entries().push((key@, value@))
        } else {
            old(g).entries()
        },
        final(taken).entries() == old(taken).entries(),
        final(taken).taken() == old(taken).taken() + out@,
{
    if old(g).entries().len() > 0 {
        law_byte_order_is_alphabetical(old(g).entries().last().0, key@);
    }
}

/// A finished ingestion is a table of its pairs, if there are any.
pub proof fn law_ingested_pairs_make_a_table<M: Memtable>(
    e: &mut LsmEngine<M>,
    fresh: SortedIngest,
    g: SortedIngest,
    r: Option<FlushJob>,
    at: &str,
)
    requires
        call_ensures(LsmEngine::<M>::start_ingest, (e,), fresh),
        call_ensures(SortedIngest::finish, (g,), r),
        call_ensures(SortedIngest::table_path, (&g,), at),
        g.wf(),
    ensures
        is_same(*old(e), *final(e)),
        fresh.id() == old(e).tables().next_id(),
        fresh.entries().len() == 0,
        fresh.taken().len() == 0,
        r is Some <==> g.entries().len() > 0,
        r matches Some(job) ==> {
            &&& job.meta.id == g.id()
            &&& job.meta.level == 0
            &&& job.meta.path@ == at@
            &&& g.entries().len() <= u64::MAX ==> job.meta.entry_count == g.entries().len()
            &&& job.meta.min_key@ == g.entries()[0].0
            &&& job.meta.max_key@ == g.entries()[g.entries().len() - 1].0
            &&& g.taken() + job.file@ == table_bytes(g.entries(), 4096)
        },
{
}

/// Starting a compaction changes nothing that is read. It is started exactly if the level
/// has tables.
pub proof fn law_started_compactions_change_nothing<M: Memtable>(
    e: &mut LsmEngine<M>,
    level: usize,
    indexes: Vec<Vec<crate::lsm::sstable::reader::IndexEntry>>,
    r: Option<Compaction>,
    tables: &Manifest,
    here: &[SsTableMeta],
    depth: usize,
)
    requires
        call_ensures(LsmEngine::<M>::start_compaction, (e, level, indexes), r),
        call_ensures(LsmEngine::<M>::manifest, (&*old(e),), tables),
        call_ensures(Manifest::level, (tables, level), here),
        call_ensures(Manifest::depth, (tables,), depth),
    ensures
        is_same(*old(e), *final(e)),
        r is Some <==> here@.len() > 0,
        r matches Some(c) ==> {
            &&& c.level() == level
            &&& c.id() == tables.next_id()
            &&& c.drops_tombstones() <==> level + 2 >= depth
            &&& c.entries().len() == 0
        },
{
}

/// Finishing a compaction replaces the merged tables by the new one. What is in memory
/// stays.
pub proof fn law_finished_compactions_replace_tables<M: Memtable>(
    e: &mut LsmEngine<M>,
    change: TableChange,
    level: usize,
    old_tables: &Manifest,
    new_tables: &Manifest,
    before: &[SsTableMeta],
    after: &[SsTableMeta],
    t: SsTableMeta,
)
    requires
        call_ensures(LsmEngine::<M>::finish_compaction, (e, change), ()),
        call_ensures(LsmEngine::<M>::manifest, (&*old(e),), old_tables),
        call_ensures(LsmEngine::<M>::manifest, (&*final(e),), new_tables),
        call_ensures(Manifest::level, (old_tables, level), before),
        call_ensures(Manifest::level, (new_tables, level), after),
    ensures
        is_replaced_at(change.task(), level as int, before@, after@, t),
        final(e).memory() == old(e).memory(),
        final(e).byte_count() == old(e).byte_count(),
        final(e).log() == old(e).log(),
{
    lemma_finished(change.task(), old(e).tables()@, final(e).tables()@, level as int, t);
}

} // verus!
