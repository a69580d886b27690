//! What a store holds, and what the engine's operations promise of it.
//!
//! A store is the contents of the memtable and of the tables, which are given
//! by their IDs. These laws tie the steps of the engine together.

use vstd::prelude::*;

use super::compaction::{
    decoded, is_added, is_sound, lemma_newest_from, missed_by, reached_by, Compaction,
};
use super::engine::{
    applied, candidates, covering, covers, describes, replayed, table_ref, value_view, visible,
    FlushJob, GetStep, LsmEngine, Probe, NUM_LEVELS,
};
use super::manifest::{
    is_apart, is_disjoint, is_leftover, is_loaded, is_new_id, is_orderly, is_ranked, is_recoverable, is_split, issued_for,
    lemma_bounds, lemma_filtered, lemma_loaded, lemma_order_push, newest_first, tables_of,
};
use super::memtable::Memtable;
use super::merge::{law_merge_keeps_the_newest, newest};
use super::pairs::{
    has_key, key_sorted, lemma_lex, lemma_pair_map, lex_lt, lists, pair_map, value_for,
};
use super::sstable::writer::{first_key_of, last_key_of};
use super::sstable::SsTableMeta;
use super::wal::{
    entry_bytes, is_storable, law_log_roundtrip, law_records_follow_the_valid_prefix, log_bytes,
    log_entries, valid_len, LogEntry,
};
use crate::key::lex_le;

verus! {

/// The first value, or else the second.
pub open spec fn or_else(a: Option<Seq<u8>>, b: Option<Seq<u8>>) -> Option<Seq<u8>> {
    if a is Some {
        a
    } else {
        b
    }
}

/// The value of a key in a table. Keys outside the key range are not looked
/// for.
pub open spec fn table_value(
    meta: SsTableMeta,
    disk: Map<u64, Map<Seq<u8>, Seq<u8>>>,
    key: Seq<u8>,
) -> Option<Seq<u8>> {
    if covers(meta, key) && disk[meta.id].dom().contains(key) {
        Some(disk[meta.id][key])
    } else {
        None
    }
}

/// The value of a key in the first table of a list that has it.
pub open spec fn level_value(
    tables: Seq<SsTableMeta>,
    disk: Map<u64, Map<Seq<u8>, Seq<u8>>>,
    key: Seq<u8>,
) -> Option<Seq<u8>>
    decreases tables.len(),
{
    if tables.len() == 0 {
        None
    } else {
        or_else(
            level_value(tables.drop_last(), disk, key),
            table_value(tables.last(), disk, key),
        )
    }
}

/// The value of a key in the first level from `l` on that has it.
pub open spec fn value_from(
    levels: Seq<Seq<SsTableMeta>>,
    disk: Map<u64, Map<Seq<u8>, Seq<u8>>>,
    key: Seq<u8>,
    l: nat,
) -> Option<Seq<u8>>
    decreases levels.len() - l,
{
    if l < levels.len() {
        or_else(level_value(levels[l as int], disk, key), value_from(levels, disk, key, l + 1))
    } else {
        None
    }
}

/// The newest value of a key: that in memory, or else that in the tables.
pub open spec fn store_value(
    memory: Map<Seq<u8>, Seq<u8>>,
    levels: Seq<Seq<SsTableMeta>>,
    disk: Map<u64, Map<Seq<u8>, Seq<u8>>>,
    key: Seq<u8>,
) -> Option<Seq<u8>> {
    if memory.dom().contains(key) {
        Some(memory[key])
    } else {
        value_from(levels, disk, key, 0)
    }
}

/// The value that a probe of tables, one after the other, ends with.
pub open spec fn probe_value(
    tables: Seq<SsTableMeta>,
    disk: Map<u64, Map<Seq<u8>, Seq<u8>>>,
    key: Seq<u8>,
) -> Option<Seq<u8>>
    decreases tables.len(),
{
    if tables.len() == 0 {
        None
    } else if disk[tables[0].id].dom().contains(key) {
        Some(disk[tables[0].id][key])
    } else {
        probe_value(tables.drop_first(), disk, key)
    }
}

/// Probing two lists one after the other.
proof fn lemma_probe_add(
    a: Seq<SsTableMeta>,
    b: Seq<SsTableMeta>,
    disk: Map<u64, Map<Seq<u8>, Seq<u8>>>,
    key: Seq<u8>,
)
    ensures
        probe_value(a + b, disk, key) == or_else(
            probe_value(a, disk, key),
            probe_value(b, disk, key),
        ),
    decreases a.len(),
{
    if a.len() == 0 {
        assert(a + b =~= b);
    } else {
        assert((a + b).drop_first() =~= a.drop_first() + b);
        lemma_probe_add(a.drop_first(), b, disk, key);
    }
}

/// Probing the tables of a level that cover the key.
proof fn lemma_probe_level(
    tables: Seq<SsTableMeta>,
    disk: Map<u64, Map<Seq<u8>, Seq<u8>>>,
    key: Seq<u8>,
)
    ensures
        probe_value(tables.filter(covering(key)), disk, key) == level_value(tables, disk, key),
    decreases tables.len(),
{
    reveal(Seq::filter);
    if tables.len() > 0 {
        let (rest, m) = (tables.drop_last(), tables.last());
        lemma_probe_level(rest, disk, key);
        if covers(m, key) {
            let f = rest.filter(covering(key));
            assert(tables.filter(covering(key)) == f.push(m));
            assert(f.push(m) =~= f + seq![m]);
            lemma_probe_add(f, seq![m], disk, key);
            assert(seq![m].drop_first() =~= Seq::empty());
            assert(probe_value(seq![m].drop_first(), disk, key) is None);
        } else {
            assert(tables.filter(covering(key)) == rest.filter(covering(key)));
        }
    }
}

/// The last level comes last.
proof fn lemma_last_level(
    levels: Seq<Seq<SsTableMeta>>,
    disk: Map<u64, Map<Seq<u8>, Seq<u8>>>,
    key: Seq<u8>,
    l: nat,
)
    requires
        l < levels.len(),
    ensures
        value_from(levels, disk, key, l) == or_else(
            value_from(levels.drop_last(), disk, key, l),
            level_value(levels.last(), disk, key),
        ),
    decreases levels.len() - l,
{
    if l + 1 < levels.len() {
        lemma_last_level(levels, disk, key, l + 1);
        assert(levels.drop_last()[l as int] == levels[l as int]);
    } else {
        assert(value_from(levels, disk, key, l + 1) is None);
    }
}

/// A read that is not answered by the memtable ends with the newest value in
/// the tables: its probes find the value of the first level and, within the
/// level, of the newest table that has the key.
pub proof fn law_reads_find_the_newest_value(
    levels: Seq<Seq<SsTableMeta>>,
    disk: Map<u64, Map<Seq<u8>, Seq<u8>>>,
    key: Seq<u8>,
)
    ensures
        probe_value(candidates(levels, key), disk, key) == value_from(levels, disk, key, 0),
    decreases levels.len(),
{
    if levels.len() > 0 {
        law_reads_find_the_newest_value(levels.drop_last(), disk, key);
        lemma_probe_level(levels.last(), disk, key);
        lemma_probe_add(
            candidates(levels.drop_last(), key),
            levels.last().filter(covering(key)),
            disk,
            key,
        );
        lemma_last_level(levels, disk, key, 0);
    }
}

/// A value that is put is read back, and other keys are not affected. An empty
/// value stands for a deleted key, so it reads as no value.
pub proof fn law_put_is_read_back(
    memory: Map<Seq<u8>, Seq<u8>>,
    levels: Seq<Seq<SsTableMeta>>,
    disk: Map<u64, Map<Seq<u8>, Seq<u8>>>,
    key: Seq<u8>,
    value: Seq<u8>,
    other: Seq<u8>,
)
    ensures
        value.len() > 0 ==> visible(store_value(memory.insert(key, value), levels, disk, key))
            == Some(value),
        other != key ==> store_value(memory.insert(key, value), levels, disk, other) == store_value(
            memory,
            levels,
            disk,
            other,
        ),
{
}

/// A key that is deleted reads as no value, whatever the tables hold, and other
/// keys are not affected.
pub proof fn law_deleted_key_is_gone(
    memory: Map<Seq<u8>, Seq<u8>>,
    levels: Seq<Seq<SsTableMeta>>,
    disk: Map<u64, Map<Seq<u8>, Seq<u8>>>,
    key: Seq<u8>,
    other: Seq<u8>,
)
    ensures
        visible(store_value(memory.insert(key, Seq::empty()), levels, disk, key)) is None,
        other != key ==> store_value(memory.insert(key, Seq::empty()), levels, disk, other)
            == store_value(memory, levels, disk, other),
{
}

/// The first of two lists comes first.
proof fn lemma_level_add(
    a: Seq<SsTableMeta>,
    b: Seq<SsTableMeta>,
    disk: Map<u64, Map<Seq<u8>, Seq<u8>>>,
    key: Seq<u8>,
)
    ensures
        level_value(a + b, disk, key) == or_else(
            level_value(a, disk, key),
            level_value(b, disk, key),
        ),
    decreases b.len(),
{
    if b.len() == 0 {
        assert(a + b =~= a);
    } else {
        assert((a + b).drop_last() =~= a + b.drop_last());
        lemma_level_add(a, b.drop_last(), disk, key);
    }
}

/// A table in front of a list comes first.
proof fn lemma_level_front(
    m: SsTableMeta,
    tables: Seq<SsTableMeta>,
    disk: Map<u64, Map<Seq<u8>, Seq<u8>>>,
    key: Seq<u8>,
)
    ensures
        level_value(seq![m] + tables, disk, key) == or_else(
            table_value(m, disk, key),
            level_value(tables, disk, key),
        ),
{
    lemma_level_add(seq![m], tables, disk, key);
    assert(seq![m].drop_last() =~= Seq::empty());
    assert(level_value(seq![m].drop_last(), disk, key) is None);
}

/// A table with a new ID does not affect other tables.
proof fn lemma_new_table(
    tables: Seq<SsTableMeta>,
    disk: Map<u64, Map<Seq<u8>, Seq<u8>>>,
    id: u64,
    m: Map<Seq<u8>, Seq<u8>>,
    key: Seq<u8>,
)
    requires
        forall|i: int| 0 <= i < tables.len() ==> (#[trigger] tables[i]).id != id,
    ensures
        level_value(tables, disk.insert(id, m), key) == level_value(tables, disk, key),
    decreases tables.len(),
{
    if tables.len() > 0 {
        assert(tables[tables.len() - 1].id != id);
        assert forall|i: int| 0 <= i < tables.drop_last().len() implies (
        #[trigger] tables.drop_last()[i]).id != id by {
            assert(tables[i].id != id);
        }
        lemma_new_table(tables.drop_last(), disk, id, m, key);
    }
}

/// Levels from `l` on are not affected by a table with a new ID.
proof fn lemma_new_table_from(
    levels: Seq<Seq<SsTableMeta>>,
    disk: Map<u64, Map<Seq<u8>, Seq<u8>>>,
    id: u64,
    m: Map<Seq<u8>, Seq<u8>>,
    key: Seq<u8>,
    l: nat,
)
    requires
        is_new_id(levels, id),
    ensures
        value_from(levels, disk.insert(id, m), key, l) == value_from(levels, disk, key, l),
    decreases levels.len() - l,
{
    if l < levels.len() {
        let here = levels[l as int];
        assert forall|i: int| 0 <= i < here.len() implies (#[trigger] here[i]).id != id by {
            assert(levels[l as int][i].id != id);
        }
        lemma_new_table(here, disk, id, m, key);
        lemma_new_table_from(levels, disk, id, m, key, l + 1);
    }
}

/// The key range of sorted entries covers their keys.
proof fn lemma_covers(meta: SsTableMeta, s: Seq<(Seq<u8>, Seq<u8>)>, key: Seq<u8>)
    requires
        key_sorted(s),
        meta.min_key@ == first_key_of(s),
        meta.max_key@ == last_key_of(s),
        has_key(s, key),
    ensures
        covers(meta, key),
{
    let i = choose|i: int| 0 <= i < s.len() && (#[trigger] s[i]).0 == key;
    lemma_lex(key, key, key);
    if i > 0 {
        assert(lex_lt(s[0].0, s[i].0));
    }
    let n = s.len() - 1;
    if i < n {
        assert(lex_lt(s[i].0, s[n].0));
    }
}

/// Levels that agree from `l` on hold the same values there.
proof fn lemma_same_levels(
    a: Seq<Seq<SsTableMeta>>,
    b: Seq<Seq<SsTableMeta>>,
    disk: Map<u64, Map<Seq<u8>, Seq<u8>>>,
    key: Seq<u8>,
    l: nat,
)
    requires
        forall|j: int| l <= j ==> #[trigger] tables_of(a, j) == tables_of(b, j),
    ensures
        value_from(a, disk, key, l) == value_from(b, disk, key, l),
    decreases (if a.len() > b.len() {
            a.len()
        } else {
            b.len()
        }) - l,
{
    if l < a.len() || l < b.len() {
        lemma_same_levels(a, b, disk, key, l + 1);
        assert(tables_of(a, l as int) == tables_of(b, l as int));
        if l >= a.len() {
            assert(tables_of(a, l as int).len() == 0);
            assert(value_from(a, disk, key, l + 1) is None);
        }
        if l >= b.len() {
            assert(tables_of(b, l as int).len() == 0);
            assert(value_from(b, disk, key, l + 1) is None);
        }
    }
}

/// A table that is added to level `l` comes first there.
proof fn lemma_added(
    levels: Seq<Seq<SsTableMeta>>,
    after: Seq<Seq<SsTableMeta>>,
    meta: SsTableMeta,
    disk: Map<u64, Map<Seq<u8>, Seq<u8>>>,
    m: Map<Seq<u8>, Seq<u8>>,
    key: Seq<u8>,
)
    requires
        is_added(levels, after, meta),
        is_new_id(levels, meta.id),
    ensures
        value_from(after, disk.insert(meta.id, m), key, meta.level as nat) == or_else(
            table_value(meta, disk.insert(meta.id, m), key),
            value_from(levels, disk, key, meta.level as nat),
        ),
        forall|j: int|
            0 <= j && j != meta.level ==> #[trigger] tables_of(after, j) == tables_of(levels, j),
{
    let l = meta.level as nat;
    let disk2 = disk.insert(meta.id, m);
    assert forall|j: int| 0 <= j && j != l implies #[trigger] tables_of(after, j) == tables_of(
        levels,
        j,
    ) by {
        if j < after.len() {
            assert(after[j] == tables_of(levels, j));
        }
    }
    assert(after[l as int] == seq![meta] + tables_of(levels, l as int));
    lemma_level_front(meta, tables_of(levels, l as int), disk2, key);
    lemma_same_levels(after, levels, disk2, key, l + 1);
    lemma_new_table_from(levels, disk, meta.id, m, key, l);
    if l >= levels.len() {
        assert(tables_of(levels, l as int).len() == 0);
        assert(value_from(levels, disk2, key, l + 1) is None);
    }
}

/// A flush does not change what is read: the memtable moves to the newest table
/// of level 0.
pub proof fn law_flush_keeps_reads(
    memory: Map<Seq<u8>, Seq<u8>>,
    levels: Seq<Seq<SsTableMeta>>,
    after: Seq<Seq<SsTableMeta>>,
    disk: Map<u64, Map<Seq<u8>, Seq<u8>>>,
    meta: SsTableMeta,
    s: Seq<(Seq<u8>, Seq<u8>)>,
    key: Seq<u8>,
)
    requires
        lists(s, memory),
        meta.level == 0,
        meta.min_key@ == first_key_of(s),
        meta.max_key@ == last_key_of(s),
        is_added(levels, after, meta),
        is_new_id(levels, meta.id),
    ensures
        store_value(Map::empty(), after, disk.insert(meta.id, memory), key) == store_value(
            memory,
            levels,
            disk,
            key,
        ),
{
    lemma_added(levels, after, meta, disk, memory, key);
    lemma_pair_map(s);
    if memory.dom().contains(key) {
        assert(has_key(s, key));
        lemma_covers(meta, s, key);
    }
}

/// Sorted pairs that are ingested are newer than all tables and older than the
/// memtable.
pub proof fn law_ingested_pairs_are_read(
    memory: Map<Seq<u8>, Seq<u8>>,
    levels: Seq<Seq<SsTableMeta>>,
    after: Seq<Seq<SsTableMeta>>,
    disk: Map<u64, Map<Seq<u8>, Seq<u8>>>,
    meta: SsTableMeta,
    s: Seq<(Seq<u8>, Seq<u8>)>,
    key: Seq<u8>,
)
    requires
        key_sorted(s),
        meta.level == 0,
        meta.min_key@ == first_key_of(s),
        meta.max_key@ == last_key_of(s),
        is_added(levels, after, meta),
        is_new_id(levels, meta.id),
    ensures
        store_value(memory, after, disk.insert(meta.id, pair_map(s)), key)
            == if memory.dom().contains(key) {
            Some(memory[key])
        } else if has_key(s, key) {
            Some(value_for(s, key))
        } else {
            store_value(memory, levels, disk, key)
        },
{
    lemma_added(levels, after, meta, disk, pair_map(s), key);
    if has_key(s, key) {
        lemma_covers(meta, s, key);
    }
}

/// Each source lists its table, and its table's key range covers its keys. The
/// tables are given newest first, the sources oldest first.
pub open spec fn are_sources(
    sources: Seq<Seq<(Seq<u8>, Seq<u8>)>>,
    tables: Seq<SsTableMeta>,
    disk: Map<u64, Map<Seq<u8>, Seq<u8>>>,
) -> bool {
    &&& sources.len() == tables.len()
    &&& forall|i: int|
        0 <= i < sources.len() ==> lists(
            #[trigger] sources[i],
            disk[tables[tables.len() - 1 - i].id],
        )
    &&& forall|i: int, k: Seq<u8>|
        0 <= i < tables.len() && #[trigger] disk[tables[i].id].dom().contains(k) ==> covers(
            tables[i],
            k,
        )
}

/// The newest value among the sources of a level is the value of the level.
proof fn lemma_newest_is_level_value(
    sources: Seq<Seq<(Seq<u8>, Seq<u8>)>>,
    tables: Seq<SsTableMeta>,
    disk: Map<u64, Map<Seq<u8>, Seq<u8>>>,
    key: Seq<u8>,
)
    requires
        are_sources(sources, tables, disk),
    ensures
        newest(sources, key) == level_value(tables, disk, key),
    decreases tables.len(),
{
    if tables.len() > 0 {
        let n = tables.len() as int;
        let (m, rest) = (tables[0], tables.drop_first());
        assert(tables =~= seq![m] + rest);
        lemma_level_front(m, rest, disk, key);
        assert(lists(sources[n - 1], disk[tables[0].id]));
        assert(has_key(sources.last(), key) == disk[m.id].dom().contains(key));
        let fewer = sources.drop_last();
        assert forall|i: int| 0 <= i < fewer.len() implies lists(
            #[trigger] fewer[i],
            disk[rest[rest.len() - 1 - i].id],
        ) by {
            assert(lists(sources[i], disk[tables[n - 1 - i].id]));
            assert(rest[rest.len() - 1 - i] == tables[n - 1 - i]);
        }
        assert forall|i: int, k: Seq<u8>|
            0 <= i < rest.len() && #[trigger] disk[rest[i].id].dom().contains(k) implies covers(
            rest[i],
            k,
        ) by {
            assert(disk[tables[i + 1].id].dom().contains(k));
        }
        lemma_newest_is_level_value(fewer, rest, disk, key);
    }
}

/// Reads that agree from level `n` on agree from level `l` on if the levels
/// between are the same.
proof fn lemma_reads_agree(
    a: Seq<Seq<SsTableMeta>>,
    disk_a: Map<u64, Map<Seq<u8>, Seq<u8>>>,
    b: Seq<Seq<SsTableMeta>>,
    disk_b: Map<u64, Map<Seq<u8>, Seq<u8>>>,
    key: Seq<u8>,
    l: nat,
    n: nat,
)
    requires
        l <= n <= a.len(),
        n <= b.len(),
        forall|j: int|
            l <= j < n ==> level_value(#[trigger] a[j], disk_a, key) == level_value(
                b[j],
                disk_b,
                key,
            ),
        visible(value_from(a, disk_a, key, n)) == visible(value_from(b, disk_b, key, n)),
    ensures
        visible(value_from(a, disk_a, key, l)) == visible(value_from(b, disk_b, key, l)),
    decreases n - l,
{
    if l < n {
        lemma_reads_agree(a, disk_a, b, disk_b, key, l + 1, n);
        assert(level_value(a[l as int], disk_a, key) == level_value(b[l as int], disk_b, key));
    }
}

/// Tables that do not cover a key have no value for it.
proof fn lemma_uncovered(
    tables: Seq<SsTableMeta>,
    disk: Map<u64, Map<Seq<u8>, Seq<u8>>>,
    key: Seq<u8>,
)
    requires
        forall|i: int| 0 <= i < tables.len() ==> !covers(#[trigger] tables[i], key),
    ensures
        level_value(tables, disk, key) is None,
    decreases tables.len(),
{
    if tables.len() > 0 {
        let rest = tables.drop_last();
        assert forall|i: int| 0 <= i < rest.len() implies !covers(#[trigger] rest[i], key) by {
            assert(rest[i] == tables[i]);
        }
        lemma_uncovered(rest, disk, key);
        assert(!covers(tables[tables.len() - 1], key));
    }
}

/// A table that has a value covers the key.
proof fn lemma_covered(
    tables: Seq<SsTableMeta>,
    disk: Map<u64, Map<Seq<u8>, Seq<u8>>>,
    key: Seq<u8>,
) -> (at: int)
    requires
        level_value(tables, disk, key) is Some,
    ensures
        0 <= at < tables.len(),
        covers(tables[at], key),
    decreases tables.len(),
{
    if level_value(tables.drop_last(), disk, key) is Some {
        lemma_covered(tables.drop_last(), disk, key)
    } else {
        tables.len() - 1
    }
}

/// Tables without overlaps can be divided into two lists, whose order does not
/// matter.
proof fn lemma_divided(
    tables: Seq<SsTableMeta>,
    p: spec_fn(SsTableMeta) -> bool,
    q: spec_fn(SsTableMeta) -> bool,
    disk: Map<u64, Map<Seq<u8>, Seq<u8>>>,
    key: Seq<u8>,
)
    requires
        is_split(tables),
        forall|m: SsTableMeta| #[trigger] q(m) == !p(m),
    ensures
        level_value(tables, disk, key) == or_else(
            level_value(tables.filter(p), disk, key),
            level_value(tables.filter(q), disk, key),
        ),
    decreases tables.len(),
{
    reveal(Seq::filter);
    if tables.len() > 0 {
        let (rest, m) = (tables.drop_last(), tables.last());
        let last = tables.len() - 1;
        assert(is_split(rest)) by {
            assert forall|i: int| 0 <= i < rest.len() implies lex_le(
                (#[trigger] rest[i]).min_key@,
                rest[i].max_key@,
            ) by {
                assert(rest[i] == tables[i]);
            }
            assert forall|i: int, j: int| 0 <= i < j < rest.len() implies is_apart(
                #[trigger] rest[i],
                #[trigger] rest[j],
            ) by {
                assert(is_apart(tables[i], tables[j]));
            }
        }
        lemma_divided(rest, p, q, disk, key);
        let (a, b) = (rest.filter(p), rest.filter(q));
        assert(q(m) == !p(m));
        if p(m) {
            assert(tables.filter(p) == a.push(m));
            assert(tables.filter(q) == b);
            assert(a.push(m).drop_last() =~= a);
            if level_value(b, disk, key) is Some && table_value(m, disk, key) is Some {
                let x = lemma_covered(b, disk, key);
                let at = lemma_filtered(rest, q, x, x);
                assert(is_apart(tables[at.0], tables[last]));
                let t = tables[at.0];
                lemma_lex(key, t.max_key@, m.min_key@);
                lemma_lex(m.min_key@, key, t.max_key@);
                lemma_lex(key, m.max_key@, t.min_key@);
                lemma_lex(t.min_key@, key, m.max_key@);
            }
        } else {
            assert(tables.filter(p) == a);
            assert(tables.filter(q) == b.push(m));
            assert(b.push(m).drop_last() =~= b);
        }
    }
}

/// The blocks that were supplied to a compaction are those of the files: each
/// source lists its table.
pub open spec fn is_supplied_from(
    c: Compaction,
    disk: Map<u64, Map<Seq<u8>, Seq<u8>>>,
) -> bool {
    forall|i: int|
        0 <= i < c.width() ==> lists(decoded(#[trigger] c.supplied(i))->0, disk[c.input(i).id])
}

/// The files of the live tables hold only keys of their key ranges.
pub open spec fn is_held(
    levels: Seq<Seq<SsTableMeta>>,
    disk: Map<u64, Map<Seq<u8>, Seq<u8>>>,
) -> bool {
    forall|l: int, i: int, k: Seq<u8>|
        0 <= l < levels.len() && 0 <= i < levels[l].len() && #[trigger] disk[levels[l][i].id].dom().contains(
            k,
        ) ==> covers(levels[l][i], k)
}

/// Where the table of a source is among the live tables.
proof fn lemma_input(c: Compaction, i: int) -> (at: (int, int))
    requires
        c.follows_plan(),
        0 <= i < c.width(),
    ensures
        0 <= at.0 < c.base().len(),
        0 <= at.1 < c.base()[at.0].len(),
        c.base()[at.0][at.1] == c.input(i),
{
    let here = c.level() as int;
    let tables = tables_of(c.base(), here);
    let below = tables_of(c.base(), here + 1);
    let y = c.inputs().len() - 1 - i;
    if y < tables.len() {
        (here, y)
    } else {
        let at = lemma_filtered(below, reached_by(tables), y - tables.len(), y - tables.len());
        (here + 1, at.0)
    }
}

/// The blocks of files that hold what was written are sound.
proof fn lemma_sound(c: Compaction, disk: Map<u64, Map<Seq<u8>, Seq<u8>>>)
    requires
        c.follows_plan(),
        c.is_complete(),
        is_supplied_from(c, disk),
        is_held(c.base(), disk),
    ensures
        c.is_sound(),
{
    assert forall|i: int| 0 <= i < c.width() implies (decoded(#[trigger] c.supplied(i)) matches Some(
        s,
    ) && is_sound(s, c.input(i).min_key@, c.input(i).max_key@)) by {
        assert(c.supplied(i).len() == c.source_index(i).len());
        let s = decoded(c.supplied(i))->0;
        assert(lists(s, disk[c.input(i).id]));
        let at = lemma_input(c, i);
        assert forall|j: int| 0 <= j < s.len() implies lex_le(
            c.input(i).min_key@,
            (#[trigger] s[j]).0,
        ) && lex_le(s[j].0, c.input(i).max_key@) by {
            assert(has_key(s, s[j].0));
            assert(disk[c.base()[at.0][at.1].id].dom().contains(s[j].0));
        }
    }
}

/// A compaction does not change what is read: the merged table takes the place
/// of the tables of its level and of those below that they reach into, and a
/// tombstone is dropped only when nothing older is left for it to hide.
pub proof fn law_compaction_keeps_reads(
    c: Compaction,
    after: Seq<Seq<SsTableMeta>>,
    issued: nat,
    disk: Map<u64, Map<Seq<u8>, Seq<u8>>>,
    key: Seq<u8>,
)
    requires
        c.wf(),
        c.is_complete(),
        c.is_finished(c.base(), after),
        is_orderly(c.base(), issued),
        is_new_id(c.base(), c.id()),
        is_held(c.base(), disk),
        is_supplied_from(c, disk),
    ensures
        visible(value_from(after, disk.insert(c.id(), pair_map(c.entries())), key, 0)) == visible(
            value_from(c.base(), disk, key, 0),
        ),
{
    let base = c.base();
    let here = c.level() as nat;
    let tables = tables_of(base, here as int);
    let below = tables_of(base, here as int + 1);
    let (p, q) = (reached_by(tables), missed_by(tables));
    let (taken, kept) = (below.filter(p), below.filter(q));
    let m = c.entries();
    let content = pair_map(m);
    let disk2 = disk.insert(c.id(), content);
    let sources = Seq::new(c.width(), |i: int| decoded(c.supplied(i))->0);
    c.lemma_plan();
    c.lemma_replaced(after, issued);
    lemma_sound(c, disk);
    assert forall|i: int| 0 <= i < sources.len() implies key_sorted(#[trigger] sources[i]) by {
        assert(c.supplied(i).len() == c.source_index(i).len());
    }
    law_merge_keeps_the_newest(sources, c.drops_tombstones());
    // The newest value among the sources is that of the merged tables.
    assert(are_sources(sources, c.inputs(), disk)) by {
        assert forall|i: int| 0 <= i < sources.len() implies lists(
            #[trigger] sources[i],
            disk[c.inputs()[c.inputs().len() - 1 - i].id],
        ) by {
            assert(lists(decoded(c.supplied(i))->0, disk[c.input(i).id]));
        }
        assert forall|i: int, k: Seq<u8>|
            0 <= i < c.inputs().len() && #[trigger] disk[c.inputs()[i].id].dom().contains(
                k,
            ) implies covers(c.inputs()[i], k) by {
            let x = c.inputs().len() - 1 - i;
            assert(lists(decoded(c.supplied(x))->0, disk[c.input(x).id]));
            assert(c.supplied(x).len() == c.source_index(x).len());
            let s = sources[x];
            assert(has_key(s, k));
            let y = choose|y: int| 0 <= y < s.len() && (#[trigger] s[y]).0 == k;
            assert(s[y].0 == k);
        }
    }
    lemma_newest_is_level_value(sources, c.inputs(), disk, key);
    lemma_level_add(tables, taken, disk, key);
    if below.len() > 0 {
        assert(is_split(base[here as int + 1]));
    }
    lemma_divided(below, p, q, disk, key);
    // The levels further down are untouched.
    assert forall|j: int| here + 2 <= j implies #[trigger] tables_of(after, j) == tables_of(
        base,
        j,
    ) by {}
    lemma_same_levels(after, base, disk2, key, here + 2);
    lemma_new_table_from(base, disk, c.id(), content, key, here + 2);
    let far = value_from(base, disk, key, here + 2);
    assert forall|i: int| 0 <= i < kept.len() implies (#[trigger] kept[i]).id != c.id() by {
        let at = lemma_filtered(below, q, i, i);
        assert(base[here as int + 1][at.0].id != c.id());
    }
    lemma_new_table(kept, disk, c.id(), content, key);
    let old_value = newest(sources, key);
    let left = level_value(kept, disk, key);
    lemma_from(base, disk, key, here);
    lemma_from(base, disk, key, here + 1);
    lemma_from(after, disk2, key, here);
    lemma_from(after, disk2, key, here + 1);
    assert(visible(value_from(base, disk, key, here)) == visible(
        or_else(old_value, or_else(left, far)),
    ));
    let fresh = if content.dom().contains(key) {
        Some(content[key])
    } else {
        None
    };
    assert(value_from(after, disk2, key, here) == or_else(fresh, or_else(left, far))) by {
        if m.len() > 0 {
            let meta = after[here as int + 1][0];
            lemma_level_front(meta, kept, disk2, key);
            if content.dom().contains(key) {
                assert(has_key(m, key));
                lemma_covers(meta, m, key);
            }
        } else {
            assert(Seq::<SsTableMeta>::empty() + kept =~= kept);
            assert(!content.dom().contains(key));
        }
    }
    if let Some(v) = old_value {
        if c.drops_tombstones() && v.len() == 0 {
            // Nothing older is left.
            let i = lemma_newest_from(sources, key);
            assert(c.supplied(i).len() == c.source_index(i).len());
            let s = sources[i];
            let y = choose|y: int| 0 <= y < s.len() && (#[trigger] s[y]).0 == key;
            assert(s[y].0 == key);
            assert forall|j: int| 0 <= j < kept.len() implies !covers(#[trigger] kept[j], key) by {
                let at = lemma_filtered(below, q, j, j);
                let u = kept[j];
                let t = c.input(i);
                c.lemma_beyond(i, at.0, issued);
                lemma_lex(t.min_key@, key, u.max_key@);
                lemma_lex(u.max_key@, t.min_key@, key);
                lemma_lex(key, u.max_key@, t.min_key@);
                lemma_lex(key, t.max_key@, u.min_key@);
                lemma_lex(t.max_key@, u.min_key@, key);
                lemma_lex(u.min_key@, key, t.max_key@);
            }
            lemma_uncovered(kept, disk, key);
            assert(far is None);
        }
    }
    assert(visible(value_from(after, disk2, key, here)) == visible(
        value_from(base, disk, key, here),
    ));
    // The levels before are untouched.
    assert forall|j: int| 0 <= j < here implies level_value(#[trigger] after[j], disk2, key)
        == level_value(base[j], disk, key) by {
        assert(tables_of(after, j) == tables_of(base, j));
        let here = base[j];
        assert forall|i: int| 0 <= i < here.len() implies (#[trigger] here[i]).id != c.id() by {
            assert(base[j][i].id != c.id());
        }
        lemma_new_table(here, disk, c.id(), content, key);
    }
    lemma_reads_agree(after, disk2, base, disk, key, 0, here);
}

/// The value from a level on is that of the level, or else that from the next
/// level on.
proof fn lemma_from(
    levels: Seq<Seq<SsTableMeta>>,
    disk: Map<u64, Map<Seq<u8>, Seq<u8>>>,
    key: Seq<u8>,
    l: nat,
)
    ensures
        value_from(levels, disk, key, l) == or_else(
            level_value(tables_of(levels, l as int), disk, key),
            value_from(levels, disk, key, l + 1),
        ),
{
    if l >= levels.len() {
        assert(value_from(levels, disk, key, l + 1) is None);
    }
}

/// A log that was written record by record replays to the contents that the
/// operations made, one after the other.
pub proof fn law_log_replays_to_the_memtable(
    start: Map<Seq<u8>, Seq<u8>>,
    entries: Seq<LogEntry>,
    e: LogEntry,
)
    requires
        forall|i: int| 0 <= i < entries.len() ==> is_storable(#[trigger] entries[i]),
        is_storable(e),
    ensures
        log_entries(log_bytes(entries)) == Ok::<_, u8>(entries),
        log_entries(log_bytes(entries) + entry_bytes(e)) == Ok::<_, u8>(entries.push(e)),
        replayed(start, entries.push(e)) == applied(replayed(start, entries), e),
{
    let none = Seq::<u8>::empty();
    law_log_roundtrip(entries, none);
    assert(log_bytes(entries) + none =~= log_bytes(entries));
    assert(log_entries(none) == Ok::<_, u8>(Seq::<LogEntry>::empty()));
    assert(entries + Seq::<LogEntry>::empty() =~= entries);
    let one = seq![e];
    law_log_roundtrip(one, none);
    assert(one.drop_first() =~= Seq::<LogEntry>::empty());
    assert(log_bytes(one.drop_first()) =~= none);
    assert(log_bytes(one) =~= entry_bytes(e));
    assert(entry_bytes(e) + none =~= entry_bytes(e));
    assert(one + Seq::<LogEntry>::empty() =~= one);
    law_log_roundtrip(entries, entry_bytes(e));
    assert(entries + one =~= entries.push(e));
    assert(entries.push(e).drop_last() =~= entries);
}

/// What readers see of a key in an engine whose tables hold `disk`.
pub open spec fn read_of<M: Memtable>(
    engine: LsmEngine<M>,
    disk: Map<u64, Map<Seq<u8>, Seq<u8>>>,
    key: Seq<u8>,
) -> Option<Seq<u8>> {
    visible(store_value(engine.memory(), engine.tables()@, disk, key))
}

/// The value of a key in a table's contents.
pub open spec fn found_in(m: Map<Seq<u8>, Seq<u8>>, key: Seq<u8>) -> Option<Seq<u8>> {
    if m.dom().contains(key) {
        Some(m[key])
    } else {
        None
    }
}

/// The value that looking into tables, given by ID and path, ends with.
pub open spec fn refs_value(
    refs: Seq<(u64, Seq<char>)>,
    disk: Map<u64, Map<Seq<u8>, Seq<u8>>>,
    key: Seq<u8>,
) -> Option<Seq<u8>>
    decreases refs.len(),
{
    if refs.len() == 0 {
        None
    } else {
        or_else(found_in(disk[refs[0].0], key), refs_value(refs.drop_first(), disk, key))
    }
}

/// The answer that a step of a read leads to.
pub open spec fn answer(
    step: GetStep,
    disk: Map<u64, Map<Seq<u8>, Seq<u8>>>,
    key: Seq<u8>,
) -> Option<Seq<u8>> {
    match step {
        GetStep::Done(value) => value_view(value),
        GetStep::Probe(probe) => visible(refs_value(probe.pending(), disk, key)),
    }
}

/// Looking into tables by their paths is probing them.
proof fn lemma_refs(
    tables: Seq<SsTableMeta>,
    disk: Map<u64, Map<Seq<u8>, Seq<u8>>>,
    key: Seq<u8>,
)
    ensures
        refs_value(tables.map_values(|m: SsTableMeta| table_ref(m)), disk, key) == probe_value(
            tables,
            disk,
            key,
        ),
    decreases tables.len(),
{
    let refs = tables.map_values(|m: SsTableMeta| table_ref(m));
    if tables.len() > 0 {
        lemma_refs(tables.drop_first(), disk, key);
        assert(refs.drop_first() =~= tables.drop_first().map_values(
            |m: SsTableMeta| table_ref(m),
        ));
    }
}

/// A read that starts with `get` ends with the newest value: that in memory, or
/// else that of the first table that has the key.
pub proof fn law_get_answers_the_read<M: Memtable>(
    engine: LsmEngine<M>,
    r: GetStep,
    disk: Map<u64, Map<Seq<u8>, Seq<u8>>>,
    key: Seq<u8>,
)
    requires
        engine.is_first_step(key, r),
    ensures
        answer(r, disk, key) == read_of(engine, disk, key),
{
    let levels = engine.tables()@;
    law_reads_find_the_newest_value(levels, disk, key);
    lemma_refs(candidates(levels, key), disk, key);
}

/// A read that goes on with what a table holds for the key keeps its answer.
pub proof fn law_resume_keeps_the_answer(
    probe: Probe,
    reply: Option<Seq<u8>>,
    r: GetStep,
    disk: Map<u64, Map<Seq<u8>, Seq<u8>>>,
    key: Seq<u8>,
)
    requires
        probe.pending().len() > 0,
        reply == found_in(disk[probe.pending()[0].0], key),
        probe.is_resumed(reply, r),
    ensures
        answer(r, disk, key) == answer(GetStep::Probe(probe), disk, key),
{
    if reply is None && probe.pending().len() == 1 {
        assert(refs_value(probe.pending().drop_first(), disk, key) is None);
    }
}

/// Writing a flushed table and registering it does not change what the engine
/// answers: before the flush the pairs were in memory.
pub proof fn law_engine_flush_keeps_reads<M: Memtable>(
    before: LsmEngine<M>,
    after: LsmEngine<M>,
    job: FlushJob,
    memory: Map<Seq<u8>, Seq<u8>>,
    disk: Map<u64, Map<Seq<u8>, Seq<u8>>>,
    key: Seq<u8>,
)
    requires
        before.wf(),
        before.tables().has_unique_ids(),
        before.accepts(job.meta),
        before.memory() == Map::<Seq<u8>, Seq<u8>>::empty(),
        job.writes_map(before.tables().directory(), job.meta.id, memory),
        after.memory() == before.memory(),
        is_added(before.tables()@, after.tables()@, job.meta),
    ensures
        read_of(after, disk.insert(job.meta.id, memory), key) == visible(
            store_value(memory, before.tables()@, disk, key),
        ),
{
    let s = choose|s: Seq<(Seq<u8>, Seq<u8>)>| #[trigger]
        lists(s, memory) && job.writes(before.tables().directory(), job.meta.id, s);
    law_flush_keeps_reads(memory, before.tables()@, after.tables()@, disk, job.meta, s, key);
}

/// A compaction does not change what the engine answers.
pub proof fn law_engine_compaction_keeps_reads<M: Memtable>(
    before: LsmEngine<M>,
    after: LsmEngine<M>,
    c: Compaction,
    disk: Map<u64, Map<Seq<u8>, Seq<u8>>>,
    key: Seq<u8>,
)
    requires
        before.wf(),
        before.tables().has_unique_ids(),
        before.expects(c),
        is_disjoint(before.tables()@),
        is_held(before.tables()@, disk),
        c.wf(),
        c.is_complete(),
        c.is_finished(before.tables()@, after.tables()@),
        after.memory() == before.memory(),
        is_supplied_from(c, disk),
    ensures
        read_of(after, disk.insert(c.id(), pair_map(c.entries())), key) == read_of(
            before,
            disk,
            key,
        ),
{
    before.lemma_ranked();
    law_compaction_keeps_reads(c, after.tables()@, before.tables().issued(), disk, key);
}

/// One of the tables is the same.
#[verifier::opaque]
pub open spec fn is_among(tables: Seq<SsTableMeta>, m: SsTableMeta) -> bool {
    exists|i: int| 0 <= i < tables.len() && m.same(#[trigger] tables[i])
}

/// Where a table is among others.
proof fn lemma_among(tables: Seq<SsTableMeta>, m: SsTableMeta) -> (at: int)
    requires
        is_among(tables, m),
    ensures
        0 <= at < tables.len(),
        m.same(tables[at]),
{
    reveal(is_among);
    choose|i: int| 0 <= i < tables.len() && m.same(#[trigger] tables[i])
}

/// A table of the list is among its tables.
proof fn lemma_is_among(tables: Seq<SsTableMeta>, m: SsTableMeta, i: int)
    requires
        0 <= i < tables.len(),
        m.same(tables[i]),
    ensures
        is_among(tables, m),
{
    reveal(is_among);
}

/// The found tables are the live ones.
pub open spec fn are_live(tables: Seq<SsTableMeta>, levels: Seq<Seq<SsTableMeta>>) -> bool {
    &&& forall|i: int|
        0 <= i < tables.len() ==> is_among(
            tables_of(levels, tables[i].level as int),
            #[trigger] tables[i],
        )
    &&& forall|l: int, j: int|
        0 <= l < levels.len() && 0 <= j < levels[l].len() ==> is_among(
            tables,
            #[trigger] levels[l][j],
        )
}

/// The lists have the same tables.
spec fn same_tables(a: Seq<SsTableMeta>, b: Seq<SsTableMeta>) -> bool {
    &&& forall|i: int| 0 <= i < a.len() ==> is_among(b, #[trigger] a[i])
    &&& forall|j: int| 0 <= j < b.len() ==> is_among(a, #[trigger] b[j])
}

/// Tables that are the same hold the same value.
proof fn lemma_same_value(
    a: SsTableMeta,
    b: SsTableMeta,
    disk: Map<u64, Map<Seq<u8>, Seq<u8>>>,
    key: Seq<u8>,
)
    requires
        a.same(b),
    ensures
        covers(a, key) == covers(b, key),
        table_value(a, disk, key) == table_value(b, disk, key),
{
}

/// Lists of the same tables, newest first, hold the same values.
proof fn lemma_same_order(
    a: Seq<SsTableMeta>,
    b: Seq<SsTableMeta>,
    disk: Map<u64, Map<Seq<u8>, Seq<u8>>>,
    key: Seq<u8>,
)
    requires
        newest_first(a),
        newest_first(b),
        same_tables(a, b),
    ensures
        level_value(a, disk, key) == level_value(b, disk, key),
    decreases a.len(),
{
    if a.len() > 0 {
        let n = a.len() - 1;
        let y = lemma_among(b, a[n]);
        let m = b.len() - 1;
        let x = lemma_among(a, b[m]);
        // The last of each has the lowest ID.
        if x < n {
            assert(a[x].id > a[n].id);
        }
        if y < m {
            assert(b[y].id > b[m].id);
        }
        let (s, t) = (a.drop_last(), b.drop_last());
        assert forall|i: int| 0 <= i < s.len() implies is_among(t, #[trigger] s[i]) by {
            assert(a[i].id > a[n].id);
            let j = lemma_among(b, a[i]);
            lemma_is_among(t, s[i], j);
        }
        assert forall|j: int| 0 <= j < t.len() implies is_among(s, #[trigger] t[j]) by {
            assert(b[j].id > b[m].id);
            let i = lemma_among(a, b[j]);
            lemma_is_among(s, t[j], i);
        }
        lemma_same_order(s, t, disk, key);
        lemma_same_value(a[n], b[m], disk, key);
    } else if b.len() > 0 {
        lemma_among(a, b[0]);
    }
}

/// Among tables without overlaps, the one that covers the key has its value.
proof fn lemma_only_cover(
    tables: Seq<SsTableMeta>,
    disk: Map<u64, Map<Seq<u8>, Seq<u8>>>,
    key: Seq<u8>,
    i: int,
)
    requires
        is_split(tables),
        0 <= i < tables.len(),
        covers(tables[i], key),
    ensures
        level_value(tables, disk, key) == table_value(tables[i], disk, key),
{
    assert forall|j: int| 0 <= j < tables.len() && j != i implies !covers(
        #[trigger] tables[j],
        key,
    ) by {
        let (a, b) = if i < j {
            (tables[i], tables[j])
        } else {
            (tables[j], tables[i])
        };
        assert(is_apart(a, b));
        lemma_lex(key, a.max_key@, b.min_key@);
        lemma_lex(b.min_key@, key, a.max_key@);
        lemma_lex(key, b.max_key@, a.min_key@);
        lemma_lex(a.min_key@, key, b.max_key@);
    }
    let (front, back) = (tables.take(i), tables.skip(i + 1));
    assert(tables =~= front + (seq![tables[i]] + back));
    lemma_level_add(front, seq![tables[i]] + back, disk, key);
    lemma_level_front(tables[i], back, disk, key);
    assert forall|j: int| 0 <= j < front.len() implies !covers(#[trigger] front[j], key) by {
        assert(front[j] == tables[j]);
    }
    assert forall|j: int| 0 <= j < back.len() implies !covers(#[trigger] back[j], key) by {
        assert(back[j] == tables[i + 1 + j]);
    }
    lemma_uncovered(front, disk, key);
    lemma_uncovered(back, disk, key);
}

/// Lists of the same tables without overlaps hold the same values.
proof fn lemma_same_split(
    a: Seq<SsTableMeta>,
    b: Seq<SsTableMeta>,
    disk: Map<u64, Map<Seq<u8>, Seq<u8>>>,
    key: Seq<u8>,
)
    requires
        is_split(a),
        is_split(b),
        same_tables(a, b),
    ensures
        level_value(a, disk, key) == level_value(b, disk, key),
{
    if exists|i: int| 0 <= i < a.len() && covers(#[trigger] a[i], key) {
        let i = choose|i: int| 0 <= i < a.len() && covers(#[trigger] a[i], key);
        let j = lemma_among(b, a[i]);
        lemma_same_value(a[i], b[j], disk, key);
        lemma_only_cover(a, disk, key, i);
        lemma_only_cover(b, disk, key, j);
    } else {
        assert forall|j: int| 0 <= j < b.len() implies !covers(#[trigger] b[j], key) by {
            let i = lemma_among(a, b[j]);
            lemma_same_value(b[j], a[i], disk, key);
        }
        lemma_uncovered(a, disk, key);
        lemma_uncovered(b, disk, key);
    }
}

/// Opening a store with the tables of an earlier run does not change what is
/// read from them, and none of them is taken for a leftover.
pub proof fn law_reopening_keeps_reads(
    levels: Seq<Seq<SsTableMeta>>,
    issued: nat,
    tables: Seq<SsTableMeta>,
    after: Seq<Seq<SsTableMeta>>,
    num_levels: nat,
    disk: Map<u64, Map<Seq<u8>, Seq<u8>>>,
    key: Seq<u8>,
)
    requires
        is_orderly(levels, issued),
        are_live(tables, levels),
        is_recoverable(tables),
        is_loaded(after, tables, num_levels),
    ensures
        value_from(after, disk, key, 0) == value_from(levels, disk, key, 0),
        is_orderly(after, issued_for(tables)),
        forall|i: int| 0 <= i < tables.len() ==> !is_leftover(tables, #[trigger] tables[i]),
{
    lemma_loaded(after, tables, num_levels);
    assert forall|i: int| 0 <= i < tables.len() implies !is_leftover(
        tables,
        #[trigger] tables[i],
    ) by {
        if is_leftover(tables, tables[i]) {
            let x = choose|x: int|
                0 <= x < tables.len() && (#[trigger] tables[x]).level == tables[i].level
                    && tables[x].id > tables[i].id && !is_apart(tables[x], tables[i]);
            let l = tables[i].level as int;
            let j = lemma_among(tables_of(levels, l), tables[i]);
            let y = lemma_among(tables_of(levels, l), tables[x]);
            assert(is_split(levels[l]));
            if j < y {
                assert(is_apart(levels[l][j], levels[l][y]));
            } else {
                assert(is_apart(levels[l][y], levels[l][j]));
            }
        }
    }
    lemma_reopened_from(levels, issued, tables, after, num_levels, disk, key, 0);
}

/// Reopened levels hold the same values from level `l` on.
proof fn lemma_reopened_from(
    levels: Seq<Seq<SsTableMeta>>,
    issued: nat,
    tables: Seq<SsTableMeta>,
    after: Seq<Seq<SsTableMeta>>,
    num_levels: nat,
    disk: Map<u64, Map<Seq<u8>, Seq<u8>>>,
    key: Seq<u8>,
    l: nat,
)
    requires
        is_orderly(levels, issued),
        are_live(tables, levels),
        is_recoverable(tables),
        is_loaded(after, tables, num_levels),
        is_orderly(after, issued_for(tables)),
        forall|i: int| 0 <= i < tables.len() ==> !is_leftover(tables, #[trigger] tables[i]),
    ensures
        value_from(after, disk, key, l) == value_from(levels, disk, key, l),
    decreases (if after.len() > levels.len() {
            after.len()
        } else {
            levels.len()
        }) - l,
{
    if l < after.len() || l < levels.len() {
        lemma_reopened_from(levels, issued, tables, after, num_levels, disk, key, l + 1);
        lemma_from(after, disk, key, l);
        lemma_from(levels, disk, key, l);
        let (a, b) = (tables_of(after, l as int), tables_of(levels, l as int));
        assert forall|i: int| 0 <= i < a.len() implies is_among(b, #[trigger] a[i]) by {
            assert(after[l as int].contains(a[i]));
            let x = choose|x: int| 0 <= x < tables.len() && tables[x] == a[i];
            assert(is_among(tables_of(levels, tables[x].level as int), tables[x]));
        }
        assert forall|j: int| 0 <= j < b.len() implies is_among(a, #[trigger] b[j]) by {
            let m = levels[l as int][j];
            assert(is_among(tables, m));
            let x = lemma_among(tables, m);
            assert(m.level == l);
            assert(tables.contains(tables[x]));
            lemma_bounds(tables, num_levels, x);
            assert(after[l as int].contains(tables[x]));
            let i = choose|i: int| 0 <= i < a.len() && a[i] == tables[x];
            lemma_is_among(a, b[j], i);
        }
        if l == 0 {
            if after.len() > 0 {
                assert(newest_first(after[0]));
            }
            lemma_same_order(a, b, disk, key);
        } else {
            if l < after.len() {
                assert(is_split(after[l as int]));
            }
            if l < levels.len() {
                assert(is_split(levels[l as int]));
            }
            lemma_same_split(a, b, disk, key);
        }
    } else {
        assert(value_from(after, disk, key, l) is None);
    }
}

/// All that a store consists of: its directory, the memtable, the live tables, the number of
/// IDs that were given out, and what the tables hold.
pub struct StoreState {
    /// The directory.
    pub dir: Seq<char>,
    /// The contents of the memtable.
    pub memory: Map<Seq<u8>, Seq<u8>>,
    /// The live tables.
    pub levels: Seq<Seq<SsTableMeta>>,
    /// The number of IDs that were given out.
    pub issued: nat,
    /// The contents of the tables, by ID.
    pub disk: Map<u64, Map<Seq<u8>, Seq<u8>>>,
}

/// A step of a store.
pub enum StoreStep {
    /// A pair is put.
    Put(Seq<u8>, Seq<u8>),
    /// A key is deleted.
    Delete(Seq<u8>),
    /// The memtable is written to a table.
    Flush(SsTableMeta, Seq<(Seq<u8>, Seq<u8>)>),
    /// A level is compacted.
    Compact(Compaction),
    /// The store is closed and opened again, and finds these tables.
    Reopen(Seq<SsTableMeta>),
}

/// The step takes the store from `a` to `b`.
pub open spec fn is_step(a: StoreState, step: StoreStep, b: StoreState) -> bool {
    match step {
        StoreStep::Put(key, value) => b == (StoreState {
            memory: a.memory.insert(key, value),
            ..a
        }),
        StoreStep::Delete(key) => b == (StoreState {
            memory: a.memory.insert(key, Seq::empty()),
            ..a
        }),
        StoreStep::Flush(meta, s) => {
            &&& lists(s, a.memory)
            &&& meta.id == a.issued
            &&& describes(meta, a.dir, meta.id, 0, s)
            &&& b.dir == a.dir
            &&& is_added(a.levels, b.levels, meta)
            &&& b.memory == Map::<Seq<u8>, Seq<u8>>::empty()
            &&& b.issued == a.issued + 1
            &&& b.disk == a.disk.insert(meta.id, a.memory)
        },
        StoreStep::Compact(c) => {
            &&& c.wf()
            &&& c.is_complete()
            &&& c.base() == a.levels
            &&& c.directory() == a.dir
            &&& b.dir == a.dir
            &&& c.id() == a.issued
            &&& is_supplied_from(c, a.disk)
            &&& c.is_finished(a.levels, b.levels)
            &&& b.memory == a.memory
            &&& b.issued == a.issued + 1
            &&& b.disk == a.disk.insert(c.id(), pair_map(c.entries()))
        },
        StoreStep::Reopen(tables) => {
            &&& are_live(tables, a.levels)
            &&& is_recoverable(tables)
            &&& is_loaded(b.levels, tables, NUM_LEVELS as nat)
            &&& b.issued == issued_for(tables)
            &&& b.dir == a.dir
            &&& b.memory == a.memory
            &&& b.disk == a.disk
        },
    }
}

/// The state of an engine whose tables hold `disk`, with the given memtable.
pub open spec fn state_with<M: Memtable>(
    engine: LsmEngine<M>,
    memory: Map<Seq<u8>, Seq<u8>>,
    disk: Map<u64, Map<Seq<u8>, Seq<u8>>>,
) -> StoreState {
    StoreState {
        dir: engine.tables().directory(),
        memory,
        levels: engine.tables()@,
        issued: engine.tables().issued(),
        disk,
    }
}

/// The state of an engine whose tables hold `disk`.
pub open spec fn state_of<M: Memtable>(
    engine: LsmEngine<M>,
    disk: Map<u64, Map<Seq<u8>, Seq<u8>>>,
) -> StoreState {
    state_with(engine, engine.memory(), disk)
}

/// A put that does not fill the memtable, and a delete, are steps of the store.
pub proof fn law_writes_are_steps<M: Memtable>(
    before: LsmEngine<M>,
    after: LsmEngine<M>,
    disk: Map<u64, Map<Seq<u8>, Seq<u8>>>,
    key: Seq<u8>,
    value: Seq<u8>,
)
    requires
        after.memory() == before.memory().insert(key, value),
        after.tables() == before.tables(),
    ensures
        is_step(state_of(before, disk), StoreStep::Put(key, value), state_of(after, disk)),
        value.len() == 0 ==> is_step(
            state_of(before, disk),
            StoreStep::Delete(key),
            state_of(after, disk),
        ),
{
    if value.len() == 0 {
        assert(value =~= Seq::<u8>::empty());
    }
}

/// A flush, once its table is written and registered, is a step of the store.
/// The memtable held `memory` when it was flushed.
pub proof fn law_flushes_are_steps<M: Memtable>(
    before: LsmEngine<M>,
    flushed: LsmEngine<M>,
    after: LsmEngine<M>,
    job: FlushJob,
    memory: Map<Seq<u8>, Seq<u8>>,
    disk: Map<u64, Map<Seq<u8>, Seq<u8>>>,
)
    requires
        before.wf(),
        before.tables().issued() <= u64::MAX,
        job.writes_map(before.tables().directory(), before.tables().next_id(), memory),
        flushed.memory() == Map::<Seq<u8>, Seq<u8>>::empty(),
        flushed.tables()@ == before.tables()@,
        flushed.tables().issued() == before.tables().issued() + 1,
        after.memory() == flushed.memory(),
        after.tables().issued() == flushed.tables().issued(),
        is_added(flushed.tables()@, after.tables()@, job.meta),
        after.tables().directory() == before.tables().directory(),
    ensures
        exists|s: Seq<(Seq<u8>, Seq<u8>)>| #[trigger]
            is_step(
                state_with(before, memory, disk),
                StoreStep::Flush(job.meta, s),
                state_of(after, disk.insert(job.meta.id, memory)),
            ),
{
    before.lemma_ranked();
    let s = choose|s: Seq<(Seq<u8>, Seq<u8>)>| #[trigger]
        lists(s, memory) && job.writes(
            before.tables().directory(),
            before.tables().next_id(),
            s,
        );
    assert(is_step(
        state_with(before, memory, disk),
        StoreStep::Flush(job.meta, s),
        state_of(after, disk.insert(job.meta.id, memory)),
    ));
}

/// A compaction, from its start to its end, is a step of the store.
pub proof fn law_compactions_are_steps<M: Memtable>(
    before: LsmEngine<M>,
    after: LsmEngine<M>,
    c: Compaction,
    disk: Map<u64, Map<Seq<u8>, Seq<u8>>>,
)
    requires
        before.wf(),
        before.tables().issued() <= u64::MAX,
        c.wf(),
        c.is_complete(),
        c.base() == before.tables()@,
        c.directory() == before.tables().directory(),
        c.id() == before.tables().next_id(),
        is_supplied_from(c, disk),
        c.is_finished(before.tables()@, after.tables()@),
        after.memory() == before.memory(),
        after.tables().issued() == before.tables().issued() + 1,
        after.tables().directory() == before.tables().directory(),
    ensures
        is_step(
            state_of(before, disk),
            StoreStep::Compact(c),
            state_of(after, disk.insert(c.id(), pair_map(c.entries()))),
        ),
{
    before.lemma_ranked();
}

/// Opening a store with the live tables and the log of an earlier run is a step
/// of the store: the log replays to the memtable.
pub proof fn law_restarts_are_steps<M: Memtable>(
    before: LsmEngine<M>,
    after: LsmEngine<M>,
    tables: Seq<SsTableMeta>,
    log: Seq<u8>,
    disk: Map<u64, Map<Seq<u8>, Seq<u8>>>,
)
    requires
        are_live(tables, before.tables()@),
        is_recoverable(tables),
        log_entries(log) is Ok,
        before.memory() == replayed(Map::empty(), log_entries(log)->Ok_0),
        after.memory() == replayed(Map::empty(), log_entries(log)->Ok_0),
        is_loaded(after.tables()@, tables, NUM_LEVELS as nat),
        after.tables().issued() == issued_for(tables),
        after.tables().directory() == before.tables().directory(),
    ensures
        is_step(state_of(before, disk), StoreStep::Reopen(tables), state_of(after, disk)),
{
}

/// What was written last, key by key. Only puts and deletes write.
pub open spec fn last_writes(steps: Seq<StoreStep>) -> Map<Seq<u8>, Seq<u8>>
    decreases steps.len(),
{
    if steps.len() == 0 {
        Map::empty()
    } else {
        let before = last_writes(steps.drop_last());
        match steps.last() {
            StoreStep::Put(key, value) => before.insert(key, value),
            StoreStep::Delete(key) => before.insert(key, Seq::empty()),
            _ => before,
        }
    }
}

/// Every step keeps the store in order: the IDs of the live tables stay distinct,
/// the tables above level 0 do not overlap, and each file holds only keys of the
/// key range of its table.
pub proof fn law_steps_keep_the_order(a: StoreState, step: StoreStep, b: StoreState)
    requires
        is_step(a, step, b),
        is_orderly(a.levels, a.issued),
        is_held(a.levels, a.disk),
    ensures
        is_orderly(b.levels, b.issued),
        is_held(b.levels, b.disk),
{
    match step {
        StoreStep::Flush(meta, s) => {
            assert(is_ranked(a.levels, b.issued));
            lemma_order_push(a.levels, b.issued, meta);
            assert(is_held(b.levels, b.disk)) by {
                assert forall|l: int, i: int, k: Seq<u8>|
                    0 <= l < b.levels.len() && 0 <= i < b.levels[l].len()
                        && #[trigger] b.disk[b.levels[l][i].id].dom().contains(k) implies covers(
                    b.levels[l][i],
                    k,
                ) by {
                    assert(b.levels[l] == if l == 0 {
                        seq![meta] + tables_of(a.levels, l)
                    } else {
                        tables_of(a.levels, l)
                    });
                    if l == 0 && i == 0 {
                        lemma_pair_map(s);
                        assert(has_key(s, k));
                        lemma_covers(meta, s, k);
                    } else {
                        let j = if l == 0 {
                            i - 1
                        } else {
                            i
                        };
                        assert(b.levels[l][i] == a.levels[l][j]);
                        assert(a.levels[l][j].id != meta.id);
                        assert(a.disk[a.levels[l][j].id].dom().contains(k));
                    }
                }
            }
        },
        StoreStep::Compact(c) => {
            c.lemma_plan();
            lemma_sound(c, a.disk);
            assert(is_orderly(a.levels, b.issued));
            c.lemma_ranked(b.levels, b.issued);
            c.lemma_disjoint(b.levels, b.issued);
            c.lemma_replaced(b.levels, b.issued);
            assert(is_held(b.levels, b.disk)) by {
                assert forall|l: int, i: int, k: Seq<u8>|
                    0 <= l < b.levels.len() && 0 <= i < b.levels[l].len()
                        && #[trigger] b.disk[b.levels[l][i].id].dom().contains(k) implies covers(
                    b.levels[l][i],
                    k,
                ) by {
                    let (j, is_new) = c.lemma_origin(b.levels, l, i);
                    if is_new {
                        c.lemma_entries(0);
                        assert(has_key(c.entries(), k));
                        lemma_covers(b.levels[l][i], c.entries(), k);
                    } else {
                        assert(a.levels[l][j].id != c.id());
                        assert(a.disk[a.levels[l][j].id].dom().contains(k));
                    }
                }
            }
        },
        StoreStep::Reopen(tables) => {
            lemma_loaded(b.levels, tables, NUM_LEVELS as nat);
            assert(is_held(b.levels, b.disk)) by {
                assert forall|l: int, i: int, k: Seq<u8>|
                    0 <= l < b.levels.len() && 0 <= i < b.levels[l].len()
                        && #[trigger] b.disk[b.levels[l][i].id].dom().contains(k) implies covers(
                    b.levels[l][i],
                    k,
                ) by {
                    let m = b.levels[l][i];
                    assert(b.levels[l].contains(m));
                    let x = choose|x: int| 0 <= x < tables.len() && tables[x] == m;
                    let from = tables[x].level as int;
                    assert(is_among(tables_of(a.levels, from), tables[x]));
                    let y = lemma_among(tables_of(a.levels, from), tables[x]);
                    assert(a.disk[a.levels[from][y].id].dom().contains(k));
                    lemma_same_value(m, a.levels[from][y], a.disk, k);
                }
            }
        },
        _ => {},
    }
}

/// A round of compactions, level after level, does not change what is read, and
/// leaves the store in order.
pub proof fn law_compaction_round_keeps_reads(
    states: Seq<StoreState>,
    steps: Seq<StoreStep>,
    key: Seq<u8>,
)
    requires
        states.len() == steps.len() + 1,
        is_orderly(states[0].levels, states[0].issued),
        is_held(states[0].levels, states[0].disk),
        forall|i: int| 0 <= i < steps.len() ==> (#[trigger] steps[i]) is Compact,
        forall|i: int|
            0 <= i < steps.len() ==> is_step(states[i], #[trigger] steps[i], states[i + 1]),
    ensures
        ({
            let (start, end) = (states[0], states.last());
            &&& visible(store_value(end.memory, end.levels, end.disk, key)) == visible(
                store_value(start.memory, start.levels, start.disk, key),
            )
            &&& end.memory == start.memory
            &&& is_orderly(end.levels, end.issued)
            &&& is_held(end.levels, end.disk)
        }),
    decreases steps.len(),
{
    if steps.len() > 0 {
        let n = steps.len() - 1;
        let (earlier, fewer) = (states.drop_last(), steps.drop_last());
        let (a, b) = (states[n], states[n + 1]);
        assert(earlier[0] == states[0]);
        assert forall|i: int| 0 <= i < fewer.len() implies is_step(
            earlier[i],
            #[trigger] fewer[i],
            earlier[i + 1],
        ) by {
            assert(is_step(states[i], steps[i], states[i + 1]));
        }
        assert forall|i: int| 0 <= i < fewer.len() implies (#[trigger] fewer[i]) is Compact by {
            assert(steps[i] is Compact);
        }
        law_compaction_round_keeps_reads(earlier, fewer, key);
        assert(earlier.last() == a);
        assert(steps[n] is Compact && is_step(a, steps[n], b));
        law_steps_keep_the_order(a, steps[n], b);
        if let StoreStep::Compact(c) = steps[n] {
            law_compaction_keeps_reads(c, b.levels, a.issued, a.disk, key);
        }
    }
}

/// After any sequence of puts, deletes, flushes, compactions and restarts a key
/// reads as the value that was put last: as none if it was deleted last, if that
/// value is empty or if the key was never written. The store stays in order.
pub proof fn law_reads_follow_the_writes(
    states: Seq<StoreState>,
    steps: Seq<StoreStep>,
    key: Seq<u8>,
)
    requires
        states.len() == steps.len() + 1,
        states[0].memory == Map::<Seq<u8>, Seq<u8>>::empty(),
        forall|l: int|
            0 <= l < states[0].levels.len() ==> (#[trigger] states[0].levels[l]).len() == 0,
        forall|i: int|
            0 <= i < steps.len() ==> is_step(states[i], #[trigger] steps[i], states[i + 1]),
    ensures
        ({
            let end = states.last();
            &&& visible(store_value(end.memory, end.levels, end.disk, key)) == visible(
                found_in(last_writes(steps), key),
            )
            &&& is_orderly(end.levels, end.issued)
            &&& is_held(end.levels, end.disk)
        }),
    decreases steps.len(),
{
    if steps.len() == 0 {
        let start = states[0];
        lemma_no_tables(start.levels, start.disk, key, 0);
    } else {
        let n = steps.len() - 1;
        let (earlier, fewer) = (states.drop_last(), steps.drop_last());
        let (a, b) = (states[n], states[n + 1]);
        assert(earlier[0] == states[0]);
        assert forall|i: int| 0 <= i < fewer.len() implies is_step(
            earlier[i],
            #[trigger] fewer[i],
            earlier[i + 1],
        ) by {
            assert(is_step(states[i], steps[i], states[i + 1]));
        }
        law_reads_follow_the_writes(earlier, fewer, key);
        assert(earlier.last() == a);
        assert(is_step(a, steps[n], b));
        law_steps_keep_the_order(a, steps[n], b);
        match steps[n] {
            StoreStep::Put(k, v) => {
                law_put_is_read_back(a.memory, a.levels, a.disk, k, v, key);
            },
            StoreStep::Delete(k) => {
                law_deleted_key_is_gone(a.memory, a.levels, a.disk, k, key);
            },
            StoreStep::Flush(meta, s) => {
                law_flush_keeps_reads(a.memory, a.levels, b.levels, a.disk, meta, s, key);
            },
            StoreStep::Compact(c) => {
                law_compaction_keeps_reads(c, b.levels, a.issued, a.disk, key);
            },
            StoreStep::Reopen(tables) => {
                law_reopening_keeps_reads(
                    a.levels,
                    a.issued,
                    tables,
                    b.levels,
                    NUM_LEVELS as nat,
                    a.disk,
                    key,
                );
            },
        }
    }
}

/// Without tables there are no values.
proof fn lemma_no_tables(
    levels: Seq<Seq<SsTableMeta>>,
    disk: Map<u64, Map<Seq<u8>, Seq<u8>>>,
    key: Seq<u8>,
    l: nat,
)
    requires
        forall|j: int| 0 <= j < levels.len() ==> (#[trigger] levels[j]).len() == 0,
    ensures
        value_from(levels, disk, key, l) is None,
    decreases levels.len() - l,
{
    if l < levels.len() {
        lemma_no_tables(levels, disk, key, l + 1);
    }
}

/// A log whose incomplete end was cut off, and to which new records were written,
/// replays to the contents that the old and the new operations made.
pub proof fn law_log_goes_on_after_recovery(
    start: Map<Seq<u8>, Seq<u8>>,
    log: Seq<u8>,
    entries: Seq<LogEntry>,
)
    requires
        log_entries(log) is Ok,
        forall|i: int| 0 <= i < entries.len() ==> is_storable(#[trigger] entries[i]),
    ensures
        ({
            let whole = log.take(valid_len(log) as int) + log_bytes(entries);
            &&& log_entries(whole) == Ok::<_, u8>(log_entries(log)->Ok_0 + entries)
            &&& replayed(start, log_entries(whole)->Ok_0) == replayed(
                replayed(start, log_entries(log)->Ok_0),
                entries,
            )
        }),
{
    let none = Seq::<u8>::empty();
    law_records_follow_the_valid_prefix(log, log_bytes(entries));
    law_log_roundtrip(entries, none);
    assert(log_bytes(entries) + none =~= log_bytes(entries));
    assert(entries + Seq::<LogEntry>::empty() =~= entries);
    lemma_replayed_add(start, log_entries(log)->Ok_0, entries);
}

/// Operations one after the other.
proof fn lemma_replayed_add(
    start: Map<Seq<u8>, Seq<u8>>,
    a: Seq<LogEntry>,
    b: Seq<LogEntry>,
)
    ensures
        replayed(start, a + b) == replayed(replayed(start, a), b),
    decreases b.len(),
{
    if b.len() == 0 {
        assert(a + b =~= a);
    } else {
        lemma_replayed_add(start, a, b.drop_last());
        assert((a + b).drop_last() =~= a + b.drop_last());
    }
}

} // verus!
