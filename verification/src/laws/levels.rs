//! What the levels of tables promise: how tables are named and listed, which of them
//! are merged, and what the merge keeps.

use vstd::prelude::*;

use crate::lsm::compaction::{
    compact_level, compaction_sources, decoded, is_added, is_overfull, maybe_compact, merge_inputs,
    reached_by, reaches, without, Compacted, Compaction, CompactionStep, TableChange,
};
use crate::lsm::manifest::{
    depth_for, filled_levels, is_leftover, is_newest_id, is_path_of_leftover, issued_for, join_path,
    lemma_bounds, lemma_filtered, lemma_kept, not_listed, parse_table_name, table_name, tables_of,
    Manifest,
};
use crate::lsm::merge::{law_merge_keeps_the_newest, merged, newest};
use crate::lsm::pairs::{has_key, key_sorted, lemma_lex, lemma_pair_map, lex_lt, pair_map};
use crate::lsm::sstable::reader::{block_entries, first_entry, lemma_entry_shrinks, IndexEntry};
use crate::lsm::sstable::{table_bytes, FormatError, SsTableMeta};
use crate::lsm::text::{decimal, padded_decimal};

use super::keys::{is_alphabetical, law_byte_order_is_alphabetical};

verus! {

/// The key ranges of the tables have keys in common or touch.
pub open spec fn overlaps(a: SsTableMeta, b: SsTableMeta) -> bool {
    is_alphabetical(a.min_key@, b.max_key@) && is_alphabetical(b.min_key@, a.max_key@)
}

/// The name of a table file: its level, and its number with at least six digits.
pub open spec fn is_table_name(name: Seq<char>, level: Seq<char>, id: Seq<char>) -> bool {
    name == seq!['L'] + level + seq!['_'] + id + seq!['.', 's', 's', 't']
}

/// The name is made of the two numbers.
pub proof fn lemma_name(level: u64, id: u64, l: String, i: String)
    requires
        call_ensures(decimal, (level,), l),
        call_ensures(padded_decimal, (id, 6usize), i),
    ensures
        is_table_name(table_name(level as nat, id as nat), l@, i@),
{
    reveal_strlit("L");
    reveal_strlit("_");
    reveal_strlit(".sst");
    assert("L"@ =~= seq!['L']);
    assert("_"@ =~= seq!['_']);
    assert(".sst"@ =~= seq!['.', 's', 's', 't']);
}

/// A path is the directory and the name with one slash between them, unless the
/// directory is empty or ends with a slash.
pub proof fn law_paths_have_one_slash(dir: &str, name: &str, r: String)
    requires
        call_ensures(join_path, (dir, name), r),
    ensures
        r@ == if dir@.len() == 0 || dir@[dir@.len() - 1] == '/' {
            dir@ + name@
        } else {
            dir@ + seq!['/'] + name@
        },
{
    assert(dir@.push('/') =~= dir@ + seq!['/']);
}

/// A new table gets the next number, and a path in the directory that is made of the
/// level and this number. The number after it goes to the next table.
pub proof fn law_tables_are_numbered(
    m: &mut Manifest,
    level: usize,
    r: (u64, String),
    after: &mut Manifest,
    next: (u64, String),
    dir: &str,
    l: String,
    i: String,
    name: &str,
    path: String,
)
    requires
        call_ensures(Manifest::next_sstable_path, (m, level), r),
        *old(after) == *final(m),
        call_ensures(Manifest::next_sstable_path, (after, level), next),
        call_ensures(Manifest::dir, (&*old(m),), dir),
        call_ensures(decimal, (level as u64,), l),
        call_ensures(padded_decimal, (r.0, 6usize), i),
        is_table_name(name@, l@, i@),
        call_ensures(join_path, (dir, name), path),
    ensures
        r.1@ == path@,
        r.0 < u64::MAX ==> next.0 == r.0 + 1,
        final(m)@ == old(m)@,
{
    lemma_name(level as u64, r.0, l, i);
}

/// A name is that of a table exactly if it is made of the level and the number that it
/// is read as.
pub proof fn law_table_names_are_read(
    name: &str,
    r: Option<(usize, u64)>,
    level: usize,
    id: u64,
    l: String,
    i: String,
)
    requires
        call_ensures(parse_table_name, (name,), r),
        call_ensures(decimal, (level as u64,), l),
        call_ensures(padded_decimal, (id, 6usize), i),
    ensures
        is_table_name(name@, l@, i@) <==> r == Some((level, id)),
{
    lemma_name(level as u64, id, l, i);
    assert(is_table_name(table_name(level as nat, id as nat), l@, i@));
    if is_table_name(name@, l@, i@) {
        assert(name@ == table_name(level as nat, id as nat));
        if let Some((other, n)) = r {
            crate::lsm::manifest::law_table_names_are_unique(
                level as nat,
                id as nat,
                other as nat,
                n as nat,
            );
        }
    }
}

/// A new manifest has the given number of levels without tables, and starts to number
/// tables with zero.
pub proof fn law_new_manifests_are_empty(
    dir: &str,
    num_levels: usize,
    r: Manifest,
    depth: usize,
    level: usize,
    tables: &[SsTableMeta],
    filled: usize,
    back: &str,
)
    requires
        call_ensures(Manifest::new, (dir, num_levels), r),
        call_ensures(Manifest::depth, (&r,), depth),
        call_ensures(Manifest::level, (&r, level), tables),
        call_ensures(Manifest::num_levels, (&r,), filled),
        call_ensures(Manifest::dir, (&r,), back),
    ensures
        depth == num_levels,
        tables@.len() == 0,
        filled == 0,
        back@ == dir@,
        r.next_id() == 0,
{
    lemma_filled(r@, r@.len());
    assert(forall|l: int| 0 <= l < r@.len() ==> (#[trigger] r@[l]).len() == 0);
    assert(Set::new(|l: int| 0 <= l < r@.len() && r@[l].len() > 0) =~= Set::empty());
}

/// The levels with tables are counted.
proof fn lemma_filled(levels: Seq<Seq<SsTableMeta>>, n: nat)
    requires
        n <= levels.len(),
    ensures
        Set::new(|l: int| 0 <= l < n && levels[l].len() > 0).finite(),
        Set::new(|l: int| 0 <= l < n && levels[l].len() > 0).len() == filled_levels(levels, n),
    decreases n,
{
    let a = Set::new(|l: int| 0 <= l < n && levels[l].len() > 0);
    if n == 0 {
        assert(a =~= Set::empty());
    } else {
        let b = Set::new(|l: int| 0 <= l < n - 1 && levels[l].len() > 0);
        lemma_filled(levels, (n - 1) as nat);
        assert(b =~= Set::new(|l: int| 0 <= l < (n - 1) as nat && levels[l].len() > 0));
        if levels[n - 1].len() > 0 {
            assert(a =~= b.insert(n - 1));
        } else {
            assert(a =~= b);
        }
    }
}

/// The tables of a manifest are those of its levels, and there are none beyond.
pub proof fn law_levels_are_listed(
    m: &Manifest,
    all: Vec<(usize, &[SsTableMeta])>,
    depth: usize,
    level: usize,
    tables: &[SsTableMeta],
    count: usize,
    filled: usize,
)
    requires
        call_ensures(Manifest::levels, (m,), all),
        call_ensures(Manifest::depth, (m,), depth),
        call_ensures(Manifest::level, (m, level), tables),
        call_ensures(Manifest::level_count, (m, level), count),
        call_ensures(Manifest::num_levels, (m,), filled),
    ensures
        all@.len() == depth,
        level < depth ==> all@[level as int].0 == level && all@[level as int].1@ == tables@,
        level >= depth ==> tables@.len() == 0,
        count == tables@.len(),
        filled == Set::new(|l: int| 0 <= l < depth && all@[l].1@.len() > 0).len(),
{
    lemma_filled(m@, m@.len());
    assert(Set::new(|l: int| 0 <= l < depth && all@[l].1@.len() > 0) =~= Set::new(
        |l: int| 0 <= l < m@.len() && m@[l].len() > 0,
    ));
}

/// A table is added in front of those of its level.
pub proof fn law_added_tables_come_first(
    m: &mut Manifest,
    meta: SsTableMeta,
    level: usize,
    before: &[SsTableMeta],
    after: &[SsTableMeta],
)
    requires
        meta.level < usize::MAX,
        call_ensures(Manifest::add, (m, meta), ()),
        call_ensures(Manifest::level, (&*old(m), level), before),
        call_ensures(Manifest::level, (&*final(m), level), after),
    ensures
        level == meta.level ==> after@ == seq![meta] + before@,
        level != meta.level ==> after@ == before@,
        final(m).next_id() == old(m).next_id(),
{
    let l = level as int;
    if l < final(m)@.len() {
        assert(final(m)@[l] == if l == meta.level {
            seq![meta] + old(m).tables_at(l)
        } else {
            old(m).tables_at(l)
        });
    }
}

/// Tables are removed by their numbers, from one level. The others stay in order.
pub proof fn law_removed_tables_are_gone(
    m: &mut Manifest,
    from: usize,
    ids: &[u64],
    level: usize,
    before: &[SsTableMeta],
    after: &[SsTableMeta],
)
    requires
        call_ensures(Manifest::remove, (m, from, ids), ()),
        call_ensures(Manifest::level, (&*old(m), level), before),
        call_ensures(Manifest::level, (&*final(m), level), after),
    ensures
        level != from ==> after@ == before@,
        level == from ==> {
            &&& forall|i: int|
                0 <= i < after@.len() ==> before@.contains(#[trigger] after@[i]) && !ids@.contains(
                    after@[i].id,
                )
            &&& forall|i: int|
                0 <= i < before@.len() && !ids@.contains((#[trigger] before@[i]).id)
                    ==> after@.contains(before@[i])
            &&& after@.len() <= before@.len()
        },
        final(m).next_id() == old(m).next_id(),
{
    if level == from && (level as int) < old(m)@.len() {
        let p = not_listed(ids@);
        assert(after@ == before@.filter(p));
        assert forall|i: int| 0 <= i < after@.len() implies before@.contains(
            #[trigger] after@[i],
        ) && !ids@.contains(after@[i].id) by {
            let at = lemma_filtered(before@, p, i, i);
            assert(before@[at.0] == after@[i]);
            before@.lemma_filter_pred(p, i);
        }
        assert forall|i: int|
            0 <= i < before@.len() && !ids@.contains(
                (#[trigger] before@[i]).id,
            ) implies after@.contains(before@[i]) by {
            let at = lemma_kept(before@, p, i);
            assert(after@[at] == before@[i]);
        }
        before@.lemma_filter_len(p);
    }
}

/// Tables that keep their level after a removal keep their order.
pub proof fn law_removals_keep_the_order(
    m: &mut Manifest,
    level: usize,
    ids: &[u64],
    before: &[SsTableMeta],
    after: &[SsTableMeta],
    i: int,
    j: int,
)
    requires
        call_ensures(Manifest::remove, (m, level, ids), ()),
        call_ensures(Manifest::level, (&*old(m), level), before),
        call_ensures(Manifest::level, (&*final(m), level), after),
        0 <= i < j < after@.len(),
    ensures
        exists|x: int, y: int|
            0 <= x < y < before@.len() && #[trigger] before@[x] == after@[i]
                && #[trigger] before@[y] == after@[j],
{
    if (level as int) < old(m)@.len() {
        let at = lemma_filtered(before@, not_listed(ids@), i, j);
        assert(before@[at.0] == after@[i] && before@[at.1] == after@[j]);
    }
}

/// A table takes up a number that was given out after those of all tables.
pub proof fn law_newest_numbers_are_told(m: &Manifest, id: u64, r: bool, l: int, i: int)
    requires
        m.wf(),
        m.issued() <= u64::MAX,
        call_ensures(Manifest::is_newest, (m, id), r),
        0 <= l < m@.len(),
        0 <= i < m@[l].len(),
    ensures
        r ==> id < m.next_id() && m@[l][i].id < id,
        !r ==> id >= m.next_id() || exists|x: int, y: int|
            0 <= x < m@.len() && 0 <= y < m@[x].len() && (#[trigger] m@[x][y]).id >= id,
{
    if r {
        assert(is_newest_id(m@, m.issued(), id));
        assert(m@[l][i].id < id);
    }
}

/// Tables that were found are loaded unless two share a number or one has an improper
/// key range. The next number is above all of theirs.
pub proof fn law_found_tables_are_loaded(
    dir: &str,
    num_levels: usize,
    tables: Vec<SsTableMeta>,
    r: Option<(Manifest, Vec<String>)>,
    i: int,
    j: int,
)
    requires
        call_ensures(Manifest::load, (dir, num_levels, tables), r),
        0 <= i < tables@.len(),
        0 <= j < tables@.len(),
        forall|x: int| 0 <= x < tables@.len() ==> (#[trigger] tables@[x]).level < usize::MAX,
    ensures
        r is Some ==> is_alphabetical(tables@[i].min_key@, tables@[i].max_key@) && (i != j
            ==> tables@[i].id != tables@[j].id),
        r is None ==> exists|x: int, y: int|
            0 <= x < tables@.len() && 0 <= y < tables@.len() && (x != y && (
            #[trigger] tables@[x]).id == (#[trigger] tables@[y]).id || !is_alphabetical(
                tables@[x].min_key@,
                tables@[x].max_key@,
            )),
        r matches Some((m, _)) ==> m@.len() >= num_levels && tables@[i].level < m@.len() && (
        tables@[i].id < u64::MAX && m.issued() <= u64::MAX ==> tables@[i].id < m.next_id()),
{
    law_byte_order_is_alphabetical(tables@[i].min_key@, tables@[i].max_key@);
    if let Some((m, _)) = r {
        lemma_bounds(tables@, num_levels as nat, i);
        lemma_depth(tables@, num_levels as nat);
        if i < j {
            assert(tables@[i].id != tables@[j].id);
        } else if j < i {
            assert(tables@[j].id != tables@[i].id);
        }
    } else {
        if forall|x: int|
            0 <= x < tables@.len() ==> crate::key::lex_le(
                (#[trigger] tables@[x]).min_key@,
                tables@[x].max_key@,
            ) {
            let (x, y) = choose|x: int, y: int|
                0 <= x < y < tables@.len() && (#[trigger] tables@[x]).id == (
                #[trigger] tables@[y]).id;
            assert(tables@[x].id == tables@[y].id);
        } else {
            let x = choose|x: int|
                0 <= x < tables@.len() && !crate::key::lex_le(
                    (#[trigger] tables@[x]).min_key@,
                    tables@[x].max_key@,
                );
            law_byte_order_is_alphabetical(tables@[x].min_key@, tables@[x].max_key@);
            assert(tables@[x].id == tables@[x].id);
        }
    }
}

/// Loaded tables make no more levels and use up no more numbers than needed: without
/// tables numbers start with zero, and otherwise the next number follows that of a
/// table. There are more levels than asked for only if a table is in the last one.
pub proof fn law_loading_skips_no_numbers(
    dir: &str,
    num_levels: usize,
    tables: Vec<SsTableMeta>,
    r: Option<(Manifest, Vec<String>)>,
)
    requires
        call_ensures(Manifest::load, (dir, num_levels, tables), r),
    ensures
        r matches Some((m, _)) ==> {
            &&& m.issued() == 0 || exists|i: int|
                0 <= i < tables@.len() && (#[trigger] tables@[i]).id + 1 == m.issued()
            &&& m@.len() == num_levels || exists|i: int|
                0 <= i < tables@.len() && (#[trigger] tables@[i]).level + 1 == m@.len()
            &&& m.issued() <= u64::MAX ==> m.next_id() == m.issued()
        },
{
    lemma_depth(tables@, num_levels as nat);
    lemma_issued(tables@);
}

/// There are at least as many levels as asked for, and more only for a table.
proof fn lemma_depth(tables: Seq<SsTableMeta>, n: nat)
    ensures
        depth_for(tables, n) >= n,
        depth_for(tables, n) == n || exists|i: int|
            0 <= i < tables.len() && (#[trigger] tables[i]).level + 1 == depth_for(tables, n),
    decreases tables.len(),
{
    if tables.len() > 0 {
        let rest = tables.drop_last();
        lemma_depth(rest, n);
        if tables.last().level >= depth_for(rest, n) {
            assert(tables[tables.len() - 1].level + 1 == depth_for(tables, n));
        } else if depth_for(rest, n) != n {
            let i = choose|i: int|
                0 <= i < rest.len() && (#[trigger] rest[i]).level + 1 == depth_for(rest, n);
            assert(tables[i].level + 1 == depth_for(tables, n));
        }
    }
}

/// The numbers that were given out end with that of a table.
proof fn lemma_issued(tables: Seq<SsTableMeta>)
    ensures
        issued_for(tables) == 0 || exists|i: int|
            0 <= i < tables.len() && (#[trigger] tables[i]).id + 1 == issued_for(tables),
    decreases tables.len(),
{
    if tables.len() > 0 {
        let rest = tables.drop_last();
        lemma_issued(rest);
        if tables.last().id >= issued_for(rest) {
            assert(tables[tables.len() - 1].id + 1 == issued_for(tables));
        } else {
            let i = choose|i: int|
                0 <= i < rest.len() && (#[trigger] rest[i]).id + 1 == issued_for(rest);
            assert(tables[i].id + 1 == issued_for(tables));
        }
    }
}

/// A table of the first level is loaded. A table of another level is loaded unless it
/// overlaps one of its level with a higher number: then its file is left over. Within a
/// level, higher numbers come first.
pub proof fn law_replaced_tables_are_left_over(
    dir: &str,
    num_levels: usize,
    tables: Vec<SsTableMeta>,
    r: Option<(Manifest, Vec<String>)>,
    i: int,
    level: usize,
    here: &[SsTableMeta],
)
    requires
        call_ensures(Manifest::load, (dir, num_levels, tables), r),
        r is Some,
        0 <= i < tables@.len(),
        tables@[i].level == level,
        r matches Some((m, _)) ==> call_ensures(Manifest::level, (&m, level), here),
    ensures
        ({
            let t = tables@[i];
            let replaced = level > 0 && exists|x: int|
                0 <= x < tables@.len() && (#[trigger] tables@[x]).level == level && tables@[x].id
                    > t.id && overlaps(tables@[x], t);
            &&& here@.contains(t) <==> !replaced
            &&& replaced ==> {
                let (_, leftovers) = r->0;
                exists|x: int| 0 <= x < leftovers@.len() && (#[trigger] leftovers@[x])@ == t.path@
            }
        }),
        forall|x: int, y: int|
            0 <= x < y < here@.len() ==> (#[trigger] here@[x]).id > (#[trigger] here@[y]).id,
        forall|x: int|
            0 <= x < here@.len() ==> tables@.contains(#[trigger] here@[x]) && here@[x].level
                == level,
{
    let t = tables@[i];
    let (m, leftovers) = r->0;
    lemma_bounds(tables@, num_levels as nat, i);
    assert(tables@.contains(t));
    assert(m@[level as int].contains(t) <==> !is_leftover(tables@, t));
    assert(crate::lsm::manifest::newest_first(m@[level as int]));
    assert forall|x: int| 0 <= x < tables@.len() implies overlaps(#[trigger] tables@[x], t)
        == !crate::lsm::manifest::is_apart(tables@[x], t) by {
        let u = tables@[x];
        law_byte_order_is_alphabetical(u.min_key@, t.max_key@);
        law_byte_order_is_alphabetical(t.min_key@, u.max_key@);
        lemma_lex(u.max_key@, t.min_key@, u.max_key@);
        lemma_lex(t.max_key@, u.min_key@, t.max_key@);
    }
    if is_leftover(tables@, t) {
        let x = choose|x: int|
            0 <= x < tables@.len() && (#[trigger] tables@[x]).level == t.level && tables@[x].id
                > t.id && !crate::lsm::manifest::is_apart(tables@[x], t);
        assert(overlaps(tables@[x], t));
        let paths = leftovers@.map_values(|s: String| s@);
        assert(is_path_of_leftover(tables@, tables@.len() as int, t.path@));
        assert(paths.contains(t.path@));
        let y = choose|y: int| 0 <= y < paths.len() && paths[y] == t.path@;
        assert(leftovers@[y]@ == t.path@);
    }
    assert forall|x: int| 0 <= x < here@.len() implies tables@.contains(#[trigger] here@[x])
        && here@[x].level == level by {
        assert(m@[level as int].contains(here@[x]));
    }
}

/// A level is compacted if it has more than four tables, the first such level first.
pub proof fn law_full_levels_are_compacted(
    m: &Manifest,
    from: usize,
    r: Option<usize>,
    level: usize,
    count: usize,
)
    requires
        call_ensures(maybe_compact, (m, from), r),
        call_ensures(Manifest::level_count, (m, level), count),
        from <= level,
    ensures
        r == Some(level) ==> count > 4,
        r is None ==> count <= 4,
        r matches Some(l) ==> from <= l && (level < l ==> count <= 4),
        count > 4 ==> r is Some && r->0 <= level,
{
    let l = level as int;
    assert(is_overfull(*m, l) <==> count > 4);
    if r is None {
        assert(!is_overfull(*m, l));
    }
    if r is Some && level < r->0 {
        assert(!is_overfull(*m, l));
    }
}

/// The tables that are merged, oldest first: the last ones are those of the level, and
/// the others are those of the next level that are not beyond all of them.
pub proof fn law_merges_take_what_they_reach(
    m: &Manifest,
    level: usize,
    r: Vec<SsTableMeta>,
    here: &[SsTableMeta],
    next_level: usize,
    next: &[SsTableMeta],
)
    requires
        level < usize::MAX,
        next_level == level + 1,
        call_ensures(compaction_sources, (m, level), r),
        call_ensures(Manifest::level, (m, level), here),
        call_ensures(Manifest::level, (m, next_level), next),
    ensures
        r@.len() >= here@.len(),
        forall|i: int|
            0 <= i < here@.len() ==> (#[trigger] here@[i]).same(r@[r@.len() - 1 - i]) || r@[
            r@.len() - 1 - i].same(here@[i]),
        forall|i: int|
            0 <= i < next@.len() && is_within_reach(#[trigger] next@[i], here@) ==> exists|x: int|
                0 <= x < r@.len() - here@.len() && (#[trigger] r@[x]).same(next@[i]),
        forall|x: int|
            0 <= x < r@.len() - here@.len() ==> is_reached_one(#[trigger] r@[x], next@, here@),
{
    let p = reached_by(here@);
    let f = next@.filter(p);
    let inputs = merge_inputs(m@, level as int);
    assert(inputs == here@ + f);
    assert forall|i: int| 0 <= i < next@.len() implies is_within_reach(
        #[trigger] next@[i],
        here@,
    ) == p(next@[i]) by {
        lemma_reach(next@[i], here@);
    }
    assert forall|i: int| 0 <= i < here@.len() implies r@[r@.len() - 1 - i].same(
        #[trigger] here@[i],
    ) by {
        assert(inputs[i] == here@[i]);
        assert(r@[r@.len() - 1 - i].same(inputs[r@.len() - 1 - (r@.len() - 1 - i)]));
    }
    assert forall|i: int|
        0 <= i < next@.len() && is_within_reach(#[trigger] next@[i], here@) implies exists|x: int|
        0 <= x < r@.len() - here@.len() && (#[trigger] r@[x]).same(next@[i]) by {
        let at = lemma_kept(next@, p, i);
        let x = r@.len() - 1 - (here@.len() + at);
        assert(r@[x].same(inputs[r@.len() - 1 - x]));
        assert(inputs[here@.len() + at] == f[at]);
    }
    assert forall|x: int| 0 <= x < r@.len() - here@.len() implies is_reached_one(
        #[trigger] r@[x],
        next@,
        here@,
    ) by {
        let y = r@.len() - 1 - x - here@.len();
        let at = lemma_filtered(next@, p, y, y);
        next@.lemma_filter_pred(p, y);
        assert(inputs[here@.len() + y] == f[y]);
        assert(r@[x].same(inputs[r@.len() - 1 - x]));
        assert(r@[x].same(next@[at.0]));
        assert(is_within_reach(next@[at.0], here@));
    }
}

/// The table does not end before all of the others, nor start after all of them.
pub open spec fn is_within_reach(m: SsTableMeta, tables: Seq<SsTableMeta>) -> bool {
    &&& exists|i: int|
        0 <= i < tables.len() && is_alphabetical((#[trigger] tables[i]).min_key@, m.max_key@)
    &&& exists|i: int|
        0 <= i < tables.len() && is_alphabetical(m.min_key@, (#[trigger] tables[i]).max_key@)
}

/// The table is one of those of the next level that are within reach.
pub open spec fn is_reached_one(
    m: SsTableMeta,
    next: Seq<SsTableMeta>,
    tables: Seq<SsTableMeta>,
) -> bool {
    exists|i: int|
        0 <= i < next.len() && m.same(#[trigger] next[i]) && is_within_reach(next[i], tables)
}

/// Reaching is what it says.
proof fn lemma_reach(m: SsTableMeta, tables: Seq<SsTableMeta>)
    ensures
        is_within_reach(m, tables) == reaches(tables, m),
{
    assert forall|i: int| 0 <= i < tables.len() implies is_alphabetical(
        (#[trigger] tables[i]).min_key@,
        m.max_key@,
    ) == !lex_lt(m.max_key@, tables[i].min_key@) && is_alphabetical(m.min_key@, tables[i].max_key@)
        == !lex_lt(tables[i].max_key@, m.min_key@) by {
        let t = tables[i];
        law_byte_order_is_alphabetical(t.min_key@, m.max_key@);
        law_byte_order_is_alphabetical(m.min_key@, t.max_key@);
        lemma_lex(m.max_key@, t.min_key@, m.max_key@);
        lemma_lex(t.min_key@, m.max_key@, t.min_key@);
        lemma_lex(t.max_key@, m.min_key@, t.max_key@);
        lemma_lex(m.min_key@, t.max_key@, m.min_key@);
    }
    if reaches(tables, m) {
        let i = choose|i: int|
            0 <= i < tables.len() && !lex_lt(m.max_key@, (#[trigger] tables[i]).min_key@);
        let j = choose|j: int|
            0 <= j < tables.len() && !lex_lt((#[trigger] tables[j]).max_key@, m.min_key@);
        assert(is_alphabetical(tables[i].min_key@, m.max_key@));
        assert(is_alphabetical(m.min_key@, tables[j].max_key@));
    }
    if is_within_reach(m, tables) {
        let i = choose|i: int|
            0 <= i < tables.len() && is_alphabetical((#[trigger] tables[i]).min_key@, m.max_key@);
        let j = choose|j: int|
            0 <= j < tables.len() && is_alphabetical(m.min_key@, (#[trigger] tables[j]).max_key@);
        assert(!lex_lt(m.max_key@, tables[i].min_key@));
        assert(!lex_lt(tables[j].max_key@, m.min_key@));
    }
}

/// A compaction is started exactly if its level has tables. Its table gets the next
/// number and goes to the next level. Marks of deleted keys are left out only if no
/// level comes after that one.
pub proof fn law_compactions_go_one_level_down(
    m: &mut Manifest,
    level: usize,
    indexes: Vec<Vec<IndexEntry>>,
    r: Option<Compaction>,
    here: &[SsTableMeta],
    sources: Vec<SsTableMeta>,
    dir: &str,
    l: String,
    n: String,
    name: &str,
    path: String,
    at: &str,
    depth: usize,
)
    requires
        level < usize::MAX,
        call_ensures(compact_level, (m, level, indexes), r),
        call_ensures(Manifest::level, (&*old(m), level), here),
        call_ensures(Manifest::depth, (&*old(m),), depth),
        call_ensures(compaction_sources, (&*old(m), level), sources),
        call_ensures(Manifest::dir, (&*old(m),), dir),
        call_ensures(decimal, ((level + 1) as u64,), l),
        call_ensures(padded_decimal, (old(m).next_id(), 6usize), n),
        is_table_name(name@, l@, n@),
        call_ensures(join_path, (dir, name), path),
        r matches Some(c) ==> call_ensures(Compaction::table_path, (&c,), at),
    ensures
        r is Some <==> here@.len() > 0,
        final(m)@ == old(m)@,
        r matches Some(c) ==> {
            &&& c.level() == level
            &&& c.id() == old(m).next_id()
            &&& at@ == path@
            &&& c.drops_tombstones() <==> level + 2 >= depth
            &&& c.width() == sources@.len()
            &&& c.old_ids().len() == sources@.len()
            &&& forall|i: int|
                0 <= i < sources@.len() ==> #[trigger] c.old_ids()[i] == sources@[i].id
                    && c.old_paths()[i] == sources@[i].path@
            &&& c.entries().len() == 0
        },
{
    lemma_name((level + 1) as u64, old(m).next_id(), l, n);
    if let Some(c) = r {
        assert(here@.len() > 0);
        let inputs = merge_inputs(old(m)@, level as int);
        assert forall|i: int| 0 <= i < sources@.len() implies #[trigger] c.old_ids()[i]
            == sources@[i].id && c.old_paths()[i] == sources@[i].path@ by {
            assert(sources@[i].same(inputs[sources@.len() - 1 - i]));
            assert(c.old_ids()[i] == c.input(i).id);
            assert(c.old_paths()[i] == c.input(i).path@);
        }
    }
}

/// A source has the key at position `j`, and no newer source has it.
pub open spec fn is_newest_at(
    sources: Seq<Seq<(Seq<u8>, Seq<u8>)>>,
    key: Seq<u8>,
    i: int,
    j: int,
) -> bool {
    &&& 0 <= i < sources.len()
    &&& 0 <= j < sources[i].len()
    &&& sources[i][j].0 == key
    &&& forall|x: int, y: int|
        i < x < sources.len() && 0 <= y < sources[x].len() ==> (#[trigger] sources[x][y]).0 != key
}

/// The newest value is that of the newest source.
proof fn lemma_newest(
    sources: Seq<Seq<(Seq<u8>, Seq<u8>)>>,
    key: Seq<u8>,
    i: int,
    j: int,
)
    requires
        is_newest_at(sources, key, i, j),
        key_sorted(sources[i]),
    ensures
        newest(sources, key) == Some(sources[i][j].1),
    decreases sources.len(),
{
    let last = sources.last();
    let n = sources.len() - 1;
    if i == n {
        assert(last[j].0 == key);
        lemma_pair_map(last);
        assert(has_key(last, key));
        assert(pair_map(last)[last[j].0] == last[j].1);
    } else {
        if has_key(last, key) {
            let y = choose|y: int| 0 <= y < last.len() && (#[trigger] last[y]).0 == key;
            assert(sources[n][y].0 == key);
        }
        let rest = sources.drop_last();
        assert(is_newest_at(rest, key, i, j)) by {
            assert forall|x: int, y: int|
                i < x < rest.len() && 0 <= y < rest[x].len() implies (#[trigger] rest[x][y]).0
                != key by {
                assert(sources[x][y].0 != key);
            }
        }
        lemma_newest(rest, key, i, j);
    }
}

/// Without the key there is no newest value.
proof fn lemma_no_newest(sources: Seq<Seq<(Seq<u8>, Seq<u8>)>>, key: Seq<u8>)
    requires
        newest(sources, key) is Some,
    ensures
        exists|x: int, y: int|
            0 <= x < sources.len() && 0 <= y < sources[x].len() && (#[trigger] sources[x][y]).0
                == key,
    decreases sources.len(),
{
    let last = sources.last();
    let n = sources.len() - 1;
    if has_key(last, key) {
        let y = choose|y: int| 0 <= y < last.len() && (#[trigger] last[y]).0 == key;
        assert(sources[n][y].0 == key);
    } else {
        let rest = sources.drop_last();
        lemma_no_newest(rest, key);
        let (x, y) = choose|x: int, y: int|
            0 <= x < rest.len() && 0 <= y < rest[x].len() && (#[trigger] rest[x][y]).0 == key;
        assert(sources[x][y].0 == key);
    }
}

/// What a finished merge has written: for each key the value of the newest source that
/// has it, in alphabetical order, and no other pairs. A mark of a deleted key is left
/// out where marks are dropped.
pub proof fn law_merges_keep_the_newest_values(
    c: &mut Compaction,
    r: core::result::Result<CompactionStep, FormatError>,
    sources: Seq<Seq<(Seq<u8>, Seq<u8>)>>,
    key: Seq<u8>,
    i: int,
    j: int,
)
    requires
        call_ensures(Compaction::step, (c,), r),
        r matches Ok(CompactionStep::Done),
        sources.len() == final(c).width(),
        forall|x: int|
            0 <= x < sources.len() ==> decoded(final(c).supplied(x)) == Some(
                #[trigger] sources[x],
            ) && key_sorted(sources[x]),
        is_newest_at(sources, key, i, j),
    ensures
        sources[i][j].1.len() > 0 || !final(c).drops_tombstones() ==> exists|o: int|
            0 <= o < final(c).entries().len() && #[trigger] final(c).entries()[o] == (
                key,
                sources[i][j].1,
            ),
        sources[i][j].1.len() == 0 && final(c).drops_tombstones() ==> forall|o: int|
            0 <= o < final(c).entries().len() ==> (#[trigger] final(c).entries()[o]).0 != key,
{
    let drops = final(c).drops_tombstones();
    let all = Seq::new(final(c).width(), |x: int| decoded(final(c).supplied(x))->0);
    assert(all =~= sources);
    let out = final(c).entries();
    assert(out == merged(sources, None, drops));
    law_merge_keeps_the_newest(sources, drops);
    assert(key_sorted(sources[i]));
    lemma_newest(sources, key, i, j);
    lemma_pair_map(out);
    if sources[i][j].1.len() > 0 || !drops {
        assert(pair_map(out).dom().contains(key));
        assert(has_key(out, key));
        let o = choose|o: int| 0 <= o < out.len() && (#[trigger] out[o]).0 == key;
        assert(pair_map(out)[out[o].0] == out[o].1);
        assert(final(c).entries()[o] == (key, sources[i][j].1));
        assert(exists|o: int|
            0 <= o < final(c).entries().len() && #[trigger] final(c).entries()[o] == (
                key,
                sources[i][j].1,
            ));
    } else {
        assert forall|o: int| 0 <= o < out.len() implies (#[trigger] out[o]).0 != key by {
            if out[o].0 == key {
                assert(has_key(out, key));
            }
        }
    }
}

/// What a finished merge has written comes from its sources, in alphabetical order, no
/// key twice.
pub proof fn law_merges_are_sorted(
    c: &mut Compaction,
    r: core::result::Result<CompactionStep, FormatError>,
    sources: Seq<Seq<(Seq<u8>, Seq<u8>)>>,
    a: int,
    b: int,
)
    requires
        call_ensures(Compaction::step, (c,), r),
        r matches Ok(CompactionStep::Done),
        sources.len() == final(c).width(),
        forall|x: int|
            0 <= x < sources.len() ==> decoded(final(c).supplied(x)) == Some(
                #[trigger] sources[x],
            ) && key_sorted(sources[x]),
        0 <= a < b < final(c).entries().len(),
    ensures
        ({
            let out = final(c).entries();
            &&& is_alphabetical(out[a].0, out[b].0)
            &&& out[a].0 != out[b].0
            &&& exists|x: int, y: int|
                0 <= x < sources.len() && 0 <= y < sources[x].len() && (
                #[trigger] sources[x][y]).0 == out[a].0
        }),
{
    let drops = final(c).drops_tombstones();
    let all = Seq::new(final(c).width(), |x: int| decoded(final(c).supplied(x))->0);
    assert(all =~= sources);
    let out = final(c).entries();
    law_merge_keeps_the_newest(sources, drops);
    assert(lex_lt(out[a].0, out[b].0));
    law_byte_order_is_alphabetical(out[a].0, out[b].0);
    assert(has_key(out, out[a].0));
    let k = out[a].0;
    assert(newest(sources, k) is Some);
    lemma_no_newest(sources, k);
}

/// The entries of blocks are those of one block after the other.
pub proof fn law_blocks_are_decoded_in_order(blocks: Seq<Seq<u8>>, block: Seq<u8>)
    ensures
        decoded(Seq::<Seq<u8>>::empty()) == Some(Seq::<(Seq<u8>, Seq<u8>)>::empty()),
        decoded(blocks.push(block)) is Some <==> decoded(blocks) is Some && block_entries(block)
            is Some,
        decoded(blocks.push(block)) is Some ==> decoded(blocks.push(block))->0 == decoded(blocks)->0
            + block_entries(block)->0,
{
    assert(blocks.push(block).drop_last() =~= blocks);
}

/// The entries of a block follow one another up to its end.
pub proof fn law_entries_are_decoded_in_order(block: Seq<u8>)
    ensures
        block.len() == 0 ==> block_entries(block) == Some(Seq::<(Seq<u8>, Seq<u8>)>::empty()),
        block.len() > 0 && first_entry(block) is None ==> block_entries(block) is None,
        first_entry(block) matches Some((e, rest)) ==> {
            &&& rest.len() < block.len()
            &&& block_entries(block) is Some <==> block_entries(rest) is Some
            &&& block_entries(block) is Some ==> block_entries(block)->0 == seq![e]
                + block_entries(rest)->0
        },
{
    lemma_entry_shrinks(block);
}

/// A merge asks for the blocks of each source in the order of its index, and ends when
/// it has all of them.
pub proof fn law_merges_ask_for_the_next_block(
    c: &mut Compaction,
    r: core::result::Result<CompactionStep, FormatError>,
    fed: &mut Compaction,
    source: usize,
    block: Vec<u8>,
    i: int,
)
    requires
        call_ensures(Compaction::step, (c,), r),
        call_ensures(Compaction::supply, (fed, source, block), ()),
        0 <= i < final(c).width(),
        0 <= i < final(fed).width(),
    ensures
        r matches Ok(CompactionStep::Read { source, offset, len }) ==> {
            let (n, index) = (final(c).supplied(i).len() as int, final(c).source_index(i));
            &&& source < final(c).width()
            &&& source == i ==> n < index.len() && offset == index[n].1 && len == index[n].2
        },
        r matches Ok(CompactionStep::Done) ==> final(c).supplied(i).len() == final(c).source_index(
            i,
        ).len(),
        final(c).supplied(i) == old(c).supplied(i),
        final(fed).supplied(i) == if i == source {
            old(fed).supplied(i).push(block@)
        } else {
            old(fed).supplied(i)
        },
        final(fed).entries() == old(fed).entries(),
{
}

/// Taking the output of a merge changes nothing but what was taken.
pub proof fn law_merge_output_is_taken(c: &mut Compaction, out: Vec<u8>)
    requires
        call_ensures(Compaction::take_output, (c,), out),
    ensures
        final(c).taken() == old(c).taken() + out@,
        final(c).entries() == old(c).entries(),
        final(c).id() == old(c).id() && final(c).level() == old(c).level(),
        final(c).old_ids() == old(c).old_ids(),
{
}

/// A finished merge hands out the rest of its file if it has entries, and the paths of
/// all tables that it merged.
pub proof fn law_finished_merges_name_their_inputs(c: Compaction, r: Compacted, i: int)
    requires
        call_ensures(Compaction::finish, (c,), r),
    ensures
        r.output is Some <==> c.entries().len() > 0,
        r.output matches Some(out) ==> c.taken() + out@ == table_bytes(c.entries(), 4096),
        r.removed@.len() == c.old_paths().len(),
        0 <= i < r.removed@.len() ==> r.removed@[i]@ == c.old_paths()[i],
        r.change.task() == c,
{
    let texts = r.removed@.map_values(|s: String| s@);
    assert(texts.len() == r.removed@.len());
    if 0 <= i < r.removed@.len() {
        assert(texts[i] == r.removed@[i]@);
    }
}

/// The table `t` of level `l` before and after a merge is done.
pub open spec fn is_replaced_at(
    c: Compaction,
    l: int,
    before: Seq<SsTableMeta>,
    after: Seq<SsTableMeta>,
    t: SsTableMeta,
) -> bool {
    let (top, low) = (c.level() as int, c.level() + 1);
    let stays = before.contains(t) && !c.old_ids().contains(t.id);
    if l != top && l != low {
        after == before
    } else if l == top || c.entries().len() == 0 {
        after.contains(t) <==> stays
    } else {
        &&& after.len() > 0
        &&& after[0].id == c.id()
        &&& after[0].level == low
        &&& after[0].path@ == c.path()
        &&& c.entries().len() <= u64::MAX ==> after[0].entry_count == c.entries().len()
        &&& after[0].min_key@ == c.entries()[0].0
        &&& after[0].max_key@ == c.entries()[c.entries().len() - 1].0
        &&& after.drop_first().contains(t) <==> stays
    }
}

/// When a merge is done, the merged tables leave their two levels, and its table comes
/// first in the lower one if it has entries. Other levels do not change.
pub proof fn law_merged_tables_are_replaced(
    change: TableChange,
    m: &mut Manifest,
    level: usize,
    before: &[SsTableMeta],
    after: &[SsTableMeta],
    t: SsTableMeta,
)
    requires
        call_ensures(TableChange::apply, (change, m), ()),
        call_ensures(Manifest::level, (&*old(m), level), before),
        call_ensures(Manifest::level, (&*final(m), level), after),
    ensures
        is_replaced_at(change.task(), level as int, before@, after@, t),
{
    lemma_finished(change.task(), old(m)@, final(m)@, level as int, t);
}

/// The tables of a level before and after a merge is done.
pub proof fn lemma_finished(
    c: Compaction,
    b: Seq<Seq<SsTableMeta>>,
    a: Seq<Seq<SsTableMeta>>,
    l: int,
    t: SsTableMeta,
)
    requires
        c.is_finished(b, a),
    ensures
        is_replaced_at(c, l, tables_of(b, l), tables_of(a, l), t),
{
    let (before, after) = (tables_of(b, l), tables_of(a, l));
    let (top, low) = (c.level() as int, c.level() + 1);
    let ids = c.old_ids();
    let one = without(b, top, ids);
    let rest = without(one, low, ids);
    assert(tables_of(rest, l) == if l == top || l == low {
        before.filter(not_listed(ids))
    } else {
        before
    }) by {
        before.lemma_filter_len(not_listed(ids));
        if !(0 <= l < b.len()) {
            assert(before.filter(not_listed(ids)) =~= before);
        }
    }
    lemma_filter_members(before, ids, t);
    let f = before.filter(not_listed(ids));
    if c.entries().len() > 0 {
        let meta = a[low][0];
        assert(is_added(rest, a, meta));
        if 0 <= l < a.len() {
            assert(a[l] == if l == meta.level {
                seq![meta] + tables_of(rest, l)
            } else {
                tables_of(rest, l)
            });
        }
        if l == low {
            assert(after.drop_first() =~= f);
        }
    }
}

/// A table stays in a list exactly if its number is not among those that leave.
proof fn lemma_filter_members(s: Seq<SsTableMeta>, ids: Seq<u64>, t: SsTableMeta)
    ensures
        s.filter(not_listed(ids)).contains(t) <==> s.contains(t) && !ids.contains(t.id),
{
    let p = not_listed(ids);
    let f = s.filter(p);
    if f.contains(t) {
        let i = choose|i: int| 0 <= i < f.len() && f[i] == t;
        let at = lemma_filtered(s, p, i, i);
        s.lemma_filter_pred(p, i);
        assert(s[at.0] == t);
    }
    if s.contains(t) && !ids.contains(t.id) {
        let i = choose|i: int| 0 <= i < s.len() && s[i] == t;
        let at = lemma_kept(s, p, i);
        assert(f[at] == t);
    }
}

} // verus!
