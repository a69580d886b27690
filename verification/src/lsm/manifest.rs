//! Manifest: tracks SSTable metadata across LSM levels.
//!
//! The manifest is an in-memory registry of all live SSTable files, organized
//! by level. Level 0 contains freshly-flushed SSTables (may have overlapping
//! key ranges). Higher levels contain merged, non-overlapping SSTables.

use vstd::prelude::*;

use super::pairs::{lemma_lex, lex_lt};
use super::sstable::SsTableMeta;
use super::text::{
    decimal, digits_text, is_digit, is_number, lemma_digits_text, lemma_zero_padded, number_of,
    padded_decimal, parse_number, zero_padded,
};
use crate::key::{bytes_le, lex_le};

verus! {

/// Name of the file of an SSTable.
pub open spec fn table_name(level: nat, id: nat) -> Seq<char> {
    "L"@ + digits_text(level, 10) + "_"@ + zero_padded(digits_text(id, 10), 6) + ".sst"@
}

/// The parts of the name of a table.
proof fn lemma_table_name(level: nat, id: nat)
    ensures
        ({
            let s = table_name(level, id);
            let d = digits_text(level, 10);
            let z = zero_padded(digits_text(id, 10), 6);
            let u = 1 + d.len() as int;
            &&& s.len() == u + 1 + z.len() + 4
            &&& s[0] == 'L'
            &&& s.subrange(1, u) == d
            &&& s[u] == '_'
            &&& s.subrange(u + 1, s.len() - 4) == z
            &&& s.skip(s.len() - 4) == ".sst"@
            &&& is_number(d)
            &&& number_of(d) == level
            &&& is_number(z)
            &&& number_of(z) == id
            &&& forall|i: int| 1 <= i < u ==> is_digit(#[trigger] s[i])
        }),
{
    reveal_strlit("L");
    reveal_strlit("_");
    reveal_strlit(".sst");
    let s = table_name(level, id);
    let d = digits_text(level, 10);
    let z = zero_padded(digits_text(id, 10), 6);
    let u = 1 + d.len() as int;
    lemma_digits_text(level);
    lemma_digits_text(id);
    lemma_zero_padded(digits_text(id, 10), 6);
    assert(s.subrange(1, u) =~= d);
    assert(s.subrange(u + 1, s.len() - 4) =~= z);
    assert(s.skip(s.len() - 4) =~= ".sst"@);
    assert forall|i: int| 1 <= i < u implies is_digit(#[trigger] s[i]) by {
        assert(s[i] == d[i - 1]);
    }
}

/// Tables with different levels or IDs have different file names.
pub proof fn law_table_names_are_unique(level: nat, id: nat, other_level: nat, other_id: nat)
    ensures
        table_name(level, id) == table_name(other_level, other_id) ==> level == other_level && id
            == other_id,
{
    let s = table_name(level, id);
    if s == table_name(other_level, other_id) {
        lemma_table_name(level, id);
        lemma_table_name(other_level, other_id);
        let u = 1 + digits_text(level, 10).len() as int;
        let v = 1 + digits_text(other_level, 10).len() as int;
        if u < v {
            assert(is_digit(s[u]));
        } else if v < u {
            assert(is_digit(s[v]));
        }
    }
}

/// The path of a file in a directory. A slash separates the two unless the path of
/// the directory is empty or ends with one.
pub open spec fn joined(dir: Seq<char>, name: Seq<char>) -> Seq<char> {
    if dir.len() == 0 || dir.last() == '/' {
        dir + name
    } else {
        dir.push('/') + name
    }
}

/// Path of the file of an SSTable.
pub open spec fn table_path(dir: Seq<char>, level: nat, id: nat) -> Seq<char> {
    joined(dir, table_name(level, id))
}

/// In a directory, tables with different levels or IDs have different paths.
pub proof fn law_table_paths_are_unique(
    dir: Seq<char>,
    level: nat,
    id: nat,
    other_level: nat,
    other_id: nat,
)
    ensures
        table_path(dir, level, id) == table_path(dir, other_level, other_id) ==> level
            == other_level && id == other_id,
{
    let (a, b) = (table_name(level, id), table_name(other_level, other_id));
    if joined(dir, a) == joined(dir, b) {
        let front = if dir.len() == 0 || dir.last() == '/' {
            dir
        } else {
            dir.push('/')
        };
        assert((front + a).skip(front.len() as int) =~= a);
        assert((front + b).skip(front.len() as int) =~= b);
    }
    law_table_names_are_unique(level, id, other_level, other_id);
}

/// The path of a file in a directory.
pub fn join_path(dir: &str, name: &str) -> (r: String)
    ensures
        r@ == joined(dir@, name@),
{
    let n: usize = dir.unicode_len();
    let mut path: String = dir.to_owned();
    if n > 0 && dir.get_char(n - 1) != '/' {
        path.append("/");
        proof {
            reveal_strlit("/");
            assert(path@ =~= dir@.push('/'));
        }
    }
    path.append(name);
    path
}

/// The name of the file of an SSTable.
fn file_name(level: usize, id: u64) -> (r: String)
    ensures
        r@ == table_name(level as nat, id as nat),
{
    let mut path: String = "L".to_owned();
    let level_text: String = decimal(level as u64);
    let id_text: String = padded_decimal(id, 6);
    path.append(level_text.as_str());
    path.append("_");
    path.append(id_text.as_str());
    path.append(".sst");
    path
}

/// Whether two texts are equal.
fn same_text(a: &str, b: &str) -> (r: bool)
    ensures
        r == (a@ == b@),
{
    let n: usize = a.unicode_len();
    if n != b.unicode_len() {
        return false;
    }
    let mut i: usize = 0;
    while i < n
        invariant
            n == a@.len(),
            n == b@.len(),
            i <= n,
            forall|j: int| 0 <= j < i ==> a@[j] == b@[j],
        decreases n - i,
    {
        if a.get_char(i) != b.get_char(i) {
            return false;
        }
        i += 1;
    }
    assert(a@ =~= b@);
    true
}

/// The level and ID that a name would have as that of a table.
fn split_name(name: &str) -> (r: Option<(usize, u64)>)
    ensures
        forall|level: usize, id: u64|
            name@ == #[trigger] table_name(level as nat, id as nat) ==> r == Some((level, id)),
{
    let n: usize = name.unicode_len();
    let mut u: usize = 1;
    while u < n && name.get_char(u) != '_'
        invariant
            n == name@.len(),
            1 <= u,
            u <= n || n == 0,
            forall|j: int| 1 <= j < u ==> name@[j] != '_',
        decreases n - u,
    {
        u += 1;
    }
    proof {
        assert forall|level: usize, id: u64|
            name@ == #[trigger] table_name(level as nat, id as nat) implies u == 1 + digits_text(
            level as nat,
            10,
        ).len() && u + 5 < n by {
            lemma_table_name(level as nat, id as nat);
            let v = 1 + digits_text(level as nat, 10).len() as int;
            if u < v {
                assert(is_digit(name@[u as int]));
            } else if v < u {
                assert(name@[v] != '_');
            }
        }
    }
    if n < 5 || u >= n - 5 {
        return None;
    }
    let level: Option<u64> = parse_number(name, 1, u);
    let id: Option<u64> = parse_number(name, u + 1, n - 4);
    proof {
        assert forall|l: usize, i: u64|
            name@ == #[trigger] table_name(l as nat, i as nat) implies level == Some(l as u64)
            && id == Some(i) by {
            lemma_table_name(l as nat, i as nat);
        }
    }
    match (level, id) {
        (Some(l), Some(i)) => if l <= usize::MAX as u64 {
            Some((l as usize, i))
        } else {
            None
        },
        _ => None,
    }
}

/// The level and ID of the table with the given file name, `None` if it is not
/// the name of a table.
pub fn parse_table_name(name: &str) -> (r: Option<(usize, u64)>)
    ensures
        match r {
            Some((level, id)) => name@ == table_name(level as nat, id as nat),
            None => forall|l: usize, n: u64|
                name@ != #[trigger] table_name(l as nat, n as nat),
        },
{
    match split_name(name) {
        Some((level, id)) => {
            let wanted: String = file_name(level, id);
            if same_text(name, wanted.as_str()) {
                Some((level, id))
            } else {
                None
            }
        },
        None => None,
    }
}

/// The test for tables that are not in a list of IDs.
pub open spec fn not_listed(ids: Seq<u64>) -> spec_fn(SsTableMeta) -> bool {
    |m: SsTableMeta| !ids.contains(m.id)
}

/// Number of non-empty levels among the first `n`.
pub open spec fn filled_levels(levels: Seq<Seq<SsTableMeta>>, n: nat) -> nat
    decreases n,
{
    if n == 0 {
        0
    } else {
        filled_levels(levels, (n - 1) as nat) + (if levels[n - 1].len() > 0 {
            1nat
        } else {
            0
        })
    }
}

/// The tables of a level, none if there is no such level.
pub open spec fn tables_of(levels: Seq<Seq<SsTableMeta>>, level: int) -> Seq<SsTableMeta> {
    if 0 <= level < levels.len() {
        levels[level]
    } else {
        Seq::empty()
    }
}

/// No table of the levels has the ID.
pub open spec fn is_new_id(levels: Seq<Seq<SsTableMeta>>, id: u64) -> bool {
    forall|l: int, i: int|
        0 <= l < levels.len() && 0 <= i < levels[l].len() ==> (#[trigger] levels[l][i]).id != id
}

/// The key ranges of the tables do not overlap.
pub open spec fn is_apart(a: SsTableMeta, b: SsTableMeta) -> bool {
    lex_lt(a.max_key@, b.min_key@) || lex_lt(b.max_key@, a.min_key@)
}

/// The IDs of the tables of the levels are distinct and below `issued`.
pub open spec fn is_numbered(levels: Seq<Seq<SsTableMeta>>, issued: nat) -> bool {
    &&& forall|l: int, i: int|
        0 <= l < levels.len() && 0 <= i < levels[l].len() ==> (#[trigger] levels[l][i]).id < issued
    &&& forall|l: int, i: int, k: int, j: int|
        0 <= l < levels.len() && 0 <= i < levels[l].len() && 0 <= k < levels.len() && 0 <= j
            < levels[k].len() && (l != k || i != j) ==> (#[trigger] levels[l][i]).id
            != (#[trigger] levels[k][j]).id
}

/// The key ranges of the tables are proper and do not overlap.
pub open spec fn is_split(tables: Seq<SsTableMeta>) -> bool {
    &&& forall|i: int|
        0 <= i < tables.len() ==> lex_le((#[trigger] tables[i]).min_key@, tables[i].max_key@)
    &&& forall|i: int, j: int|
        0 <= i < j < tables.len() ==> is_apart(#[trigger] tables[i], #[trigger] tables[j])
}

/// The IDs strictly descend: newer tables come first.
pub open spec fn newest_first(tables: Seq<SsTableMeta>) -> bool {
    forall|i: int, j: int|
        0 <= i < j < tables.len() ==> (#[trigger] tables[i]).id > (#[trigger] tables[j]).id
}

/// What holds of the live tables at all times: their IDs are distinct, each is
/// at its level, and those of level 0 come newest first.
pub open spec fn is_ranked(levels: Seq<Seq<SsTableMeta>>, issued: nat) -> bool {
    &&& is_numbered(levels, issued)
    &&& newest_first(tables_of(levels, 0))
    &&& forall|l: int, i: int|
        0 <= l < levels.len() && 0 <= i < levels[l].len() ==> (#[trigger] levels[l][i]).level == l
}

/// The tables of a level above 0 do not overlap.
pub open spec fn is_disjoint(levels: Seq<Seq<SsTableMeta>>) -> bool {
    forall|l: int| 1 <= l < levels.len() ==> is_split(#[trigger] levels[l])
}

/// What holds of the live tables as long as their files hold what was written.
pub open spec fn is_orderly(levels: Seq<Seq<SsTableMeta>>, issued: nat) -> bool {
    is_ranked(levels, issued) && is_disjoint(levels)
}

/// The ID was given out, after those of all tables of the levels.
pub open spec fn is_newest_id(levels: Seq<Seq<SsTableMeta>>, issued: nat, id: u64) -> bool {
    &&& id < issued
    &&& forall|l: int, i: int|
        0 <= l < levels.len() && 0 <= i < levels[l].len() ==> (#[trigger] levels[l][i]).id < id
}

/// Adding the newest table to level 0 keeps the tables in order.
pub proof fn lemma_order_push(levels: Seq<Seq<SsTableMeta>>, issued: nat, meta: SsTableMeta)
    requires
        is_ranked(levels, issued),
        is_newest_id(levels, issued, meta.id),
        meta.level == 0,
    ensures
        forall|after: Seq<Seq<SsTableMeta>>|
            (after.len() == if levels.len() > 0 {
                levels.len()
            } else {
                1
            }) && (forall|l: int|
                0 <= l < after.len() ==> #[trigger] after[l] == if l == 0 {
                    seq![meta] + tables_of(levels, l)
                } else {
                    tables_of(levels, l)
                }) ==> #[trigger] is_ranked(after, issued) && (is_disjoint(levels) ==> is_disjoint(
                after,
            )),
{
    assert forall|after: Seq<Seq<SsTableMeta>>|
        (after.len() == if levels.len() > 0 {
            levels.len()
        } else {
            1
        }) && (forall|l: int|
            0 <= l < after.len() ==> #[trigger] after[l] == if l == 0 {
                seq![meta] + tables_of(levels, l)
            } else {
                tables_of(levels, l)
            }) implies #[trigger] is_ranked(after, issued) && (is_disjoint(levels) ==> is_disjoint(
        after,
    )) by {
        assert forall|l: int, i: int| 0 <= l < after.len() && 0 <= i < after[l].len() implies (
        #[trigger] after[l][i]).id < issued && after[l][i].level == l && (after[l][i] == meta && l
            == 0 && i == 0 || 0 <= l < levels.len() && (if l == 0 {
            1 <= i <= levels[l].len() && after[l][i] == levels[l][i - 1]
        } else {
            i < levels[l].len() && after[l][i] == levels[l][i]
        })) by {
            if l == 0 {
                assert(after[0] == seq![meta] + tables_of(levels, 0));
                if i > 0 {
                    assert(after[l][i] == levels[l][i - 1]);
                }
            } else {
                assert(after[l] == tables_of(levels, l));
                assert(after[l][i] == levels[l][i]);
            }
        }
        assert forall|l: int, i: int, k: int, j: int|
            0 <= l < after.len() && 0 <= i < after[l].len() && 0 <= k < after.len() && 0 <= j
                < after[k].len() && (l != k || i != j) implies (#[trigger] after[l][i]).id != (
        #[trigger] after[k][j]).id by {
            let x = if l == 0 {
                i - 1
            } else {
                i
            };
            let y = if k == 0 {
                j - 1
            } else {
                j
            };
            if x >= 0 && y >= 0 {
                assert(levels[l][x].id != levels[k][y].id);
            } else if x >= 0 {
                assert(levels[l][x].id < meta.id);
            } else {
                assert(levels[k][y].id < meta.id);
            }
        }
        assert(newest_first(tables_of(after, 0))) by {
            let t = tables_of(after, 0);
            assert forall|i: int, j: int| 0 <= i < j < t.len() implies (#[trigger] t[i]).id > (
            #[trigger] t[j]).id by {
                assert(after[0][i] == t[i] && after[0][j] == t[j]);
                assert(t[j] == levels[0][j - 1]);
                if i > 0 {
                    assert(t[i] == levels[0][i - 1]);
                    assert(tables_of(levels, 0)[i - 1].id > tables_of(levels, 0)[j - 1].id);
                }
            }
        }
        if is_disjoint(levels) {
            assert forall|l: int| 1 <= l < after.len() implies is_split(#[trigger] after[l]) by {
                assert(after[l] == tables_of(levels, l));
                assert(is_split(levels[l]));
            }
        }
    }
}

/// Two tables of a filtered list are tables of the list, in the same order.
pub proof fn lemma_filtered(
    s: Seq<SsTableMeta>,
    p: spec_fn(SsTableMeta) -> bool,
    i: int,
    j: int,
) -> (at: (int, int))
    requires
        0 <= i < s.filter(p).len(),
        0 <= j < s.filter(p).len(),
    ensures
        0 <= at.0 < s.len(),
        0 <= at.1 < s.len(),
        s[at.0] == s.filter(p)[i],
        s[at.1] == s.filter(p)[j],
        i < j ==> at.0 < at.1,
        j < i ==> at.1 < at.0,
        i == j ==> at.0 == at.1,
        p(s[at.0]),
    decreases s.len(),
{
    reveal(Seq::filter);
    let rest = s.drop_last();
    let last = s.len() - 1;
    if s.len() == 0 {
        (0, 0)
    } else if p(s.last()) {
        let f = rest.filter(p);
        assert(s.filter(p) == f.push(s.last()));
        if i == f.len() && j == f.len() {
            (last, last)
        } else if i == f.len() {
            let at = lemma_filtered(rest, p, j, j);
            (last, at.1)
        } else if j == f.len() {
            let at = lemma_filtered(rest, p, i, i);
            (at.0, last)
        } else {
            lemma_filtered(rest, p, i, j)
        }
    } else {
        assert(s.filter(p) == rest.filter(p));
        lemma_filtered(rest, p, i, j)
    }
}

/// A table that passes the test is in the filtered list.
pub proof fn lemma_kept(s: Seq<SsTableMeta>, p: spec_fn(SsTableMeta) -> bool, i: int) -> (at: int)
    requires
        0 <= i < s.len(),
        p(s[i]),
    ensures
        0 <= at < s.filter(p).len(),
        s.filter(p)[at] == s[i],
    decreases s.len(),
{
    reveal(Seq::filter);
    let rest = s.drop_last();
    if p(s.last()) {
        assert(s.filter(p) == rest.filter(p).push(s.last()));
    } else {
        assert(s.filter(p) == rest.filter(p));
    }
    if i == s.len() - 1 {
        rest.filter(p).len() as int
    } else {
        lemma_kept(rest, p, i)
    }
}

/// Tests that agree on all tables of a list keep the same tables.
pub proof fn lemma_same_filter(
    s: Seq<SsTableMeta>,
    p: spec_fn(SsTableMeta) -> bool,
    q: spec_fn(SsTableMeta) -> bool,
)
    requires
        forall|i: int| 0 <= i < s.len() ==> p(#[trigger] s[i]) == q(s[i]),
    ensures
        s.filter(p) == s.filter(q),
    decreases s.len(),
{
    reveal(Seq::filter);
    if s.len() > 0 {
        let rest = s.drop_last();
        assert forall|i: int| 0 <= i < rest.len() implies p(#[trigger] rest[i]) == q(rest[i]) by {
            assert(rest[i] == s[i]);
        }
        lemma_same_filter(rest, p, q);
        assert(p(s[s.len() - 1]) == q(s[s.len() - 1]));
    }
}

/// A list without some of its tables is still without overlaps.
pub proof fn lemma_split_filtered(tables: Seq<SsTableMeta>, p: spec_fn(SsTableMeta) -> bool)
    requires
        is_split(tables),
    ensures
        is_split(tables.filter(p)),
{
    let f = tables.filter(p);
    assert forall|i: int| 0 <= i < f.len() implies lex_le(
        (#[trigger] f[i]).min_key@,
        f[i].max_key@,
    ) by {
        let at = lemma_filtered(tables, p, i, i);
        assert(lex_le(tables[at.0].min_key@, tables[at.0].max_key@));
    }
    assert forall|i: int, j: int| 0 <= i < j < f.len() implies is_apart(
        #[trigger] f[i],
        #[trigger] f[j],
    ) by {
        let at = lemma_filtered(tables, p, i, j);
        assert(is_apart(tables[at.0], tables[at.1]));
    }
}

/// A table of a level above 0 was merged into a newer table of the level: that
/// one has a higher ID and overlaps it. Its file was left over when a compaction
/// did not come to remove it.
pub open spec fn is_leftover(tables: Seq<SsTableMeta>, m: SsTableMeta) -> bool {
    m.level >= 1 && exists|i: int|
        0 <= i < tables.len() && (#[trigger] tables[i]).level == m.level && tables[i].id > m.id
            && !is_apart(tables[i], m)
}

/// The tables can be those of a store: they have distinct IDs and proper key
/// ranges.
pub open spec fn is_recoverable(tables: Seq<SsTableMeta>) -> bool {
    &&& forall|i: int|
        0 <= i < tables.len() ==> lex_le((#[trigger] tables[i]).min_key@, tables[i].max_key@)
            && tables[i].level < usize::MAX
    &&& forall|i: int, j: int|
        0 <= i < j < tables.len() ==> (#[trigger] tables[i]).id != (#[trigger] tables[j]).id
}

/// The number of levels for the tables, at least `n`.
pub open spec fn depth_for(tables: Seq<SsTableMeta>, n: nat) -> nat
    decreases tables.len(),
{
    if tables.len() == 0 {
        n
    } else {
        let before = depth_for(tables.drop_last(), n);
        if tables.last().level >= before {
            tables.last().level as nat + 1
        } else {
            before
        }
    }
}

/// The number of IDs that were given out when the tables were written.
pub open spec fn issued_for(tables: Seq<SsTableMeta>) -> nat
    decreases tables.len(),
{
    if tables.len() == 0 {
        0
    } else {
        let before = issued_for(tables.drop_last());
        if tables.last().id >= before {
            tables.last().id as nat + 1
        } else {
            before
        }
    }
}

/// The levels hold exactly the tables that were not left over, each at its level,
/// newest first.
pub open spec fn is_loaded(
    levels: Seq<Seq<SsTableMeta>>,
    tables: Seq<SsTableMeta>,
    num_levels: nat,
) -> bool {
    &&& levels.len() == depth_for(tables, num_levels)
    &&& forall|l: int| 0 <= l < levels.len() ==> newest_first(#[trigger] levels[l])
    &&& forall|l: int, m: SsTableMeta|
        0 <= l < levels.len() ==> (#[trigger] levels[l].contains(m) <==> (tables.contains(m)
            && m.level == l && !is_leftover(tables, m)))
}

/// Every table has a level and an ID below the bounds.
pub proof fn lemma_bounds(tables: Seq<SsTableMeta>, n: nat, i: int)
    requires
        0 <= i < tables.len(),
    ensures
        tables[i].level < depth_for(tables, n),
        tables[i].id < issued_for(tables),
    decreases tables.len(),
{
    if i < tables.len() - 1 {
        lemma_bounds(tables.drop_last(), n, i);
    }
}

/// Loaded tables are in order.
pub proof fn lemma_loaded(
    levels: Seq<Seq<SsTableMeta>>,
    tables: Seq<SsTableMeta>,
    num_levels: nat,
)
    requires
        is_recoverable(tables),
        is_loaded(levels, tables, num_levels),
    ensures
        is_orderly(levels, issued_for(tables)),
{
    assert forall|l: int, i: int| 0 <= l < levels.len() && 0 <= i < levels[l].len() implies (
    #[trigger] levels[l][i]).id < issued_for(tables) by {
        assert(levels[l].contains(levels[l][i]));
        let x = choose|x: int| 0 <= x < tables.len() && tables[x] == levels[l][i];
        lemma_bounds(tables, num_levels, x);
    }
    assert forall|l: int, i: int, k: int, j: int|
        0 <= l < levels.len() && 0 <= i < levels[l].len() && 0 <= k < levels.len() && 0 <= j
            < levels[k].len() && (l != k || i != j) implies (#[trigger] levels[l][i]).id != (
    #[trigger] levels[k][j]).id by {
        if l == k {
            assert(newest_first(levels[l]));
        } else {
            assert(levels[l].contains(levels[l][i]));
            assert(levels[k].contains(levels[k][j]));
            let x = choose|x: int| 0 <= x < tables.len() && tables[x] == levels[l][i];
            let y = choose|y: int| 0 <= y < tables.len() && tables[y] == levels[k][j];
            assert(x != y);
            if x < y {
                assert(tables[x].id != tables[y].id);
            } else {
                assert(tables[y].id != tables[x].id);
            }
        }
    }
    assert forall|l: int, i: int| 0 <= l < levels.len() && 0 <= i < levels[l].len() implies (
    #[trigger] levels[l][i]).level == l by {
        assert(levels[l].contains(levels[l][i]));
    }
    assert forall|l: int| 1 <= l < levels.len() implies is_split(#[trigger] levels[l]) by {
        let here = levels[l];
        assert forall|i: int| 0 <= i < here.len() implies lex_le(
            (#[trigger] here[i]).min_key@,
            here[i].max_key@,
        ) by {
            assert(levels[l].contains(here[i]));
            let x = choose|x: int| 0 <= x < tables.len() && tables[x] == here[i];
            assert(lex_le(tables[x].min_key@, tables[x].max_key@));
        }
        assert forall|i: int, j: int| 0 <= i < j < here.len() implies is_apart(
            #[trigger] here[i],
            #[trigger] here[j],
        ) by {
            assert(newest_first(levels[l]));
            assert(levels[l].contains(here[i]));
            assert(levels[l].contains(here[j]));
            let x = choose|x: int| 0 <= x < tables.len() && tables[x] == here[i];
            assert(tables[x].level == here[j].level && tables[x].id > here[j].id);
            assert(!is_leftover(tables, here[j]));
        }
    }
}

/// Whether the key ranges of the tables do not overlap.
fn are_apart(a: &SsTableMeta, b: &SsTableMeta) -> (r: bool)
    ensures
        r == is_apart(*a, *b),
{
    proof {
        lemma_lex(a.max_key@, b.min_key@, a.max_key@);
        lemma_lex(b.min_key@, a.max_key@, b.min_key@);
        lemma_lex(b.max_key@, a.min_key@, b.max_key@);
        lemma_lex(a.min_key@, b.max_key@, a.min_key@);
    }
    !bytes_le(b.min_key.as_slice(), a.max_key.as_slice()) || !bytes_le(
        a.min_key.as_slice(),
        b.max_key.as_slice(),
    )
}

/// Whether the tables can be those of a store.
fn check_tables(tables: &Vec<SsTableMeta>) -> (r: bool)
    ensures
        r == is_recoverable(tables@),
{
    let mut i: usize = 0;
    while i < tables.len()
        invariant
            i <= tables@.len(),
            forall|x: int|
                0 <= x < i ==> lex_le((#[trigger] tables@[x]).min_key@, tables@[x].max_key@)
                    && tables@[x].level < usize::MAX,
            forall|x: int, y: int|
                0 <= x < y < i ==> (#[trigger] tables@[x]).id != (#[trigger] tables@[y]).id,
        decreases tables@.len() - i,
    {
        let m: &SsTableMeta = &tables[i];
        if !bytes_le(m.min_key.as_slice(), m.max_key.as_slice()) || m.level == usize::MAX {
            assert(!lex_le(tables@[i as int].min_key@, tables@[i as int].max_key@)
                || tables@[i as int].level == usize::MAX);
            return false;
        }
        let mut j: usize = 0;
        while j < i
            invariant
                j <= i < tables@.len(),
                *m == tables@[i as int],
                forall|x: int| 0 <= x < j ==> (#[trigger] tables@[x]).id != m.id,
            decreases i - j,
        {
            if tables[j].id == m.id {
                assert(tables@[j as int].id == tables@[i as int].id);
                return false;
            }
            j += 1;
        }
        i += 1;
    }
    true
}

/// Whether the table was left over by a compaction.
fn check_leftover(tables: &Vec<SsTableMeta>, m: &SsTableMeta) -> (r: bool)
    ensures
        r == is_leftover(tables@, *m),
{
    if m.level == 0 {
        return false;
    }
    let mut i: usize = 0;
    while i < tables.len()
        invariant
            i <= tables@.len(),
            m.level >= 1,
            forall|x: int|
                0 <= x < i ==> !((#[trigger] tables@[x]).level == m.level && tables@[x].id > m.id
                    && !is_apart(tables@[x], *m)),
        decreases tables@.len() - i,
    {
        let t: &SsTableMeta = &tables[i];
        if t.level == m.level && t.id > m.id && !are_apart(t, m) {
            assert(tables@[i as int] == *t);
            return true;
        }
        i += 1;
    }
    false
}

/// Add a table to a level at the place of its ID.
fn insert_by_id(level: &mut Vec<SsTableMeta>, meta: SsTableMeta)
    requires
        newest_first(old(level)@),
        forall|i: int| 0 <= i < old(level)@.len() ==> (#[trigger] old(level)@[i]).id != meta.id,
    ensures
        newest_first(final(level)@),
        forall|m: SsTableMeta| #[trigger]
            final(level)@.contains(m) == (old(level)@.contains(m) || m == meta),
{
    let ghost s = level@;
    let mut at: usize = 0;
    while at < level.len() && level[at].id > meta.id
        invariant
            at <= level@.len(),
            level@ == s,
            forall|i: int| 0 <= i < at ==> (#[trigger] level@[i]).id > meta.id,
        decreases level@.len() - at,
    {
        at += 1;
    }
    level.insert(at, meta);
    proof {
        let t = s.insert(at as int, meta);
        assert(level@ == t);
        assert forall|i: int, j: int| 0 <= i < j < t.len() implies (#[trigger] t[i]).id > (
        #[trigger] t[j]).id by {
            let x = if i < at {
                i
            } else {
                i - 1
            };
            let y = if j < at {
                j
            } else {
                j - 1
            };
            if i == at {
                assert(t[j] == s[y]);
                if at < y {
                    assert(s[at as int].id > s[y].id);
                }
            } else if j == at {
                assert(t[i] == s[i]);
            } else {
                assert(t[i] == s[x] && t[j] == s[y]);
            }
        }
        assert forall|m: SsTableMeta| #[trigger] t.contains(m) == (s.contains(m) || m == meta) by {
            if s.contains(m) {
                let x = choose|x: int| 0 <= x < s.len() && s[x] == m;
                if x < at {
                    assert(t[x] == m);
                } else {
                    assert(t[x + 1] == m);
                }
            }
            assert(t[at as int] == meta);
            if t.contains(m) && m != meta {
                let x = choose|x: int| 0 <= x < t.len() && t[x] == m;
                if x < at {
                    assert(s[x] == m);
                } else {
                    assert(s[x - 1] == m);
                }
            }
        }
    }
}

/// One of the first `n` tables has the path and was left over.
pub open spec fn is_path_of_leftover(
    tables: Seq<SsTableMeta>,
    n: int,
    path: Seq<char>,
) -> bool {
    exists|i: int|
        0 <= i < n && (#[trigger] tables[i]).path@ == path && is_leftover(tables, tables[i])
}

/// The paths are those of the tables that were left over.
pub open spec fn are_leftovers(paths: Seq<Seq<char>>, tables: Seq<SsTableMeta>) -> bool {
    forall|path: Seq<char>| #[trigger]
        paths.contains(path) <==> is_path_of_leftover(tables, tables.len() as int, path)
}

/// In-memory registry of SSTable files organized by level.
pub struct Manifest {
    /// The tables of each level, newest first.
    levels: Vec<Vec<SsTableMeta>>,
    next_id: u64,
    dir: String,
    // The number of IDs that were given out.
    issued: Ghost<nat>,
}

/// The tables of each level.
spec fn level_views(levels: Seq<Vec<SsTableMeta>>) -> Seq<Seq<SsTableMeta>> {
    levels.map_values(|v: Vec<SsTableMeta>| v@)
}

impl Manifest {
    /// The tables of each level, newest first.
    pub closed spec fn view(self) -> Seq<Seq<SsTableMeta>> {
        level_views(self.levels@)
    }

    /// The next ID is the number of IDs that were given out.
    pub open spec fn wf(self) -> bool {
        self.next_id() == self.issued() % 0x1_0000_0000_0000_0000
    }

    /// The tables of a level, none if there is no such level.
    pub open spec fn tables_at(self, level: int) -> Seq<SsTableMeta> {
        tables_of(self@, level)
    }

    /// No ID was given out twice.
    pub open spec fn has_unique_ids(self) -> bool {
        self.issued() <= 0x1_0000_0000_0000_0000
    }

    /// The number of IDs that were given out.
    pub closed spec fn issued(self) -> nat {
        self.issued@
    }

    /// The ID for the next table.
    pub closed spec fn next_id(self) -> u64 {
        self.next_id
    }

    /// The directory of the store.
    pub closed spec fn directory(self) -> Seq<char> {
        self.dir@
    }

    /// Create a new empty manifest rooted at the given directory.
    pub fn new(dir: &str, num_levels: usize) -> (r: Self)
        ensures
            r@ == Seq::new(num_levels as nat, |i: int| Seq::<SsTableMeta>::empty()),
            r.wf(),
            r.issued() == 0,
            r.next_id() == 0,
            r.directory() == dir@,
    {
        let mut levels: Vec<Vec<SsTableMeta>> = Vec::new();
        let mut i: usize = 0;
        while i < num_levels
            invariant
                i <= num_levels,
                levels@.len() == i,
                forall|j: int| 0 <= j < i ==> (#[trigger] levels@[j])@.len() == 0,
            decreases num_levels - i,
        {
            levels.push(Vec::new());
            i += 1;
        }
        proof {
            assert forall|j: int| 0 <= j < num_levels implies #[trigger] level_views(levels@)[j]
                == Seq::<SsTableMeta>::empty() by {
                assert(levels@[j]@.len() == 0);
                assert(level_views(levels@)[j] =~= Seq::<SsTableMeta>::empty());
            }
            assert(level_views(levels@) =~= Seq::new(
                num_levels as nat,
                |j: int| Seq::<SsTableMeta>::empty(),
            ));
        }
        Manifest { levels, next_id: 0, dir: dir.to_owned(), issued: Ghost(0) }
    }

    /// Create a manifest of the tables that were found in the given directory,
    /// with at least `num_levels` levels. Their IDs are not given out again.
    ///
    /// Returns the paths of the tables that were left over by a compaction too,
    /// or `None` if the tables cannot be those of a store.
    pub fn load(dir: &str, num_levels: usize, tables: Vec<SsTableMeta>) -> (r: Option<
        (Self, Vec<String>),
    >)
        ensures
            match r {
                Some((m, leftovers)) => {
                    &&& is_recoverable(tables@)
                    &&& is_loaded(m@, tables@, num_levels as nat)
                    &&& are_leftovers(leftovers@.map_values(|s: String| s@), tables@)
                    &&& m.wf()
                    &&& m.issued() == issued_for(tables@)
                    &&& m.directory() == dir@
                },
                None => !is_recoverable(tables@),
            },
    {
        if !check_tables(&tables) {
            return None;
        }
        let ghost all = tables@;
        // How many levels there are, which ID is next and which tables to keep.
        let mut keep: Vec<bool> = Vec::new();
        let mut leftovers: Vec<String> = Vec::new();
        let mut depth: usize = num_levels;
        let mut highest: Option<u64> = None;
        let mut i: usize = 0;
        let ghost as_text = |s: String| s@;
        assert(all.take(0) =~= Seq::<SsTableMeta>::empty());
        while i < tables.len()
            invariant
                i <= tables@.len(),
                all == tables@,
                is_recoverable(all),
                as_text == (|s: String| s@),
                keep@.len() == i,
                forall|x: int|
                    0 <= x < i ==> #[trigger] keep@[x] == !is_leftover(all, all[x]),
                forall|x: int|
                    0 <= x < i && is_leftover(all, #[trigger] all[x])
                        ==> leftovers@.map_values(as_text).contains(all[x].path@),
                forall|y: int|
                    0 <= y < leftovers@.len() ==> is_path_of_leftover(
                        all,
                        i as int,
                        (#[trigger] leftovers@[y])@,
                    ),
                depth == depth_for(all.take(i as int), num_levels as nat),
                issued_for(all.take(i as int)) == match highest {
                    Some(id) => id as nat + 1,
                    None => 0,
                },
            decreases tables@.len() - i,
        {
            let m: &SsTableMeta = &tables[i];
            let leftover: bool = check_leftover(&tables, m);
            let ghost names = leftovers@.map_values(as_text);
            keep.push(!leftover);
            if leftover {
                let ghost earlier = leftovers@;
                leftovers.push(m.path.clone());
                proof {
                    let t = leftovers@.map_values(as_text);
                    assert forall|s: Seq<char>| names.contains(s) implies t.contains(s) by {
                        let y = choose|y: int| 0 <= y < names.len() && names[y] == s;
                        assert(t[y] == s);
                    }
                    assert(t[earlier.len() as int] == m.path@);
                    assert(all[i as int].path@ == leftovers@[earlier.len() as int]@);
                    assert(is_path_of_leftover(all, i + 1, leftovers@[earlier.len() as int]@));
                }
            }
            proof {
                assert(all.take(i + 1).drop_last() =~= all.take(i as int));
                assert(all.take(i + 1).last() == *m);
                assert forall|y: int| 0 <= y < leftovers@.len() implies is_path_of_leftover(
                    all,
                    i + 1,
                    (#[trigger] leftovers@[y])@,
                ) by {
                    if y < names.len() {
                        assert(names[y] == leftovers@[y]@);
                        assert(is_path_of_leftover(all, i as int, names[y]));
                    }
                }
            }
            if m.level >= depth {
                depth = m.level + 1;
            }
            highest = match highest {
                Some(id) => if m.id > id {
                    Some(m.id)
                } else {
                    Some(id)
                },
                None => Some(m.id),
            };
            i += 1;
        }
        assert(all.take(i as int) =~= all);
        let mut levels: Vec<Vec<SsTableMeta>> = Vec::new();
        let mut l: usize = 0;
        while l < depth
            invariant
                l <= depth,
                levels@.len() == l,
                forall|x: int| 0 <= x < l ==> (#[trigger] levels@[x])@.len() == 0,
            decreases depth - l,
        {
            levels.push(Vec::new());
            l += 1;
        }
        let mut rest: Vec<SsTableMeta> = tables;
        while rest.len() > 0
            invariant
                rest@.len() <= all.len(),
                rest@ == all.take(rest@.len() as int),
                is_recoverable(all),
                keep@.len() == all.len(),
                forall|x: int|
                    0 <= x < all.len() ==> #[trigger] keep@[x] == !is_leftover(all, all[x]),
                levels@.len() == depth_for(all, num_levels as nat),
                forall|x: int| 0 <= x < levels@.len() ==> newest_first((#[trigger] levels@[x])@),
                forall|x: int, m: SsTableMeta|
                    0 <= x < levels@.len() ==> (#[trigger] levels@[x]@.contains(m) <==> (
                    all.skip(rest@.len() as int).contains(m) && m.level == x && !is_leftover(
                        all,
                        m,
                    ))),
            decreases rest@.len(),
        {
            let ghost n = rest@.len() as int;
            let ghost later = all.skip(n);
            let ghost before_step = levels@;
            match rest.pop() {
                Some(meta) => {
                    proof {
                        assert(meta == all[n - 1]);
                        assert(rest@ =~= all.take(n - 1));
                        lemma_bounds(all, num_levels as nat, n - 1);
                        let wider = all.skip(n - 1);
                        assert(wider =~= seq![meta] + later);
                        assert forall|m: SsTableMeta| #[trigger] wider.contains(m) == (
                        later.contains(m) || m == meta) by {
                            if later.contains(m) {
                                let x = choose|x: int| 0 <= x < later.len() && later[x] == m;
                                assert(wider[x + 1] == m);
                            }
                            assert(wider[0] == meta);
                            if wider.contains(m) && m != meta {
                                let x = choose|x: int| 0 <= x < wider.len() && wider[x] == m;
                                assert(later[x - 1] == m);
                            }
                        }
                    }
                    if keep[rest.len()] {
                        let level: usize = meta.level;
                        proof {
                            let here = levels@[level as int]@;
                            assert forall|x: int| 0 <= x < here.len() implies (
                            #[trigger] here[x]).id != meta.id by {
                                assert(levels@[level as int]@.contains(here[x]));
                                let y = choose|y: int| 0 <= y < later.len() && later[y] == here[x];
                                assert(all[n - 1].id != all[n + y].id);
                            }
                        }
                        insert_by_id(&mut levels[level], meta);
                        proof {
                            assert forall|x: int, m: SsTableMeta|
                                0 <= x < levels@.len() implies (#[trigger] levels@[x]@.contains(m)
                                <==> (all.skip(n - 1).contains(m) && m.level == x && !is_leftover(
                                all,
                                m,
                            ))) by {
                                assert(before_step[x]@.contains(m) <==> (later.contains(m)
                                    && m.level == x && !is_leftover(all, m)));
                                if x != level {
                                    assert(levels@[x] == before_step[x]);
                                }
                            }
                            assert forall|x: int| 0 <= x < levels@.len() implies newest_first(
                                (#[trigger] levels@[x])@,
                            ) by {
                                if x != level {
                                    assert(levels@[x] == before_step[x]);
                                    assert(newest_first(before_step[x]@));
                                }
                            }
                        }
                    } else {
                        assert forall|x: int, m: SsTableMeta| 0 <= x < levels@.len() implies (
                        #[trigger] levels@[x]@.contains(m) <==> (all.skip(n - 1).contains(m)
                            && m.level == x && !is_leftover(all, m))) by {}
                    }
                },
                None => {},
            }
        }
        assert(all.skip(0) =~= all);
        let next_id: u64 = match highest {
            Some(id) => id.wrapping_add(1),
            None => 0,
        };
        let r: Manifest = Manifest {
            levels,
            next_id,
            dir: dir.to_owned(),
            issued: Ghost(issued_for(all)),
        };
        proof {
            assert forall|x: int| 0 <= x < r@.len() implies newest_first(#[trigger] r@[x]) by {
                assert(r@[x] == levels@[x]@);
            }
            assert forall|x: int, m: SsTableMeta|
                0 <= x < r@.len() implies (#[trigger] r@[x].contains(m) <==> (all.contains(m)
                && m.level == x && !is_leftover(all, m))) by {
                assert(levels@[x]@.contains(m) <==> (all.contains(m) && m.level == x
                    && !is_leftover(all, m)));
            }
            let names = leftovers@.map_values(as_text);
            assert forall|name: Seq<char>| #[trigger] names.contains(name) implies is_path_of_leftover(
                all,
                all.len() as int,
                name,
            ) by {
                let y = choose|y: int| 0 <= y < names.len() && names[y] == name;
                assert(leftovers@[y]@ == name);
            }
        }
        Some((r, leftovers))
    }

    /// The directory of the store.
    pub fn dir(&self) -> (r: &str)
        ensures
            r@ == self.directory(),
    {
        self.dir.as_str()
    }

    /// Allocate a unique SSTable ID and return the file path for it.
    pub fn next_sstable_path(&mut self, level: usize) -> (r: (u64, String))
        ensures
            r.0 == old(self).next_id(),
            r.1@ == table_path(old(self).directory(), level as nat, r.0 as nat),
            final(self).next_id() == old(self).next_id().wrapping_add(1),
            final(self).issued() == old(self).issued() + 1,
            old(self).wf() ==> final(self).wf(),
            final(self)@ == old(self)@,
            final(self).directory() == old(self).directory(),
    {
        let id: u64 = self.next_id;
        self.next_id = id.wrapping_add(1);
        proof {
            self.issued@ = self.issued@ + 1;
        }
        let name: String = file_name(level, id);
        (id, join_path(self.dir.as_str(), name.as_str()))
    }

    /// Register a new SSTable at its level, as the newest one there.
    pub fn add(&mut self, meta: SsTableMeta)
        requires
            meta.level < usize::MAX,
        ensures
            final(self)@.len() == if meta.level < old(self)@.len() {
                old(self)@.len()
            } else {
                (meta.level + 1) as nat
            },
            forall|l: int|
                0 <= l < final(self)@.len() ==> #[trigger] final(self)@[l] == if l == meta.level {
                    seq![meta] + old(self).tables_at(l)
                } else {
                    old(self).tables_at(l)
                },
            final(self).next_id() == old(self).next_id(),
            final(self).issued() == old(self).issued(),
            old(self).wf() ==> final(self).wf(),
            final(self).directory() == old(self).directory(),
    {
        let level: usize = meta.level;
        let ghost start = self@;
        while self.levels.len() <= level
            invariant
                start == old(self)@,
                level < usize::MAX,
                start.len() <= self@.len(),
                self@.len() == self.levels@.len(),
                self@.len() <= start.len() || self@.len() <= level + 1,
                forall|l: int|
                    0 <= l < self@.len() ==> #[trigger] self@[l] == old(self).tables_at(l),
                self.next_id == old(self).next_id,
                self.issued == old(self).issued,
                self.dir == old(self).dir,
            decreases level + 1 - self.levels@.len(),
        {
            let ghost before_step = self@;
            let empty: Vec<SsTableMeta> = Vec::new();
            self.levels.push(empty);
            assert forall|l: int| 0 <= l < self@.len() implies #[trigger] self@[l] == old(
                self,
            ).tables_at(l) by {
                if l < before_step.len() {
                    assert(self@[l] == before_step[l]);
                } else {
                    assert(self@[l] =~= Seq::<SsTableMeta>::empty());
                }
            }
        }
        let ghost middle = self@;
        self.levels[level].insert(0, meta);
        proof {
            assert forall|l: int| 0 <= l < self@.len() implies #[trigger] self@[l] == if l
                == meta.level {
                seq![meta] + old(self).tables_at(l)
            } else {
                old(self).tables_at(l)
            } by {
                assert(middle[l] == old(self).tables_at(l));
                if l == level {
                    assert(self@[l] =~= seq![meta] + middle[l]);
                } else {
                    assert(self@[l] == middle[l]);
                }
            }
        }
    }

    /// Whether an ID was given out after those of all tables. IDs that were given
    /// out when there were none left count as not given out.
    pub fn is_newest(&self, id: u64) -> (r: bool)
        requires
            self.wf(),
        ensures
            r ==> !self.has_unique_ids() || is_newest_id(self@, self.issued(), id),
            self.issued() <= u64::MAX ==> r == is_newest_id(self@, self.issued(), id),
    {
        if id >= self.next_id {
            return false;
        }
        let mut l: usize = 0;
        while l < self.levels.len()
            invariant
                l <= self.levels@.len(),
                forall|x: int, y: int|
                    0 <= x < l && 0 <= y < self@[x].len() ==> (#[trigger] self@[x][y]).id < id,
            decreases self.levels@.len() - l,
        {
            let level: &Vec<SsTableMeta> = &self.levels[l];
            assert(self@[l as int] == level@);
            let mut i: usize = 0;
            while i < level.len()
                invariant
                    i <= level@.len(),
                    l < self.levels@.len(),
                    self@[l as int] == level@,
                    forall|y: int| 0 <= y < i ==> (#[trigger] level@[y]).id < id,
                decreases level@.len() - i,
            {
                if level[i].id >= id {
                    assert(self@[l as int][i as int].id >= id);
                    return false;
                }
                i += 1;
            }
            l += 1;
        }
        true
    }

    /// Remove SSTables by ID from a given level.
    pub fn remove(&mut self, level: usize, ids: &[u64])
        ensures
            final(self)@ == if level < old(self)@.len() {
                old(self)@.update(
                    level as int,
                    old(self)@[level as int].filter(not_listed(ids@)),
                )
            } else {
                old(self)@
            },
            final(self).next_id() == old(self).next_id(),
            final(self).issued() == old(self).issued(),
            old(self).wf() ==> final(self).wf(),
            final(self).directory() == old(self).directory(),
    {
        if level < self.levels.len() {
            let ghost start = self@;
            let ghost p = not_listed(ids@);
            let mut tables: Vec<SsTableMeta> = Vec::new();
            core::mem::swap(&mut tables, &mut self.levels[level]);
            let ghost all = tables@;
            assert(all == start[level as int]);
            // Keep the others, last one first.
            let mut kept: Vec<SsTableMeta> = Vec::new();
            assert(all.skip(all.len() as int) =~= Seq::empty());
            assert(kept@.reverse() =~= Seq::<SsTableMeta>::empty());
            while tables.len() > 0
                invariant
                    p == not_listed(ids@),
                    tables@.len() <= all.len(),
                    tables@ == all.take(tables@.len() as int),
                    kept@.reverse() == all.skip(tables@.len() as int).filter(p),
                decreases tables@.len(),
            {
                let ghost n = tables@.len() as int;
                let ghost before_step = kept@;
                match tables.pop() {
                    Some(meta) => {
                        proof {
                            let (m, rest) = (all[n - 1], all.skip(n));
                            assert(tables@ =~= all.take(n - 1));
                            assert(meta == m);
                            assert(all.skip(n - 1) =~= seq![m] + rest);
                            Seq::filter_distributes_over_add(seq![m], rest, p);
                            reveal_with_fuel(Seq::filter, 2);
                            assert(seq![m].drop_last() =~= Seq::empty());
                            assert(seq![m].filter(p) =~= if p(m) {
                                seq![m]
                            } else {
                                Seq::empty()
                            });
                        }
                        if !contains_id(ids, meta.id) {
                            kept.push(meta);
                            assert(kept@.reverse() =~= seq![meta] + before_step.reverse());
                        } else {
                            assert(Seq::<SsTableMeta>::empty() + before_step.reverse()
                                =~= before_step.reverse());
                        }
                    },
                    None => {},
                }
            }
            assert(all.skip(0) =~= all);
            let ghost wanted = all.filter(p);
            assert(kept@ =~= wanted.reverse());
            let mut ordered: Vec<SsTableMeta> = Vec::new();
            while kept.len() > 0
                invariant
                    kept@.len() + ordered@.len() == wanted.len(),
                    kept@ == wanted.skip(ordered@.len() as int).reverse(),
                    ordered@ == wanted.take(ordered@.len() as int),
                decreases kept@.len(),
            {
                let ghost n = ordered@.len() as int;
                match kept.pop() {
                    Some(meta) => {
                        ordered.push(meta);
                        assert(kept@ =~= wanted.skip(n + 1).reverse());
                        assert(ordered@ =~= wanted.take(n + 1));
                    },
                    None => {},
                }
            }
            assert(ordered@ =~= wanted);
            self.levels[level] = ordered;
            assert(self@ =~= start.update(level as int, wanted)) by {
                assert forall|l: int| 0 <= l < self@.len() implies #[trigger] self@[l]
                    == start.update(level as int, wanted)[l] by {
                    if l != level {
                        assert(self@[l] == start[l]);
                    }
                }
            }
        }
    }

    /// Get all SSTables at a given level, ordered newest-first.
    pub fn level(&self, level: usize) -> (r: &[SsTableMeta])
        ensures
            r@ == self.tables_at(level as int),
    {
        if level < self.levels.len() {
            assert(self@[level as int] == self.levels@[level as int]@);
            self.levels[level].as_slice()
        } else {
            let none: &[SsTableMeta] = &[];
            assert(none@ =~= Seq::empty());
            none
        }
    }

    /// Number of SSTables at a given level.
    pub fn level_count(&self, level: usize) -> (r: usize)
        ensures
            r == self.tables_at(level as int).len(),
    {
        self.level(level).len()
    }

    /// Total number of levels that have at least one SSTable.
    pub fn num_levels(&self) -> (r: usize)
        ensures
            r == filled_levels(self@, self@.len()),
    {
        let mut count: usize = 0;
        let mut i: usize = 0;
        while i < self.levels.len()
            invariant
                i <= self.levels@.len(),
                count == filled_levels(self@, i as nat),
                count <= i,
            decreases self.levels@.len() - i,
        {
            assert(self@[i as int] == self.levels@[i as int]@);
            if self.levels[i].len() > 0 {
                count += 1;
            }
            i += 1;
        }
        count
    }

    /// Number of levels, empty ones included.
    pub fn depth(&self) -> (r: usize)
        ensures
            r == self@.len(),
    {
        self.levels.len()
    }

    /// All levels with their SSTables.
    pub fn levels(&self) -> (r: Vec<(usize, &[SsTableMeta])>)
        ensures
            r@.len() == self@.len(),
            forall|i: int|
                0 <= i < r@.len() ==> (#[trigger] r@[i]).0 == i && r@[i].1@ == self@[i],
    {
        let mut all: Vec<(usize, &[SsTableMeta])> = Vec::new();
        let mut i: usize = 0;
        while i < self.levels.len()
            invariant
                i <= self.levels@.len(),
                all@.len() == i,
                forall|j: int|
                    0 <= j < all@.len() ==> (#[trigger] all@[j]).0 == j && all@[j].1@ == self@[j],
            decreases self.levels@.len() - i,
        {
            assert(self@[i as int] == self.levels@[i as int]@);
            all.push((i, self.levels[i].as_slice()));
            i += 1;
        }
        all
    }
}

/// Whether an ID is in a list.
fn contains_id(ids: &[u64], id: u64) -> (r: bool)
    ensures
        r == ids@.contains(id),
{
    let mut i: usize = 0;
    while i < ids.len()
        invariant
            i <= ids@.len(),
            forall|j: int| 0 <= j < i ==> ids@[j] != id,
        decreases ids@.len() - i,
    {
        if ids[i] == id {
            assert(ids@[i as int] == id);
            return true;
        }
        i += 1;
    }
    false
}

/// As long as there are IDs left, tables that are allocated at different times
/// get different IDs and different file paths, whatever their levels and
/// whatever was added and removed in between: the ID is the number of IDs that
/// were given out before.
pub proof fn law_ids_are_unique(earlier: Manifest, later: Manifest, level: nat, other_level: nat)
    requires
        earlier.wf(),
        later.wf(),
        earlier.issued() < later.issued() <= u64::MAX,
        earlier.directory() == later.directory(),
    ensures
        earlier.next_id() == earlier.issued(),
        later.next_id() == later.issued(),
        earlier.next_id() != later.next_id(),
        table_path(earlier.directory(), level, earlier.next_id() as nat) != table_path(
            later.directory(),
            other_level,
            later.next_id() as nat,
        ),
{
    law_table_paths_are_unique(
        earlier.directory(),
        level,
        earlier.next_id() as nat,
        other_level,
        later.next_id() as nat,
    );
}

} // verus!
