//! Size-tiered compaction with streaming k-way merge.
//!
//! When level L has more than [`MAX_TABLES_PER_LEVEL`] SSTables, they are
//! merged into a single SSTable at level L+1 using a streaming merge that
//! reads one block at a time from each input SSTable. The SSTables of level L+1
//! that they reach into are merged too, so that no two SSTables of a level above
//! 0 overlap.
//!
//! Memory usage during compaction: O(num_sstables × block_size), not
//! O(total entries).
//!
//! A compaction asks for the blocks that it needs next, and the owner of the
//! files supplies them and writes the output.

use vstd::prelude::*;

use super::manifest::{
    is_apart, is_disjoint, is_new_id, is_numbered, is_orderly, is_ranked, is_split, lemma_filtered,
    lemma_kept, lemma_same_filter, lemma_split_filtered, newest_first, not_listed, table_path,
    tables_of, Manifest,
};
use super::merge::{
    advanced, law_merge_keeps_the_newest, leader, leader_of, lemma_leader, merged, newest,
};
use super::pairs::{has_key, key_sorted, lemma_lex, lex_lt};
use super::sstable::reader::{
    after_entries, block_entries, index_views, IndexEntry, ScanState, ScanStep,
};
use super::sstable::writer::{first_key_of, last_key_of, Finished, SsTableWriter};
use super::sstable::{
    full_block_bytes, stored, table_bytes, FormatError, SsTableMeta, DEFAULT_BLOCK_SIZE,
};
use crate::key::{bytes_copy, bytes_equal, bytes_le, lex_le};

verus! {

/// Maximum SSTables at any level before compaction triggers.
pub const MAX_TABLES_PER_LEVEL: usize = 4;

/// Level `l` has more tables than it may have.
pub open spec fn is_overfull(manifest: Manifest, l: int) -> bool {
    manifest.tables_at(l).len() > MAX_TABLES_PER_LEVEL
}

/// No level from `from` on has more tables than it may have.
pub open spec fn is_calm(manifest: Manifest, from: int) -> bool {
    forall|l: int| from <= l ==> !#[trigger] is_overfull(manifest, l)
}

/// Check the levels from `from` on and return the first that exceeds the
/// threshold, to be compacted.
pub fn maybe_compact(manifest: &Manifest, from: usize) -> (r: Option<usize>)
    ensures
        match r {
            Some(level) => {
                &&& from <= level < manifest@.len()
                &&& is_overfull(*manifest, level as int)
                &&& forall|l: int| from <= l < level ==> !#[trigger] is_overfull(*manifest, l)
            },
            None => forall|l: int| from <= l ==> !#[trigger] is_overfull(*manifest, l),
        },
        r is None ==> is_calm(*manifest, from as int),
{
    let num_levels: usize = manifest.depth();
    let mut level: usize = from;
    while level < num_levels
        invariant
            num_levels == manifest@.len(),
            from <= level,
            forall|l: int| from <= l < level ==> !#[trigger] is_overfull(*manifest, l),
        decreases num_levels - level,
    {
        if manifest.level_count(level) > MAX_TABLES_PER_LEVEL {
            return Some(level);
        }
        assert(!is_overfull(*manifest, level as int));
        level += 1;
    }
    None
}

/// A table reaches into the key range that the tables span: it does not end
/// before all of them, nor start after all of them.
pub open spec fn reaches(tables: Seq<SsTableMeta>, m: SsTableMeta) -> bool {
    &&& exists|i: int|
        0 <= i < tables.len() && !lex_lt(m.max_key@, (#[trigger] tables[i]).min_key@)
    &&& exists|i: int|
        0 <= i < tables.len() && !lex_lt((#[trigger] tables[i]).max_key@, m.min_key@)
}

/// The test for tables that reach into the key range that the tables span.
pub open spec fn reached_by(tables: Seq<SsTableMeta>) -> spec_fn(SsTableMeta) -> bool {
    |m: SsTableMeta| reaches(tables, m)
}

/// The tables that the compaction of a level merges, newest first: those of the
/// level, and those of the next level that reach into their key range.
pub open spec fn merge_inputs(levels: Seq<Seq<SsTableMeta>>, level: int) -> Seq<SsTableMeta> {
    let tables = tables_of(levels, level);
    tables + tables_of(levels, level + 1).filter(reached_by(tables))
}

/// Whether a table reaches into the key range that the tables span.
fn is_reached(tables: &[SsTableMeta], m: &SsTableMeta) -> (r: bool)
    ensures
        r == reaches(tables@, *m),
{
    let mut is_after_start: bool = false;
    let mut is_before_end: bool = false;
    let mut i: usize = 0;
    while i < tables.len()
        invariant
            i <= tables@.len(),
            is_after_start == exists|j: int|
                0 <= j < i && !lex_lt(m.max_key@, (#[trigger] tables@[j]).min_key@),
            is_before_end == exists|j: int|
                0 <= j < i && !lex_lt((#[trigger] tables@[j]).max_key@, m.min_key@),
        decreases tables@.len() - i,
    {
        let t: &SsTableMeta = &tables[i];
        proof {
            lemma_lex(t.min_key@, m.max_key@, t.min_key@);
            lemma_lex(m.min_key@, t.max_key@, m.min_key@);
            assert(*t == tables@[i as int]);
        }
        let starts: bool = bytes_le(t.min_key.as_slice(), m.max_key.as_slice());
        let ends: bool = bytes_le(m.min_key.as_slice(), t.max_key.as_slice());
        assert(starts == !lex_lt(m.max_key@, tables@[i as int].min_key@));
        assert(ends == !lex_lt(tables@[i as int].max_key@, m.min_key@));
        is_after_start = is_after_start || starts;
        is_before_end = is_before_end || ends;
        i += 1;
    }
    is_after_start && is_before_end
}

/// The tables that the compaction of a level merges, oldest first: its sources.
pub fn compaction_sources(manifest: &Manifest, level: usize) -> (r: Vec<SsTableMeta>)
    requires
        level < usize::MAX,
    ensures
        r@.len() == merge_inputs(manifest@, level as int).len(),
        forall|i: int|
            0 <= i < r@.len() ==> (#[trigger] r@[i]).same(
                merge_inputs(manifest@, level as int)[r@.len() - 1 - i],
            ),
{
    let tables: &[SsTableMeta] = manifest.level(level);
    let below: &[SsTableMeta] = manifest.level(level + 1);
    let mut sources: Vec<SsTableMeta> = Vec::new();
    let ghost p = reached_by(tables@);
    // The next level is older.
    let mut i: usize = below.len();
    assert(below@.skip(i as int) =~= Seq::<SsTableMeta>::empty());
    assert(below@.skip(i as int).filter(p) =~= Seq::<SsTableMeta>::empty()) by {
        reveal(Seq::filter);
    }
    while i > 0
        invariant
            i <= below@.len(),
            p == reached_by(tables@),
            sources@.len() == below@.skip(i as int).filter(p).len(),
            forall|j: int|
                0 <= j < sources@.len() ==> (#[trigger] sources@[j]).same(
                    below@.skip(i as int).filter(p)[sources@.len() - 1 - j],
                ),
        decreases i,
    {
        let ghost older = below@.skip(i as int);
        i -= 1;
        let ghost m = below@[i as int];
        proof {
            assert(below@.skip(i as int) =~= seq![m] + older);
            Seq::filter_distributes_over_add(seq![m], older, p);
            reveal_with_fuel(Seq::filter, 2);
            assert(seq![m].drop_last() =~= Seq::empty());
            assert(seq![m].filter(p) =~= if p(m) {
                seq![m]
            } else {
                Seq::empty()
            });
        }
        if is_reached(tables, &below[i]) {
            sources.push(below[i].clone());
        } else {
            assert(Seq::<SsTableMeta>::empty() + older.filter(p) =~= older.filter(p));
        }
    }
    assert(below@.skip(0) =~= below@);
    let ghost f = below@.filter(p);
    let n: usize = tables.len();
    let mut i: usize = 0;
    while i < n
        invariant
            n == tables@.len(),
            i <= n,
            sources@.len() == f.len() + i,
            forall|j: int|
                0 <= j < f.len() ==> (#[trigger] sources@[j]).same(f[f.len() - 1 - j]),
            forall|j: int|
                f.len() <= j < sources@.len() ==> (#[trigger] sources@[j]).same(
                    tables@[n - 1 - (j - f.len())],
                ),
        decreases n - i,
    {
        sources.push(tables[n - 1 - i].clone());
        i += 1;
    }
    sources
}

/// The entries of several blocks, `None` if one of them ends in the middle of
/// an entry.
pub open spec fn decoded(blocks: Seq<Seq<u8>>) -> Option<Seq<(Seq<u8>, Seq<u8>)>>
    decreases blocks.len(),
{
    if blocks.len() == 0 {
        Some(Seq::empty())
    } else {
        match (decoded(blocks.drop_last()), block_entries(blocks.last())) {
            (Some(first), Some(last)) => Some(first + last),
            _ => None,
        }
    }
}

/// The keys of the pairs strictly ascend, and lie in a key range.
pub open spec fn is_sound(s: Seq<(Seq<u8>, Seq<u8>)>, min: Seq<u8>, max: Seq<u8>) -> bool {
    &&& key_sorted(s)
    &&& forall|i: int| 0 <= i < s.len() ==> lex_le(min, (#[trigger] s[i]).0) && lex_le(s[i].0, max)
}

/// One input of a merge: a table that is read block by block.
pub struct Source {
    scan: ScanState,
    /// The next pair, if it was read.
    head: Option<(Vec<u8>, Vec<u8>)>,
    /// Whether all pairs were read.
    done: bool,
    /// The block that was asked for.
    request: Option<(u64, u64)>,
    // The pairs that were taken, the blocks that were supplied, and the index.
    consumed: Ghost<Seq<(Seq<u8>, Seq<u8>)>>,
    supplied: Ghost<Seq<Seq<u8>>>,
    index: Ghost<Seq<(Seq<u8>, nat, nat)>>,
}

/// The next pair as a sequence.
spec fn head_seq(head: Option<(Vec<u8>, Vec<u8>)>) -> Seq<(Seq<u8>, Seq<u8>)> {
    match head {
        Some(e) => seq![(e.0@, e.1@)],
        None => Seq::empty(),
    }
}

impl Source {
    /// The pairs that were taken, the next pair and the pairs in the rest of
    /// the current block are those of the supplied blocks, and the blocks were
    /// supplied in the order of the index.
    spec fn wf(self) -> bool {
        let asked = self.supplied@.len() + (if self.request is Some {
            1int
        } else {
            0
        });
        &&& self.scan.wf()
        &&& decoded(self.supplied@) == after_entries(
            self.consumed@ + head_seq(self.head),
            block_entries(self.scan.block_rest()),
        )
        &&& 0 <= asked <= self.index@.len()
        &&& self.scan.blocks_left() == self.index@.skip(asked)
        &&& match self.request {
            Some((offset, len)) => self.scan.block_rest().len() == 0 && offset
                == self.index@[asked - 1].1 && len == self.index@[asked - 1].2,
            None => true,
        }
        &&& self.done ==> {
            &&& self.scan.block_rest().len() == 0
            &&& asked == self.index@.len()
            &&& self.request is None
        }
    }

    /// Bytes left in the current block, and the next pair.
    spec fn work(self) -> nat {
        self.scan.block_rest().len() + head_seq(self.head).len()
    }

    fn new(index: Vec<IndexEntry>) -> (r: Self)
        ensures
            r.wf(),
            r.head is None,
            !r.done,
            r.request is None,
            r.consumed@ == Seq::<(Seq<u8>, Seq<u8>)>::empty(),
            r.supplied@ == Seq::<Seq<u8>>::empty(),
            r.index@ == index_views(index@),
    {
        let ghost views = index_views(index@);
        let r: Source = Source {
            scan: ScanState::new(index),
            head: None,
            done: false,
            request: None,
            consumed: Ghost(Seq::empty()),
            supplied: Ghost(Seq::empty()),
            index: Ghost(views),
        };
        proof {
            assert(views.skip(0) =~= views);
            assert(r.consumed@ + head_seq(r.head) + Seq::empty() =~= Seq::<
                (Seq<u8>, Seq<u8>),
            >::empty());
        }
        r
    }

    /// Read the next pair if there is none. Returns the block that has to be
    /// supplied first, if there is one.
    fn fill(&mut self) -> (r: core::result::Result<Option<(u64, u64)>, FormatError>)
        requires
            old(self).wf(),
        ensures
            final(self).wf(),
            final(self).consumed == old(self).consumed,
            final(self).supplied == old(self).supplied,
            final(self).index == old(self).index,
            final(self).work() <= old(self).work(),
            old(self).head is Some || old(self).done ==> *final(self) == *old(self) && r == Ok::<
                _,
                FormatError,
            >(None::<(u64, u64)>),
            old(self).head is None ==> final(self).head is Some ==> !final(self).done,
            old(self).done ==> final(self).done,
            match r {
                Ok(None) => (final(self).head is Some || final(self).done) && final(self).request
                    == old(self).request,
                Ok(Some(request)) => {
                    &&& final(self).head is None
                    &&& !final(self).done
                    &&& final(self).request == Some(request)
                },
                Err(FormatError::TruncatedEntry) => {
                    &&& decoded(old(self).supplied@) is None
                    &&& final(self).head == old(self).head
                    &&& final(self).done == old(self).done
                },
                Err(_) => false,
            },
    {
        if self.head.is_some() || self.done {
            return Ok(None);
        }
        if let Some(request) = self.request {
            return Ok(Some(request));
        }
        let ghost before_step = self.scan;
        match self.scan.step() {
            Ok(ScanStep::Entry(key, value)) => {
                self.head = Some((key, value));
                proof {
                    let e = (key@, value@);
                    assert(head_seq(self.head) =~= seq![e]);
                    if let Some(more) = block_entries(self.scan.block_rest()) {
                        assert(self.consumed@ + Seq::empty() + (seq![e] + more) =~= self.consumed@
                            + seq![e] + more);
                    }
                }
                Ok(None)
            },
            Ok(ScanStep::NeedBlock(offset, len)) => {
                self.request = Some((offset, len));
                proof {
                    let n = self.supplied@.len() as int;
                    assert(self.index@.skip(n).drop_first() =~= self.index@.skip(n + 1));
                    assert(self.index@.skip(n)[0] == self.index@[n]);
                }
                Ok(Some((offset, len)))
            },
            Ok(ScanStep::End) => {
                self.done = true;
                Ok(None)
            },
            Err(e) => Err(e),
        }
    }

    /// Take the next pair.
    fn take(&mut self) -> (r: (Vec<u8>, Vec<u8>))
        requires
            old(self).wf(),
            old(self).head is Some,
        ensures
            final(self).wf(),
            old(self).head == Some(r),
            final(self).head is None,
            final(self).done == old(self).done,
            final(self).request == old(self).request,
            final(self).supplied == old(self).supplied,
            final(self).index == old(self).index,
            final(self).consumed@ == old(self).consumed@.push((r.0@, r.1@)),
            final(self).work() + 1 == old(self).work(),
    {
        let mut head: Option<(Vec<u8>, Vec<u8>)> = None;
        core::mem::swap(&mut head, &mut self.head);
        match head {
            Some(e) => {
                proof {
                    let pair = (e.0@, e.1@);
                    self.consumed@ = self.consumed@.push(pair);
                    assert(self.consumed@ + head_seq(self.head) =~= old(self).consumed@
                        + head_seq(old(self).head));
                }
                e
            },
            None => vstd::pervasive::unreached(),
        }
    }

    /// Supply the block that was asked for.
    fn supply(&mut self, block: Vec<u8>)
        requires
            old(self).wf(),
            old(self).request is Some,
            old(self).head is None,
        ensures
            final(self).wf(),
            final(self).head is None,
            final(self).done == old(self).done,
            final(self).request is None,
            final(self).consumed == old(self).consumed,
            final(self).index == old(self).index,
            final(self).supplied@ == old(self).supplied@.push(block@),
    {
        self.request = None;
        proof {
            self.supplied@ = self.supplied@.push(block@);
            assert(self.supplied@.drop_last() =~= old(self).supplied@);
            let c = self.consumed@ + head_seq(self.head);
            assert(c + Seq::empty() =~= c);
        }
        self.scan.supply(block);
    }
}

/// The pairs of each source: those that were taken, the next one, and `future`.
spec fn whole(sources: Seq<Source>, future: Seq<Seq<(Seq<u8>, Seq<u8>)>>) -> Seq<
    Seq<(Seq<u8>, Seq<u8>)>,
> {
    Seq::new(
        sources.len(),
        |i: int| sources[i].consumed@ + head_seq(sources[i].head) + future[i],
    )
}

/// The pairs of each source that were not taken: the next one, and `future`.
spec fn ahead(sources: Seq<Source>, future: Seq<Seq<(Seq<u8>, Seq<u8>)>>) -> Seq<
    Seq<(Seq<u8>, Seq<u8>)>,
> {
    Seq::new(sources.len(), |i: int| head_seq(sources[i].head) + future[i])
}

/// The sources may still bring these pairs.
spec fn may_bring(sources: Seq<Source>, future: Seq<Seq<(Seq<u8>, Seq<u8>)>>) -> bool {
    &&& future.len() == sources.len()
    &&& forall|i: int|
        0 <= i < sources.len() && (#[trigger] sources[i]).done ==> future[i].len() == 0
}

/// Whatever the sources still bring, what was written and the merge of what is
/// ahead make up the merge of the whole.
spec fn on_track(
    sources: Seq<Source>,
    last: Option<Seq<u8>>,
    drop_tombstones: bool,
    out: Seq<(Seq<u8>, Seq<u8>)>,
) -> bool {
    forall|future: Seq<Seq<(Seq<u8>, Seq<u8>)>>| #[trigger]
        may_bring(sources, future) ==> merged(whole(sources, future), None, drop_tombstones) == out
            + merged(ahead(sources, future), last, drop_tombstones)
}

/// Sum of the work that is left in the first `n` sources.
spec fn work_of(sources: Seq<Source>, n: nat) -> nat
    decreases n,
{
    if n == 0 {
        0
    } else {
        work_of(sources, (n - 1) as nat) + sources[n - 1].work()
    }
}

/// Changing one source changes the sum by the change of its work.
proof fn lemma_work(a: Seq<Source>, b: Seq<Source>, i: int, n: nat)
    requires
        0 <= i < a.len(),
        n <= a.len(),
        b == a.update(i, b[i]),
    ensures
        n <= i ==> work_of(b, n) == work_of(a, n),
        i < n ==> work_of(b, n) - b[i].work() == work_of(a, n) - a[i].work(),
    decreases n,
{
    if n > 0 {
        lemma_work(a, b, i, (n - 1) as nat);
    }
}

/// Reading the next pair of a source, or finding its end, keeps the merge on
/// track.
proof fn lemma_fill(
    a: Seq<Source>,
    b: Seq<Source>,
    i: int,
    last: Option<Seq<u8>>,
    drop_tombstones: bool,
    out: Seq<(Seq<u8>, Seq<u8>)>,
)
    requires
        on_track(a, last, drop_tombstones, out),
        0 <= i < a.len(),
        b == a.update(i, b[i]),
        b[i].consumed == a[i].consumed,
        a[i].done ==> b[i].done,
        b[i].head == a[i].head || (a[i].head is None && !a[i].done),
    ensures
        on_track(b, last, drop_tombstones, out),
{
    assert forall|future: Seq<Seq<(Seq<u8>, Seq<u8>)>>| #[trigger]
        may_bring(b, future) implies merged(whole(b, future), None, drop_tombstones) == out
        + merged(ahead(b, future), last, drop_tombstones) by {
        let earlier = if b[i].head == a[i].head {
            future
        } else {
            future.update(i, head_seq(b[i].head) + future[i])
        };
        assert forall|j: int| 0 <= j < a.len() && (#[trigger] a[j]).done implies earlier[j].len()
            == 0 by {
            if j != i {
                assert(b[j].done);
            } else {
                assert(b[i].done);
            }
        }
        assert(may_bring(a, earlier));
        assert(whole(a, earlier) =~= whole(b, future)) by {
            assert forall|j: int| 0 <= j < a.len() implies #[trigger] whole(a, earlier)[j] == whole(
                b,
                future,
            )[j] by {
                if j == i {
                    assert(whole(a, earlier)[j] =~= whole(b, future)[j]);
                }
            }
        }
        assert(ahead(a, earlier) =~= ahead(b, future)) by {
            assert forall|j: int| 0 <= j < a.len() implies #[trigger] ahead(a, earlier)[j] == ahead(
                b,
                future,
            )[j] by {
                if j == i {
                    assert(ahead(a, earlier)[j] =~= ahead(b, future)[j]);
                }
            }
        }
    }
}

/// Sources with the same first pairs have the same leader.
proof fn lemma_same_leader(
    a: Seq<Seq<(Seq<u8>, Seq<u8>)>>,
    b: Seq<Seq<(Seq<u8>, Seq<u8>)>>,
    n: nat,
)
    requires
        a.len() == b.len(),
        n <= a.len(),
        forall|i: int|
            0 <= i < a.len() ==> ((#[trigger] a[i]).len() == 0) == (b[i].len() == 0) && (a[i].len()
                > 0 ==> a[i][0] == b[i][0]),
    ensures
        leader_of(a, n) == leader_of(b, n),
    decreases n,
{
    if n > 0 {
        lemma_same_leader(a, b, (n - 1) as nat);
        lemma_leader(a, (n - 1) as nat);
        lemma_leader(b, (n - 1) as nat);
        assert((a[n - 1].len() == 0) == (b[n - 1].len() == 0));
        let q = leader_of(a, (n - 1) as nat);
        if q >= 0 {
            assert((a[q].len() == 0) == (b[q].len() == 0));
        }
    }
}

/// The next pairs alone.
spec fn heads(sources: Seq<Source>) -> Seq<Seq<(Seq<u8>, Seq<u8>)>> {
    Seq::new(sources.len(), |i: int| head_seq(sources[i].head))
}

/// The pairs after a step of the merge, when the leader's pair `e` came.
pub open spec fn written(
    out: Seq<(Seq<u8>, Seq<u8>)>,
    e: (Seq<u8>, Seq<u8>),
    last: Option<Seq<u8>>,
    drop_tombstones: bool,
) -> Seq<(Seq<u8>, Seq<u8>)> {
    if last == Some(e.0) || (drop_tombstones && e.1.len() == 0) {
        out
    } else {
        out.push(e)
    }
}

/// Taking the leader's pair keeps the merge on track.
proof fn lemma_take(
    a: Seq<Source>,
    b: Seq<Source>,
    p: int,
    e: (Seq<u8>, Seq<u8>),
    last: Option<Seq<u8>>,
    drop_tombstones: bool,
    out: Seq<(Seq<u8>, Seq<u8>)>,
)
    requires
        on_track(a, last, drop_tombstones, out),
        forall|i: int| 0 <= i < a.len() ==> (#[trigger] a[i]).head is Some || a[i].done,
        p == leader(heads(a)),
        0 <= p < a.len(),
        b == a.update(p, b[p]),
        head_seq(a[p].head) == seq![e],
        b[p].head is None,
        b[p].done == a[p].done,
        b[p].consumed@ == a[p].consumed@.push(e),
    ensures
        on_track(b, Some(e.0), drop_tombstones, written(out, e, last, drop_tombstones)),
{
    let after = written(out, e, last, drop_tombstones);
    assert forall|future: Seq<Seq<(Seq<u8>, Seq<u8>)>>| #[trigger]
        may_bring(b, future) implies merged(whole(b, future), None, drop_tombstones) == after
        + merged(ahead(b, future), Some(e.0), drop_tombstones) by {
        assert forall|j: int| 0 <= j < a.len() && (#[trigger] a[j]).done implies future[j].len()
            == 0 by {
            assert(b[j].done);
        }
        assert(may_bring(a, future));
        let before_step = ahead(a, future);
        assert(whole(a, future) =~= whole(b, future)) by {
            assert forall|j: int| 0 <= j < a.len() implies #[trigger] whole(a, future)[j] == whole(
                b,
                future,
            )[j] by {
                if j == p {
                    assert(whole(a, future)[j] =~= whole(b, future)[j]);
                }
            }
        }
        assert forall|i: int| 0 <= i < a.len() implies ((#[trigger] heads(a)[i]).len() == 0) == (
        before_step[i].len() == 0) && (heads(a)[i].len() > 0 ==> heads(a)[i][0]
            == before_step[i][0]) by {
            assert(a[i].head is Some || a[i].done);
        }
        lemma_same_leader(heads(a), before_step, a.len());
        assert(leader(before_step) == p);
        assert(before_step[p][0] == e);
        let rest = advanced(before_step, p);
        assert(rest =~= ahead(b, future)) by {
            assert forall|j: int| 0 <= j < a.len() implies #[trigger] rest[j] == ahead(
                b,
                future,
            )[j] by {
                if j == p {
                    assert(rest[j] =~= ahead(b, future)[j]);
                }
            }
        }
        let more = merged(rest, Some(e.0), drop_tombstones);
        assert(merged(before_step, last, drop_tombstones) == if last == Some(e.0) || (
        drop_tombstones && e.1.len() == 0) {
            more
        } else {
            seq![e] + more
        });
        assert(out + (seq![e] + more) =~= out.push(e) + more);
    }
}

/// What a compaction needs next.
pub enum CompactionStep {
    /// Block of `len` bytes at `offset` of the file of a source.
    Read {
        /// Number of the source.
        source: usize,
        /// Where the block starts.
        offset: u64,
        /// Length of the block.
        len: u64,
    },
    /// Nothing: all pairs are merged.
    Done,
}

/// A compaction in progress.
pub struct Compaction {
    level: usize,
    id: u64,
    path: String,
    old_ids: Vec<u64>,
    old_paths: Vec<String>,
    sources: Vec<Source>,
    drop_tombstones: bool,
    writer: SsTableWriter,
    last_key: Option<Vec<u8>>,
    wrote_any: bool,
    // The live tables when the compaction started, and the directory of the store.
    base: Ghost<Seq<Seq<SsTableMeta>>>,
    dir: Ghost<Seq<char>>,
}

/// The key that was written last.
spec fn last_view(last: Option<Vec<u8>>) -> Option<Seq<u8>> {
    match last {
        Some(key) => Some(key@),
        None => None,
    }
}

/// What a finished compaction leaves to do.
pub struct Compacted {
    /// The bytes that complete the new table, if there is one. They have to be
    /// written first.
    pub output: Option<Vec<u8>>,
    /// The change to the live tables.
    pub change: TableChange,
    /// Paths of the files to remove in the end.
    pub removed: Vec<String>,
}

/// The change that a finished compaction makes to the live tables.
pub struct TableChange {
    level: usize,
    old_ids: Vec<u64>,
    table: Option<SsTableMeta>,
    // The compaction.
    task: Ghost<Compaction>,
}

impl Compaction {
    /// The merge is on track.
    pub closed spec fn wf(self) -> bool {
        &&& forall|i: int| 0 <= i < self.sources@.len() ==> (#[trigger] self.sources@[i]).wf()
        &&& self.writer.wf()
        &&& self.writer.target() == DEFAULT_BLOCK_SIZE
        &&& self.wrote_any == (self.writer.entries().len() > 0)
        &&& on_track(
            self.sources@,
            last_view(self.last_key),
            self.drop_tombstones,
            self.writer.entries(),
        )
        &&& self.follows_plan()
    }

    /// The live tables when the compaction started.
    pub closed spec fn base(self) -> Seq<Seq<SsTableMeta>> {
        self.base@
    }

    /// The directory of the store.
    pub closed spec fn directory(self) -> Seq<char> {
        self.dir@
    }

    /// The tables that are merged, newest first.
    pub open spec fn inputs(self) -> Seq<SsTableMeta> {
        merge_inputs(self.base(), self.level() as int)
    }

    /// The table of source `i`. The sources come oldest first.
    pub open spec fn input(self, i: int) -> SsTableMeta {
        self.inputs()[self.inputs().len() - 1 - i]
    }

    /// The compaction merges the tables that it was started for. Tombstones are
    /// dropped only if no level comes after the one that the tables go to.
    pub open spec fn follows_plan(self) -> bool {
        let n = self.inputs().len();
        &&& self.drops_tombstones() == (self.level() + 2 >= self.base().len())
        &&& self.path() == table_path(
            self.directory(),
            (self.level() + 1) as nat,
            self.id() as nat,
        )
        &&& tables_of(self.base(), self.level() as int).len() > 0
        &&& self.width() == n
        &&& self.old_ids().len() == n
        &&& self.old_paths().len() == n
        &&& forall|i: int| 0 <= i < n ==> #[trigger] self.old_ids()[i] == self.input(i).id
        &&& forall|i: int| 0 <= i < n ==> #[trigger] self.old_paths()[i] == self.input(i).path@
    }

    /// A compaction keeps to the tables that it was started for.
    pub proof fn lemma_plan(self)
        requires
            self.wf(),
        ensures
            self.follows_plan(),
    {
    }

    /// The level that is compacted.
    pub closed spec fn level(self) -> usize {
        self.level
    }

    /// ID of the new table.
    pub closed spec fn id(self) -> u64 {
        self.id
    }

    /// Path of the file of the new table.
    pub closed spec fn path(self) -> Seq<char> {
        self.path@
    }

    /// IDs of the tables that are merged.
    pub closed spec fn old_ids(self) -> Seq<u64> {
        self.old_ids@
    }

    /// Paths of the files of the tables that are merged, oldest first.
    pub closed spec fn old_paths(self) -> Seq<Seq<char>> {
        self.old_paths@.map_values(|s: String| s@)
    }

    /// Whether tombstones are left out.
    pub closed spec fn drops_tombstones(self) -> bool {
        self.drop_tombstones
    }

    /// Number of sources.
    pub closed spec fn width(self) -> nat {
        self.sources@.len()
    }

    /// The index of source `i`.
    pub closed spec fn source_index(self, i: int) -> Seq<(Seq<u8>, nat, nat)> {
        self.sources@[i].index@
    }

    /// The blocks of source `i` that were supplied, in the order of its index.
    pub closed spec fn supplied(self, i: int) -> Seq<Seq<u8>> {
        self.sources@[i].supplied@
    }

    /// Source `i` waits for a block.
    pub closed spec fn waits_for(self, i: int) -> bool {
        self.sources@[i].request is Some && self.sources@[i].head is None
    }

    /// The pairs of the new table so far.
    pub closed spec fn entries(self) -> Seq<(Seq<u8>, Seq<u8>)> {
        self.writer.entries()
    }

    /// The output that was taken.
    pub closed spec fn taken(self) -> Seq<u8> {
        self.writer.taken()
    }

    /// All that does not change while pairs are merged.
    pub open spec fn same_task(self, other: Self) -> bool {
        &&& self.base() == other.base()
        &&& self.directory() == other.directory()
        &&& self.level() == other.level()
        &&& self.id() == other.id()
        &&& self.path() == other.path()
        &&& self.old_ids() == other.old_ids()
        &&& self.old_paths() == other.old_paths()
        &&& self.drops_tombstones() == other.drops_tombstones()
        &&& self.width() == other.width()
        &&& forall|i: int|
            0 <= i < self.width() ==> #[trigger] self.source_index(i) == other.source_index(i)
    }

    /// The blocks that were supplied hold, source by source, pairs that ascend and
    /// lie in the key range of the table. So they do if the tables are those that
    /// were written.
    pub open spec fn is_sound(self) -> bool {
        forall|i: int|
            0 <= i < self.width() ==> (decoded(#[trigger] self.supplied(i)) matches Some(s)
                && is_sound(s, self.input(i).min_key@, self.input(i).max_key@))
    }

    /// All blocks of all sources were supplied, and the new table is their
    /// merge, newer sources first.
    pub open spec fn is_complete(self) -> bool {
        &&& forall|i: int|
            0 <= i < self.width() ==> (#[trigger] self.supplied(i)).len() == self.source_index(
                i,
            ).len() && decoded(self.supplied(i)) is Some
        &&& self.entries() == merged(
            Seq::new(self.width(), |i: int| decoded(self.supplied(i))->0),
            None,
            self.drops_tombstones(),
        )
    }

    /// Merge pairs until a block is needed or all pairs are merged.
    ///
    /// # Errors
    ///
    /// Returns [`FormatError::TruncatedEntry`] if a supplied block ends in the
    /// middle of an entry.
    pub fn step(&mut self) -> (r: core::result::Result<CompactionStep, FormatError>)
        requires
            old(self).wf(),
        ensures
            final(self).wf(),
            final(self).same_task(*old(self)),
            final(self).taken() == old(self).taken(),
            forall|i: int|
                0 <= i < final(self).width() ==> #[trigger] final(self).supplied(i) == old(
                    self,
                ).supplied(i),
            match r {
                Ok(CompactionStep::Read { source, offset, len }) => {
                    let n = final(self).supplied(source as int).len() as int;
                    let index = final(self).source_index(source as int);
                    &&& source < final(self).width()
                    &&& final(self).waits_for(source as int)
                    &&& n < index.len()
                    &&& offset == index[n].1
                    &&& len == index[n].2
                },
                Ok(CompactionStep::Done) => final(self).is_complete(),
                Err(FormatError::TruncatedEntry) => exists|i: int|
                    0 <= i < final(self).width() && decoded(#[trigger] final(self).supplied(i))
                        is None,
                Err(_) => false,
            },
    {
        loop
            invariant
                self.wf(),
                self.same_task(*old(self)),
                self.taken() == old(self).taken(),
                forall|i: int|
                    0 <= i < self.width() ==> #[trigger] self.supplied(i) == old(self).supplied(i),
            decreases work_of(self.sources@, self.sources@.len()),
        {
            // Read the next pair of each source that has none.
            let ghost at_start = self.sources@;
            let mut i: usize = 0;
            while i < self.sources.len()
                invariant
                    self.wf(),
                    i <= self.sources@.len(),
                    self.same_task(*old(self)),
                    self.taken() == old(self).taken(),
                    self.sources@.len() == at_start.len(),
                    forall|j: int|
                        0 <= j < self.width() ==> #[trigger] self.supplied(j) == old(
                            self,
                        ).supplied(j),
                    forall|j: int|
                        0 <= j < i ==> (#[trigger] self.sources@[j]).head is Some
                            || self.sources@[j].done,
                    work_of(self.sources@, self.sources@.len()) <= work_of(
                        at_start,
                        at_start.len(),
                    ),
                decreases self.sources@.len() - i,
            {
                let ghost before_step = *self;
                let ghost a = self.sources@;
                assert(a[i as int].wf());
                let filled: core::result::Result<Option<(u64, u64)>, FormatError> = self.sources[i]
                    .fill();
                proof {
                    let b = self.sources@;
                    assert(b =~= a.update(i as int, b[i as int]));
                    lemma_work(a, b, i as int, a.len());
                    lemma_fill(
                        a,
                        b,
                        i as int,
                        last_view(self.last_key),
                        self.drop_tombstones,
                        self.writer.entries(),
                    );
                    assert forall|j: int| 0 <= j < b.len() implies (#[trigger] b[j]).wf() by {
                        assert(a[j].wf());
                    }
                    assert forall|j: int| 0 <= j < self.width() implies #[trigger] self.supplied(j)
                        == old(self).supplied(j) by {
                        assert(before_step.supplied(j) == old(self).supplied(j));
                    }
                    assert forall|j: int|
                        0 <= j < self.width() implies #[trigger] self.source_index(j) == old(
                        self,
                    ).source_index(j) by {
                        assert(before_step.source_index(j) == old(self).source_index(j));
                    }
                }
                match filled {
                    Ok(None) => {},
                    Ok(Some((offset, len))) => {
                        assert(self.sources@[i as int].wf());
                        return Ok(CompactionStep::Read { source: i, offset, len });
                    },
                    Err(e) => {
                        proof {
                            let s = self.sources@[i as int];
                            assert(self.supplied(i as int) == s.supplied@);
                            assert(decoded(self.supplied(i as int)) is None);
                        }
                        return Err(e);
                    },
                }
                i += 1;
            }
            // Take the smallest key, from the newest source that has it.
            match self.next_source() {
                None => {
                    proof {
                        self.lemma_complete();
                    }
                    return Ok(CompactionStep::Done);
                },
                Some(p) => {
                    self.take_from(p);
                },
            }
        }
    }

    /// When no source has a pair left the merge is complete.
    proof fn lemma_complete(self)
        requires
            self.wf(),
            forall|i: int|
                0 <= i < self.sources@.len() ==> (#[trigger] self.sources@[i]).done
                    && self.sources@[i].head is None,
        ensures
            self.is_complete(),
    {
        let n = self.sources@.len();
        let none = Seq::new(n, |i: int| Seq::<(Seq<u8>, Seq<u8>)>::empty());
        assert(may_bring(self.sources@, none));
        assert forall|i: int| 0 <= i < self.width() implies (#[trigger] self.supplied(i)).len()
            == self.source_index(i).len() && decoded(self.supplied(i)) == Some(
            self.sources@[i].consumed@,
        ) by {
            let s = self.sources@[i];
            assert(s.wf());
            assert(s.done && s.head is None);
            assert(s.scan.block_rest() =~= Seq::<u8>::empty());
            assert(s.consumed@ + head_seq(s.head) + Seq::empty() =~= s.consumed@);
        }
        let all = Seq::new(n, |i: int| decoded(self.supplied(i))->0);
        assert(whole(self.sources@, none) =~= all) by {
            assert forall|i: int| 0 <= i < n implies #[trigger] whole(self.sources@, none)[i]
                == all[i] by {
                let s = self.sources@[i];
                assert(s.done && s.head is None);
                assert(self.supplied(i) == s.supplied@);
                assert(whole(self.sources@, none)[i] =~= s.consumed@);
            }
        }
        let left = ahead(self.sources@, none);
        assert forall|i: int| 0 <= i < n implies (#[trigger] left[i]).len() == 0 by {
            let s = self.sources@[i];
            assert(s.done && s.head is None);
        }
        lemma_leader(left, n);
        let last = last_view(self.last_key);
        assert(merged(left, last, self.drop_tombstones) =~= Seq::<(Seq<u8>, Seq<u8>)>::empty());
        assert(self.writer.entries() + Seq::<(Seq<u8>, Seq<u8>)>::empty()
            =~= self.writer.entries());
    }

    /// The source with the smallest next key, the newest one if several have
    /// it.
    fn next_source(&self) -> (r: Option<usize>)
        ensures
            match r {
                Some(p) => p == leader(heads(self.sources@)) && p < self.sources@.len()
                    && self.sources@[p as int].head is Some,
                None => forall|i: int|
                    0 <= i < self.sources@.len() ==> (#[trigger] self.sources@[i]).head is None,
            },
    {
        let ghost all = heads(self.sources@);
        let mut best: Option<usize> = None;
        let mut i: usize = 0;
        while i < self.sources.len()
            invariant
                i <= self.sources@.len(),
                all == heads(self.sources@),
                match best {
                    Some(p) => p < i && p == leader_of(all, i as nat) && self.sources@[p as int].head
                        is Some,
                    None => leader_of(all, i as nat) == -1,
                },
            decreases self.sources@.len() - i,
        {
            if let Some(e) = &self.sources[i].head {
                assert(all[i as int] == seq![(e.0@, e.1@)]);
                let newer: bool = match best {
                    None => true,
                    Some(p) => match &self.sources[p].head {
                        Some(b) => {
                            assert(all[p as int] == seq![(b.0@, b.1@)]);
                            bytes_le(e.0.as_slice(), b.0.as_slice())
                        },
                        None => true,
                    },
                };
                if newer {
                    best = Some(i);
                }
            } else {
                assert(all[i as int].len() == 0);
            }
            i += 1;
        }
        proof {
            lemma_leader(all, all.len());
            if best is None {
                assert forall|j: int| 0 <= j < self.sources@.len() implies (
                #[trigger] self.sources@[j]).head is None by {
                    assert(all[j].len() == 0);
                }
            }
        }
        best
    }

    /// Take the next pair of source `p` and write it unless its key was written
    /// before or it is a tombstone to be dropped.
    fn take_from(&mut self, p: usize)
        requires
            old(self).wf(),
            p < old(self).sources@.len(),
            p == leader(heads(old(self).sources@)),
            old(self).sources@[p as int].head is Some,
            forall|i: int|
                0 <= i < old(self).sources@.len() ==> (#[trigger] old(self).sources@[i]).head
                    is Some || old(self).sources@[i].done,
        ensures
            final(self).wf(),
            final(self).same_task(*old(self)),
            final(self).taken() == old(self).taken(),
            forall|i: int|
                0 <= i < final(self).width() ==> #[trigger] final(self).supplied(i) == old(
                    self,
                ).supplied(i),
            work_of(final(self).sources@, final(self).sources@.len()) < work_of(
                old(self).sources@,
                old(self).sources@.len(),
            ),
    {
        let ghost a = self.sources@;
        let ghost last = last_view(self.last_key);
        let ghost out = self.writer.entries();
        assert(a[p as int].wf());
        let (key, value): (Vec<u8>, Vec<u8>) = self.sources[p].take();
        let ghost b = self.sources@;
        proof {
            assert(b =~= a.update(p as int, b[p as int]));
            lemma_work(a, b, p as int, a.len());
            lemma_take(a, b, p as int, (key@, value@), last, self.drop_tombstones, out);
            assert forall|j: int| 0 <= j < b.len() implies (#[trigger] b[j]).wf() by {
                assert(a[j].wf());
            }
        }
        // Deduplicate: skip if same key as previous (the newer version came
        // first).
        let repeated: bool = match &self.last_key {
            Some(last_key) => bytes_equal(last_key.as_slice(), key.as_slice()),
            None => false,
        };
        if !repeated {
            self.last_key = Some(bytes_copy(key.as_slice()));
            // Drop tombstones at the highest level.
            if !(self.drop_tombstones && value.len() == 0) {
                self.writer.add(key.as_slice(), value.as_slice());
                self.wrote_any = true;
            }
        }
        assert(last_view(self.last_key) == Some(key@));
    }

    /// Supply the block that source `source` waits for.
    pub fn supply(&mut self, source: usize, block: Vec<u8>)
        requires
            old(self).wf(),
            source < old(self).width(),
            old(self).waits_for(source as int),
        ensures
            final(self).wf(),
            final(self).same_task(*old(self)),
            final(self).taken() == old(self).taken(),
            final(self).entries() == old(self).entries(),
            forall|i: int|
                0 <= i < final(self).width() ==> #[trigger] final(self).supplied(i) == if i
                    == source {
                    old(self).supplied(i).push(block@)
                } else {
                    old(self).supplied(i)
                },
    {
        let ghost a = self.sources@;
        assert(a[source as int].wf());
        self.sources[source].supply(block);
        proof {
            let b = self.sources@;
            assert(b =~= a.update(source as int, b[source as int]));
            lemma_fill(
                a,
                b,
                source as int,
                last_view(self.last_key),
                self.drop_tombstones,
                self.writer.entries(),
            );
            assert forall|j: int| 0 <= j < b.len() implies (#[trigger] b[j]).wf() by {
                assert(a[j].wf());
            }
        }
    }

    /// Take the finished blocks of the new table, to be written to the end of
    /// its file.
    pub fn take_output(&mut self) -> (r: Vec<u8>)
        requires
            old(self).wf(),
        ensures
            final(self).wf(),
            final(self).same_task(*old(self)),
            final(self).taken() == old(self).taken() + r@,
            final(self).taken() == full_block_bytes(
                old(self).entries(),
                DEFAULT_BLOCK_SIZE as nat,
            ),
            final(self).entries() == old(self).entries(),
            forall|i: int|
                0 <= i < final(self).width() ==> #[trigger] final(self).supplied(i) == old(
                    self,
                ).supplied(i) && final(self).waits_for(i) == old(self).waits_for(i),
            old(self).is_complete() ==> final(self).is_complete(),
    {
        let r: Vec<u8> = self.writer.take_output();
        proof {
            if old(self).is_complete() {
                let s = Seq::new(self.width(), |i: int| decoded(self.supplied(i))->0);
                let t = Seq::new(old(self).width(), |i: int| decoded(old(self).supplied(i))->0);
                assert(s =~= t);
                assert forall|i: int| 0 <= i < self.width() implies (#[trigger] self.supplied(
                    i,
                )).len() == self.source_index(i).len() && decoded(self.supplied(i)) is Some by {
                    assert(old(self).supplied(i).len() == old(self).source_index(i).len());
                }
            }
        }
        r
    }

    /// Path of the file of the new table.
    pub fn table_path(&self) -> (r: &str)
        ensures
            r@ == self.path(),
    {
        self.path.as_str()
    }

    /// The description of the new table.
    pub open spec fn is_described_by(self, meta: SsTableMeta) -> bool {
        &&& meta.id == self.id()
        &&& meta.level == self.level() + 1
        &&& meta.path@ == self.path()
        &&& meta.entry_count == stored(self.entries().len())
        &&& meta.min_key@ == first_key_of(self.entries())
        &&& meta.max_key@ == last_key_of(self.entries())
    }

    /// The compaction takes the live tables from `before` to `after`: the merged
    /// tables leave, and the new table joins if it has entries.
    pub open spec fn is_finished(
        self,
        before: Seq<Seq<SsTableMeta>>,
        after: Seq<Seq<SsTableMeta>>,
    ) -> bool {
        let l = self.level() as int;
        let rest = without(without(before, l, self.old_ids()), l + 1, self.old_ids());
        if self.entries().len() == 0 {
            after == rest
        } else {
            let meta = after[l + 1][0];
            is_added(rest, after, meta) && self.is_described_by(meta)
        }
    }

    /// Complete the new table. All pairs must be merged.
    pub fn finish(self) -> (r: Compacted)
        requires
            self.wf(),
            self.is_complete(),
            self.level() < usize::MAX,
        ensures
            match r.output {
                None => self.entries().len() == 0,
                Some(output) => {
                    &&& self.entries().len() > 0
                    &&& self.taken() + output@ == table_bytes(
                        self.entries(),
                        DEFAULT_BLOCK_SIZE as nat,
                    )
                },
            },
            r.removed@.map_values(|s: String| s@) == self.old_paths(),
            r.change.wf(),
            r.change.task() == self,
    {
        let task: Compaction = self;
        if !task.wrote_any {
            return Compacted {
                output: None,
                change: TableChange {
                    level: task.level,
                    old_ids: task.old_ids,
                    table: None,
                    task: Ghost(self),
                },
                removed: task.old_paths,
            };
        }
        let finished: Finished = task.writer.finish();
        let meta: SsTableMeta = SsTableMeta {
            id: task.id,
            level: task.level + 1,
            path: task.path,
            entry_count: finished.entry_count,
            min_key: finished.min_key,
            max_key: finished.max_key,
        };
        Compacted {
            output: Some(finished.output),
            change: TableChange {
                level: task.level,
                old_ids: task.old_ids,
                table: Some(meta),
                task: Ghost(self),
            },
            removed: task.old_paths,
        }
    }
}

impl TableChange {
    /// The change is that of its compaction.
    pub closed spec fn wf(self) -> bool {
        &&& self.level == self.task().level()
        &&& self.old_ids@ == self.task().old_ids()
        &&& match self.table {
            None => self.task().entries().len() == 0,
            Some(meta) => self.task().entries().len() > 0 && self.task().is_described_by(meta),
        }
    }

    /// The compaction.
    pub closed spec fn task(self) -> Compaction {
        self.task@
    }

    /// Make the change: the merged tables leave the manifest, and the new table
    /// joins it if it has entries.
    pub fn apply(self, manifest: &mut Manifest)
        requires
            self.wf(),
            self.task().level() + 1 < usize::MAX,
        ensures
            self.task().is_finished(old(manifest)@, final(manifest)@),
            final(manifest).next_id() == old(manifest).next_id(),
            final(manifest).issued() == old(manifest).issued(),
            old(manifest).wf() ==> final(manifest).wf(),
            final(manifest).directory() == old(manifest).directory(),
    {
        let change: TableChange = self;
        manifest.remove(change.level, change.old_ids.as_slice());
        manifest.remove(change.level + 1, change.old_ids.as_slice());
        let ghost rest = manifest@;
        if let Some(meta) = change.table {
            let ghost before_add = *manifest;
            let ghost l = change.level + 1;
            manifest.add(meta);
            proof {
                assert(manifest@[l] == seq![meta] + before_add.tables_at(l));
                assert(is_added(rest, manifest@, meta));
            }
        }
    }
}

/// The test for tables that do not reach into the key range that the tables
/// span.
pub open spec fn missed_by(tables: Seq<SsTableMeta>) -> spec_fn(SsTableMeta) -> bool {
    |m: SsTableMeta| !reaches(tables, m)
}

/// The new tables as a list.
pub open spec fn as_list(new: Option<SsTableMeta>) -> Seq<SsTableMeta> {
    match new {
        Some(m) => seq![m],
        None => Seq::empty(),
    }
}

/// `after` is `before` with the tables of a level merged into the next level:
/// the level is empty, and the new table has taken the place of those that the
/// level reached into.
pub open spec fn is_replaced(
    before: Seq<Seq<SsTableMeta>>,
    after: Seq<Seq<SsTableMeta>>,
    level: int,
    new: Option<SsTableMeta>,
) -> bool {
    &&& before.len() <= after.len()
    &&& tables_of(after, level).len() == 0
    &&& tables_of(after, level + 1) == as_list(new) + tables_of(before, level + 1).filter(
        missed_by(tables_of(before, level)),
    )
    &&& forall|l: int|
        l != level && l != level + 1 ==> #[trigger] tables_of(after, l) == tables_of(before, l)
}

impl Compaction {
    /// The table that a finished compaction adds, if it has entries.
    pub open spec fn new_table(self, after: Seq<Seq<SsTableMeta>>) -> Option<SsTableMeta> {
        if self.entries().len() > 0 {
            Some(after[self.level() + 1][0])
        } else {
            None
        }
    }

    /// The tables of a level are listed for removal exactly if they are merged.
    proof fn lemma_listed(self, issued: nat, l: int, i: int)
        requires
            self.follows_plan(),
            is_numbered(self.base(), issued),
            0 <= l < self.base().len(),
            0 <= i < self.base()[l].len(),
        ensures
            self.old_ids().contains(self.base()[l][i].id) == (l == self.level() || (l == self.level()
                + 1 && reaches(
                tables_of(self.base(), self.level() as int),
                self.base()[l][i],
            ))),
    {
        let base = self.base();
        let here = self.level() as int;
        let tables = tables_of(base, here);
        let below = tables_of(base, here + 1);
        let p = reached_by(tables);
        let n = self.inputs().len();
        let m = base[l][i];
        if self.old_ids().contains(m.id) {
            let x = choose|x: int| 0 <= x < self.old_ids().len() && self.old_ids()[x] == m.id;
            assert(self.old_ids()[x] == self.input(x).id);
            let y = n - 1 - x;
            if y < tables.len() {
                assert(self.input(x) == base[here][y]);
            } else {
                let at = lemma_filtered(below, p, y - tables.len(), y - tables.len());
                assert(self.input(x) == base[here + 1][at.0]);
            }
        }
        if l == here {
            assert(self.inputs()[i] == m);
            assert(self.old_ids()[n - 1 - i] == self.input(n - 1 - i).id);
        } else if l == here + 1 && reaches(tables, m) {
            let at = lemma_kept(below, p, i);
            let y = tables.len() + at;
            assert(self.inputs()[y] == m);
            assert(self.old_ids()[n - 1 - y] == self.input(n - 1 - y).id);
        }
    }

    /// What a finished compaction makes of the live tables.
    pub proof fn lemma_replaced(self, after: Seq<Seq<SsTableMeta>>, issued: nat)
        requires
            self.follows_plan(),
            is_numbered(self.base(), issued),
            self.is_finished(self.base(), after),
        ensures
            is_replaced(self.base(), after, self.level() as int, self.new_table(after)),
    {
        let base = self.base();
        let here = self.level() as int;
        let ids = self.old_ids();
        let p = not_listed(ids);
        let tables = tables_of(base, here);
        let below = tables_of(base, here + 1);
        let one = without(base, here, ids);
        let rest = without(one, here + 1, ids);
        let none = |m: SsTableMeta| false;
        assert forall|i: int| 0 <= i < tables.len() implies p(#[trigger] tables[i]) == none(
            tables[i],
        ) by {
            self.lemma_listed(issued, here, i);
        }
        lemma_same_filter(tables, p, none);
        if tables.filter(none).len() > 0 {
            lemma_filtered(tables, none, 0, 0);
        }
        if here + 1 < base.len() {
            assert forall|i: int| 0 <= i < below.len() implies p(#[trigger] below[i]) == missed_by(
                tables,
            )(below[i]) by {
                self.lemma_listed(issued, here + 1, i);
            }
            lemma_same_filter(below, p, missed_by(tables));
        } else {
            reveal(Seq::filter);
        }
        assert(tables_of(rest, here + 1) == below.filter(missed_by(tables)));
        assert forall|l: int| l != here && l != here + 1 implies #[trigger] tables_of(rest, l)
            == tables_of(base, l) by {}
        match self.new_table(after) {
            None => {
                let kept = below.filter(missed_by(tables));
                assert(Seq::<SsTableMeta>::empty() + kept =~= kept);
            },
            Some(meta) => {
                assert(after[here + 1] == seq![meta] + tables_of(rest, here + 1));
                assert(after[here] == tables_of(rest, here));
                assert forall|l: int| l != here && l != here + 1 implies #[trigger] tables_of(
                    after,
                    l,
                ) == tables_of(base, l) by {
                    if 0 <= l < after.len() {
                        assert(after[l] == tables_of(rest, l));
                    }
                    assert(tables_of(rest, l) == tables_of(base, l));
                }
            },
        }
    }

    /// The pairs of the new table ascend, and each has its key from a source.
    pub proof fn lemma_entries(self, i: int) -> (from: int)
        requires
            self.follows_plan(),
            self.is_complete(),
            self.is_sound(),
            0 <= i < self.entries().len(),
        ensures
            key_sorted(self.entries()),
            0 <= from < self.width(),
            lex_le(self.input(from).min_key@, self.entries()[i].0),
            lex_le(self.entries()[i].0, self.input(from).max_key@),
    {
        let sources = Seq::new(self.width(), |j: int| decoded(self.supplied(j))->0);
        assert forall|j: int| 0 <= j < sources.len() implies key_sorted(#[trigger] sources[j]) by {
            assert(self.supplied(j).len() == self.source_index(j).len());
        }
        law_merge_keeps_the_newest(sources, self.drops_tombstones());
        let k = self.entries()[i].0;
        assert(has_key(self.entries(), k));
        assert(newest(sources, k) is Some);
        let from = lemma_newest_from(sources, k);
        assert(self.supplied(from).len() == self.source_index(from).len());
        let s = sources[from];
        let x = choose|x: int| 0 <= x < s.len() && (#[trigger] s[x]).0 == k;
        assert(s[x].0 == k);
        from
    }

    /// A compaction keeps the live tables in order: the IDs stay distinct, each
    /// table is at its level, and those of level 0 come newest first.
    pub proof fn lemma_ranked(self, after: Seq<Seq<SsTableMeta>>, issued: nat)
        requires
            self.follows_plan(),
            is_ranked(self.base(), issued),
            self.id() < issued,
            is_new_id(self.base(), self.id()),
            self.is_finished(self.base(), after),
        ensures
            is_ranked(after, issued),
    {
        let base = self.base();
        let here = self.level() as int;
        let tables = tables_of(base, here);
        let below = tables_of(base, here + 1);
        let p = missed_by(tables);
        let new = self.new_table(after);
        self.lemma_replaced(after, issued);
        // Where each table comes from.
        let n = as_list(new).len() as int;
        assert forall|l: int, i: int| 0 <= l < after.len() && 0 <= i < after[l].len() implies (
        #[trigger] after[l][i]).id < issued by {
            assert(tables_of(after, l) == after[l]);
            if l == here + 1 {
                if i >= n {
                    let at = lemma_filtered(below, p, i - n, i - n);
                    assert(after[l][i] == base[l][at.0]);
                }
            } else if l != here {
                assert(after[l] == tables_of(base, l));
                assert(after[l][i] == base[l][i]);
            }
        }
        assert forall|l: int, i: int, k: int, j: int|
            0 <= l < after.len() && 0 <= i < after[l].len() && 0 <= k < after.len() && 0 <= j
                < after[k].len() && (l != k || i != j) implies (#[trigger] after[l][i]).id != (
        #[trigger] after[k][j]).id by {
            assert(tables_of(after, l) == after[l] && tables_of(after, k) == after[k]);
            let (a, a_new) = self.lemma_origin(after, l, i);
            let (b, b_new) = self.lemma_origin(after, k, j);
            if a_new && !b_new {
                assert(base[k][b].id != self.id());
            } else if b_new && !a_new {
                assert(base[l][a].id != self.id());
            } else if !a_new && !b_new {
                if l == k {
                    if l == here + 1 {
                        let at = lemma_filtered(below, p, i - n, j - n);
                        assert(after[l][i] == base[l][at.0] && after[l][j] == base[l][at.1]);
                        assert(base[l][at.0].id != base[l][at.1].id);
                    } else {
                        assert(after[l] == tables_of(base, l));
                        assert(base[l][i].id != base[l][j].id);
                    }
                } else {
                    assert(base[l][a].id != base[k][b].id);
                }
            }
        }
        assert forall|l: int, i: int| 0 <= l < after.len() && 0 <= i < after[l].len() implies (
        #[trigger] after[l][i]).level == l by {
            let (a, a_new) = self.lemma_origin(after, l, i);
            if !a_new {
                assert(base[l][a].level == l);
            }
        }
        assert(newest_first(tables_of(after, 0))) by {
            if here != 0 {
                assert(tables_of(after, 0) == tables_of(base, 0));
            }
        }
    }

    /// A compaction of tables that hold what was written keeps the levels above 0
    /// without overlaps.
    pub proof fn lemma_disjoint(self, after: Seq<Seq<SsTableMeta>>, issued: nat)
        requires
            self.follows_plan(),
            self.is_complete(),
            self.is_sound(),
            is_orderly(self.base(), issued),
            self.is_finished(self.base(), after),
        ensures
            is_disjoint(after),
    {
        let base = self.base();
        let here = self.level() as int;
        let tables = tables_of(base, here);
        let below = tables_of(base, here + 1);
        let p = missed_by(tables);
        let kept = below.filter(p);
        let new = self.new_table(after);
        self.lemma_replaced(after, issued);
        assert forall|l: int| 1 <= l < after.len() implies is_split(#[trigger] after[l]) by {
            assert(tables_of(after, l) == after[l]);
            if l == here + 1 {
                if here + 1 < base.len() {
                    assert(is_split(base[here + 1]));
                }
                lemma_split_filtered(below, p);
                if let Some(meta) = new {
                    self.lemma_new_range(after, issued);
                    assert forall|i: int, j: int| 0 <= i < j < after[l].len() implies is_apart(
                        #[trigger] after[l][i],
                        #[trigger] after[l][j],
                    ) by {
                        assert(after[l][j] == kept[j - 1]);
                        if i == 0 {
                            assert(is_apart(meta, kept[j - 1]));
                        } else {
                            assert(after[l][i] == kept[i - 1]);
                            assert(is_apart(kept[i - 1], kept[j - 1]));
                        }
                    }
                    assert forall|i: int| 0 <= i < after[l].len() implies lex_le(
                        (#[trigger] after[l][i]).min_key@,
                        after[l][i].max_key@,
                    ) by {
                        if i > 0 {
                            assert(after[l][i] == kept[i - 1]);
                        }
                    }
                } else {
                    assert(after[l] =~= kept);
                }
            } else if l != here {
                assert(after[l] == tables_of(base, l));
                if l < base.len() {
                    assert(is_split(base[l]));
                }
            }
        }
    }

    /// Where a table after the compaction was before, if it is not the new one.
    pub proof fn lemma_origin(self, after: Seq<Seq<SsTableMeta>>, l: int, i: int) -> (r: (
        int,
        bool,
    ))
        requires
            is_replaced(self.base(), after, self.level() as int, self.new_table(after)),
            0 <= l < after.len(),
            0 <= i < after[l].len(),
        ensures
            r.1 == (l == self.level() + 1 && i < as_list(self.new_table(after)).len()),
            r.1 ==> i == 0 && Some(after[l][i]) == self.new_table(after),
            !r.1 ==> 0 <= l < self.base().len() && 0 <= r.0 < self.base()[l].len()
                && self.base()[l][r.0] == after[l][i],
    {
        let base = self.base();
        let here = self.level() as int;
        let n = as_list(self.new_table(after)).len() as int;
        assert(tables_of(after, l) == after[l]);
        if l == here + 1 {
            if i < n {
                (0, true)
            } else {
                let at = lemma_filtered(
                    tables_of(base, l),
                    missed_by(tables_of(base, here)),
                    i - n,
                    i - n,
                );
                (at.0, false)
            }
        } else {
            assert(tables_of(after, l) == tables_of(base, l));
            (i, false)
        }
    }

    /// The new table does not overlap the tables that stay in its level.
    proof fn lemma_new_range(self, after: Seq<Seq<SsTableMeta>>, issued: nat)
        requires
            self.follows_plan(),
            self.is_complete(),
            self.is_sound(),
            is_orderly(self.base(), issued),
            self.is_finished(self.base(), after),
            self.entries().len() > 0,
        ensures
            ({
                let meta = after[self.level() + 1][0];
                let tables = tables_of(self.base(), self.level() as int);
                let kept = tables_of(self.base(), self.level() + 1).filter(missed_by(tables));
                &&& lex_le(meta.min_key@, meta.max_key@)
                &&& forall|j: int| 0 <= j < kept.len() ==> is_apart(meta, #[trigger] kept[j])
            }),
    {
        let here = self.level() as int;
        let meta = after[here + 1][0];
        let tables = tables_of(self.base(), here);
        let below = tables_of(self.base(), here + 1);
        let p = missed_by(tables);
        let kept = below.filter(p);
        let out = self.entries();
        let last = out.len() - 1;
        let a = self.lemma_entries(0);
        let b = self.lemma_entries(last);
        lemma_lex(out[0].0, out[0].0, out[0].0);
        if last > 0 {
            assert(lex_lt(out[0].0, out[last].0));
        }
        assert forall|j: int| 0 <= j < kept.len() implies is_apart(meta, #[trigger] kept[j]) by {
            let at = lemma_filtered(below, p, j, j);
            let u = kept[j];
            assert(is_split(self.base()[here + 1]));
            assert(lex_le(below[at.0].min_key@, below[at.0].max_key@));
            if forall|i: int|
                0 <= i < tables.len() ==> lex_lt(u.max_key@, (#[trigger] tables[i]).min_key@) {
                self.lemma_beyond(a, at.0, issued);
                lemma_lex(u.max_key@, self.input(a).min_key@, out[0].0);
                lemma_lex(self.input(a).min_key@, out[0].0, u.max_key@);
            } else {
                self.lemma_beyond(b, at.0, issued);
                lemma_lex(out[last].0, self.input(b).max_key@, u.min_key@);
                lemma_lex(self.input(b).max_key@, u.min_key@, out[last].0);
            }
        }
    }

    /// A table of the next level that is not merged lies on the same side of
    /// each source as of the compacted level.
    pub proof fn lemma_beyond(self, i: int, j: int, issued: nat)
        requires
            self.follows_plan(),
            is_orderly(self.base(), issued),
            0 <= i < self.width(),
            0 <= j < tables_of(self.base(), self.level() + 1).len(),
            !reaches(
                tables_of(self.base(), self.level() as int),
                tables_of(self.base(), self.level() + 1)[j],
            ),
        ensures
            ({
                let tables = tables_of(self.base(), self.level() as int);
                let u = tables_of(self.base(), self.level() + 1)[j];
                if forall|x: int|
                    0 <= x < tables.len() ==> lex_lt(u.max_key@, (#[trigger] tables[x]).min_key@) {
                    lex_lt(u.max_key@, self.input(i).min_key@)
                } else {
                    lex_lt(self.input(i).max_key@, u.min_key@)
                }
            }),
    {
        let here = self.level() as int;
        let tables = tables_of(self.base(), here);
        let below = tables_of(self.base(), here + 1);
        let u = below[j];
        let y = self.inputs().len() - 1 - i;
        assert(is_split(self.base()[here + 1]));
        if y < tables.len() {
            assert(self.input(i) == tables[y]);
        } else {
            let p = reached_by(tables);
            let at = lemma_filtered(below, p, y - tables.len(), y - tables.len());
            let t = self.input(i);
            assert(t == below[at.0]);
            assert(is_apart(t, u)) by {
                if at.0 < j {
                    assert(is_apart(below[at.0], below[j]));
                } else {
                    assert(is_apart(below[j], below[at.0]));
                }
            }
            assert(lex_le(below[j].min_key@, below[j].max_key@));
            // Where `t` reaches into the level.
            let x = choose|x: int|
                0 <= x < tables.len() && !lex_lt(t.max_key@, (#[trigger] tables[x]).min_key@);
            let z = choose|z: int|
                0 <= z < tables.len() && !lex_lt((#[trigger] tables[z]).max_key@, t.min_key@);
            lemma_lex(t.max_key@, tables[x].min_key@, u.max_key@);
            lemma_lex(u.max_key@, tables[x].min_key@, t.max_key@);
            lemma_lex(t.max_key@, u.min_key@, u.max_key@);
            lemma_lex(u.max_key@, t.max_key@, u.min_key@);
            lemma_lex(u.max_key@, t.max_key@, tables[x].min_key@);
            lemma_lex(tables[z].max_key@, t.min_key@, u.min_key@);
            lemma_lex(t.min_key@, tables[z].max_key@, u.min_key@);
            lemma_lex(u.max_key@, t.min_key@, u.min_key@);
            lemma_lex(t.min_key@, u.min_key@, u.max_key@);
            lemma_lex(u.min_key@, u.max_key@, t.min_key@);
        }
    }
}

/// The source that has the newest value.
pub proof fn lemma_newest_from(sources: Seq<Seq<(Seq<u8>, Seq<u8>)>>, k: Seq<u8>) -> (from: int)
    requires
        newest(sources, k) is Some,
    ensures
        0 <= from < sources.len(),
        has_key(sources[from], k),
    decreases sources.len(),
{
    if has_key(sources.last(), k) {
        sources.len() - 1
    } else {
        lemma_newest_from(sources.drop_last(), k)
    }
}

/// The levels without the listed tables of one level.
pub open spec fn without(
    levels: Seq<Seq<SsTableMeta>>,
    level: int,
    ids: Seq<u64>,
) -> Seq<Seq<SsTableMeta>> {
    if 0 <= level < levels.len() {
        levels.update(level, levels[level].filter(super::manifest::not_listed(ids)))
    } else {
        levels
    }
}

/// `after` is `before` with a table added as the newest of its level.
pub open spec fn is_added(
    before: Seq<Seq<SsTableMeta>>,
    after: Seq<Seq<SsTableMeta>>,
    meta: SsTableMeta,
) -> bool {
    &&& after.len() == if meta.level < before.len() {
        before.len()
    } else {
        (meta.level + 1) as nat
    }
    &&& forall|l: int|
        0 <= l < after.len() ==> #[trigger] after[l] == if l == meta.level {
            seq![meta] + tables_of(before, l)
        } else {
            tables_of(before, l)
        }
}

/// The compaction of a level has just begun.
pub open spec fn is_started(
    c: Compaction,
    manifest: Manifest,
    level: usize,
    indexes: Seq<Vec<IndexEntry>>,
) -> bool {
    &&& c.wf()
    &&& c.base() == manifest@
    &&& c.directory() == manifest.directory()
    &&& c.level() == level
    &&& c.id() == manifest.next_id()
    &&& c.follows_plan()
    &&& forall|i: int|
        0 <= i < c.width() ==> #[trigger] c.source_index(i) == index_views(indexes[i]@)
            && c.supplied(i).len() == 0
    &&& c.entries().len() == 0
    &&& c.taken().len() == 0
}

/// Start to merge all SSTables at `level`, and those of `level + 1` that reach
/// into their key range, into one SSTable at `level + 1`.
///
/// The indexes are those of the tables that are merged, oldest first (see
/// [`compaction_sources`]). Uses a streaming k-way merge: only one block per
/// input SSTable is held in memory at a time. Duplicate keys are resolved by
/// keeping the newest (highest source index) value. Tombstones are dropped only
/// at the highest level.
///
/// Returns `None` if the level has no tables.
pub fn compact_level(manifest: &mut Manifest, level: usize, indexes: Vec<Vec<IndexEntry>>) -> (r:
    Option<Compaction>)
    requires
        level + 1 < usize::MAX,
        indexes@.len() == merge_inputs(old(manifest)@, level as int).len(),
    ensures
        final(manifest)@ == old(manifest)@,
        final(manifest).directory() == old(manifest).directory(),
        old(manifest).wf() ==> final(manifest).wf(),
        match r {
            None => old(manifest).tables_at(level as int).len() == 0 && *final(manifest) == *old(
                manifest,
            ),
            Some(c) => {
                &&& final(manifest).next_id() == old(manifest).next_id().wrapping_add(1)
                &&& final(manifest).issued() == old(manifest).issued() + 1
                &&& is_started(c, *old(manifest), level, indexes@)
            },
        },
{
    if manifest.level_count(level) == 0 {
        return None;
    }
    let tables: Vec<SsTableMeta> = compaction_sources(manifest, level);
    let ghost n = tables@.len();
    let ghost all = indexes@;
    let mut old_ids: Vec<u64> = Vec::new();
    let mut old_paths: Vec<String> = Vec::new();
    let mut i: usize = 0;
    while i < tables.len()
        invariant
            i <= tables@.len(),
            old_ids@.len() == i,
            old_paths@.len() == i,
            forall|j: int| 0 <= j < i ==> #[trigger] old_ids@[j] == tables@[j].id,
            forall|j: int| 0 <= j < i ==> (#[trigger] old_paths@[j])@ == tables@[j].path@,
        decreases tables@.len() - i,
    {
        old_ids.push(tables[i].id);
        old_paths.push(tables[i].path.clone());
        i += 1;
    }
    // Set up the sources, in the order of the indexes.
    let mut rest: Vec<Vec<IndexEntry>> = indexes;
    let mut reversed: Vec<Source> = Vec::new();
    while rest.len() > 0
        invariant
            rest@.len() <= all.len(),
            rest@ == all.take(rest@.len() as int),
            reversed@.len() == all.len() - rest@.len(),
            forall|j: int|
                0 <= j < reversed@.len() ==> is_fresh(
                    #[trigger] reversed@[j],
                    index_views(all[all.len() - 1 - j]@),
                ),
        decreases rest@.len(),
    {
        let ghost m = rest@.len() as int;
        match rest.pop() {
            Some(index) => {
                assert(index == all[m - 1]);
                reversed.push(Source::new(index));
                assert(rest@ =~= all.take(m - 1));
            },
            None => {},
        }
    }
    let mut sources: Vec<Source> = Vec::new();
    let ghost back = reversed@;
    while reversed.len() > 0
        invariant
            reversed@.len() + sources@.len() == back.len(),
            back.len() == all.len(),
            reversed@ == back.take(reversed@.len() as int),
            forall|j: int|
                0 <= j < back.len() ==> is_fresh(
                    #[trigger] back[j],
                    index_views(all[all.len() - 1 - j]@),
                ),
            forall|j: int|
                0 <= j < sources@.len() ==> is_fresh(
                    #[trigger] sources@[j],
                    index_views(all[j]@),
                ),
        decreases reversed@.len(),
    {
        let ghost m = reversed@.len() as int;
        match reversed.pop() {
            Some(source) => {
                assert(source == back[m - 1]);
                sources.push(source);
                assert(reversed@ =~= back.take(m - 1));
            },
            None => {},
        }
    }
    let drop_tombstones: bool = level + 2 >= manifest.depth();
    let (id, path): (u64, String) = manifest.next_sstable_path(level + 1);
    let r: Compaction = Compaction {
        level,
        id,
        path,
        old_ids,
        old_paths,
        sources,
        drop_tombstones,
        writer: SsTableWriter::new(),
        last_key: None,
        wrote_any: false,
        base: Ghost(old(manifest)@),
        dir: Ghost(old(manifest).directory()),
    };
    proof {
        assert forall|i: int| 0 <= i < sources@.len() implies (#[trigger] sources@[i]).wf() by {
            assert(is_fresh(sources@[i], index_views(all[i]@)));
        }
        assert(on_track(sources@, None, drop_tombstones, r.writer.entries())) by {
            assert forall|future: Seq<Seq<(Seq<u8>, Seq<u8>)>>| #[trigger]
                may_bring(sources@, future) implies merged(
                whole(sources@, future),
                None,
                drop_tombstones,
            ) == r.writer.entries() + merged(ahead(sources@, future), None, drop_tombstones) by {
                assert(whole(sources@, future) =~= ahead(sources@, future)) by {
                    assert forall|i: int| 0 <= i < sources@.len() implies #[trigger] whole(
                        sources@,
                        future,
                    )[i] == ahead(sources@, future)[i] by {
                        assert(is_fresh(sources@[i], index_views(all[i]@)));
                        assert(whole(sources@, future)[i] =~= ahead(sources@, future)[i]);
                    }
                }
                let m = merged(ahead(sources@, future), None, drop_tombstones);
                assert(r.writer.entries() + m =~= m);
            }
        }
        assert forall|i: int| 0 <= i < n implies #[trigger] r.old_ids()[i] == r.input(i).id by {
            assert(tables@[i].same(r.input(i)));
        }
        assert forall|i: int| 0 <= i < n implies #[trigger] r.old_paths()[i] == r.input(
            i,
        ).path@ by {
            assert(tables@[i].same(r.input(i)));
        }
        assert forall|i: int| 0 <= i < n implies #[trigger] r.source_index(i) == index_views(
            all[i]@,
        ) && r.supplied(i).len() == 0 by {
            assert(is_fresh(sources@[i], index_views(all[i]@)));
        }
    }
    Some(r)
}

/// The source has not started yet.
spec fn is_fresh(s: Source, index: Seq<(Seq<u8>, nat, nat)>) -> bool {
    &&& s.wf()
    &&& s.head is None
    &&& !s.done
    &&& s.request is None
    &&& s.consumed@ == Seq::<(Seq<u8>, Seq<u8>)>::empty()
    &&& s.supplied@ == Seq::<Seq<u8>>::empty()
    &&& s.index@ == index
}

} // verus!
