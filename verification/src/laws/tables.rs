//! What tables promise: the entries stand in the file one after the other, the index
//! points at the blocks, and what was written is read back.

use vstd::prelude::*;

use crate::lsm::codec::{framed, lemma_unframe};
use crate::lsm::pairs::{has_key, key_sorted, lemma_pair_map, lex_lt, pair_map, pairs};
use crate::lsm::sstable::reader::{
    after, block_at, block_entries, describe_table, find_block, first_entry,
    footer_of, found_bytes, index_block, index_entries, index_len, index_sorted,
    index_views, lemma_entry_shrinks, parse_index, read_footer, search_block, Footer,
    IndexEntry, ScanState, ScanStep, SsTableReader, SsTableScan,
};
use crate::lsm::sstable::roundtrip::{
    is_storable, joined, law_table_is_described, law_table_lookup, law_table_roundtrip,
    lemma_block_start, lemma_data_prefix, lemma_joined_at, lemma_joined_len, lemma_joined_push,
    lemma_layout, lemma_stored, lemma_table_blocks, table_index,
};
use crate::lsm::sstable::writer::{last_key_of, Finished, SsTableWriter};
use crate::lsm::sstable::{
    block_bytes, data_bytes, entry_bytes, index_bytes, index_entry, layout, table_blocks,
    table_bytes, FormatError, SsTableMeta,
};
use crate::lsm::text::{decimal, hex};

use super::formats::{
    lemma_eight_bytes, lemma_four_bytes, lemma_stands, stands_at, u32_at, u64_at,
};
use super::keys::{is_alphabetical, law_byte_order_is_alphabetical};

verus! {

/// Where entry `i` starts in a file: each entry takes the bytes of its key and its value
/// and four for each length.
pub open spec fn entry_start(s: Seq<(Seq<u8>, Seq<u8>)>, i: int) -> int
    decreases i,
{
    if i <= 0 {
        0
    } else {
        entry_start(s, i - 1) + 8 + s[i - 1].0.len() + s[i - 1].1.len()
    }
}

/// The lengths fit into four bytes.
pub open spec fn lengths_fit(s: Seq<(Seq<u8>, Seq<u8>)>) -> bool {
    forall|i: int|
        0 <= i < s.len() ==> (#[trigger] s[i]).0.len() < 0x1_0000_0000 && s[i].1.len()
            < 0x1_0000_0000
}

/// Where an entry starts depends on the entries before it alone.
proof fn lemma_entry_start(s: Seq<(Seq<u8>, Seq<u8>)>, t: Seq<(Seq<u8>, Seq<u8>)>, i: int)
    requires
        0 <= i <= s.len(),
        i <= t.len(),
        forall|j: int| 0 <= j < i ==> #[trigger] s[j] == t[j],
    ensures
        entry_start(s, i) == entry_start(t, i),
        entry_start(s, i) >= 0,
    decreases i,
{
    if i > 0 {
        lemma_entry_start(s, t, i - 1);
        assert(s[i - 1] == t[i - 1]);
    }
}

/// Entries start one behind the other.
proof fn lemma_entry_starts(s: Seq<(Seq<u8>, Seq<u8>)>, i: int, j: int)
    requires
        0 <= i <= j,
    ensures
        entry_start(s, i) + 8 * (j - i) <= entry_start(s, j),
    decreases j - i,
{
    if i < j {
        lemma_entry_starts(s, i, j - 1);
    }
}

/// A longer file has the byte string at the same place.
proof fn lemma_stands_longer(s: Seq<u8>, t: Seq<u8>, at: int, data: Seq<u8>)
    requires
        s.len() <= t.len(),
        t.take(s.len() as int) == s,
        stands_at(s, at, data),
    ensures
        stands_at(t, at, data),
{
    assert forall|i: int| 0 <= i < s.len() implies t[i] == s[i] by {
        assert(t.take(s.len() as int)[i] == t[i]);
    }
    assert(t.subrange(at + 4, at + 4 + data.len()) =~= s.subrange(at + 4, at + 4 + data.len()));
}

/// The entries of a block stand one behind the other.
proof fn lemma_block_layout(s: Seq<(Seq<u8>, Seq<u8>)>, i: int)
    requires
        lengths_fit(s),
        0 <= i < s.len(),
    ensures
        stands_at(block_bytes(s), entry_start(s, i), s[i].0),
        stands_at(block_bytes(s), entry_start(s, i) + 4 + s[i].0.len(), s[i].1),
    decreases s.len(),
{
    let t = s.drop_last();
    let e = s.last();
    let (b, c) = (block_bytes(s), block_bytes(t));
    lemma_block_len(t);
    lemma_entry_start(s, t, t.len() as int);
    assert(s[s.len() - 1] == e);
    assert(e.0.len() < 0x1_0000_0000 && e.1.len() < 0x1_0000_0000);
    assert(b.take(c.len() as int) =~= c);
    if i < t.len() {
        assert(lengths_fit(t)) by {
            assert forall|j: int| 0 <= j < t.len() implies (#[trigger] t[j]).0.len()
                < 0x1_0000_0000 && t[j].1.len() < 0x1_0000_0000 by {
                assert(t[j] == s[j]);
            }
        }
        lemma_block_layout(t, i);
        lemma_entry_start(s, t, i);
        assert(t[i] == s[i]);
        lemma_stands_longer(c, b, entry_start(s, i), s[i].0);
        lemma_stands_longer(c, b, entry_start(s, i) + 4 + s[i].0.len(), s[i].1);
    } else {
        let n = c.len() as int;
        lemma_unframe(e.0, Seq::empty());
        lemma_unframe(e.1, Seq::empty());
        let m = n + framed(e.0).len() as int;
        assert(b.subrange(n, m) =~= framed(e.0));
        assert(b.subrange(m, m + framed(e.1).len()) =~= framed(e.1));
        lemma_stands(b, n, e.0);
        lemma_stands(b, m, e.1);
    }
}

/// How many bytes the entries of a block take.
proof fn lemma_block_len(s: Seq<(Seq<u8>, Seq<u8>)>)
    ensures
        block_bytes(s).len() == entry_start(s, s.len() as int),
    decreases s.len(),
{
    if s.len() > 0 {
        let t = s.drop_last();
        lemma_block_len(t);
        lemma_entry_start(s, t, t.len() as int);
        reveal_with_fuel(crate::lsm::codec::le_bytes, 5);
        assert(s[s.len() - 1] == s.last());
        assert(entry_bytes(s.last()).len() == 8 + s.last().0.len() + s.last().1.len());
    }
}

/// Entries behind entries are bytes behind bytes.
proof fn lemma_block_append(a: Seq<(Seq<u8>, Seq<u8>)>, b: Seq<(Seq<u8>, Seq<u8>)>)
    ensures
        block_bytes(a + b) == block_bytes(a) + block_bytes(b),
    decreases b.len(),
{
    if b.len() == 0 {
        assert(a + b =~= a);
        assert(block_bytes(a) + block_bytes(b) =~= block_bytes(a));
    } else {
        lemma_block_append(a, b.drop_last());
        assert((a + b).drop_last() =~= a + b.drop_last());
        assert((a + b).last() == b.last());
        assert(block_bytes(a + b) =~= block_bytes(a) + block_bytes(b));
    }
}

/// The bytes of all blocks are those of all entries.
proof fn lemma_data_bytes(blocks: Seq<Seq<(Seq<u8>, Seq<u8>)>>)
    ensures
        data_bytes(blocks) == block_bytes(joined(blocks)),
    decreases blocks.len(),
{
    if blocks.len() > 0 {
        let rest = blocks.drop_last();
        lemma_data_bytes(rest);
        assert(rest.push(blocks.last()) =~= blocks);
        lemma_joined_push(rest, blocks.last());
        lemma_block_append(joined(rest), blocks.last());
    }
}

/// The file of a finished table is behind what was taken of it.
pub open spec fn is_file_of(file: Seq<u8>, w: SsTableWriter, done: Finished) -> bool {
    file == w.taken() + done.output@
}

/// The file can be written as its entries say.
proof fn lemma_file(file: &[u8], w: SsTableWriter, done: Finished)
    requires
        call_ensures(SsTableWriter::finish, (w,), done),
        is_file_of(file@, w, done),
        lengths_fit(w.entries()),
        w.entries().len() < 0x1_0000_0000_0000_0000,
        file@.len() < 0x1_0000_0000_0000_0000,
    ensures
        file@ == table_bytes(w.entries(), w.target()),
        is_storable(w.entries(), w.target()),
{
}

/// A table consists of its entries one after the other, each as its key and its value
/// with their lengths, the index, and twenty bytes: where the index starts, how many
/// entries there are, and the number that marks tables.
pub proof fn law_files_hold_their_entries_in_order(
    file: &[u8],
    w: SsTableWriter,
    done: Finished,
    i: int,
)
    requires
        call_ensures(SsTableWriter::finish, (w,), done),
        is_file_of(file@, w, done),
        lengths_fit(w.entries()),
        w.entries().len() < 0x1_0000_0000_0000_0000,
        file@.len() < 0x1_0000_0000_0000_0000,
        0 <= i < w.entries().len(),
    ensures
        ({
            let (s, f, n) = (w.entries(), file@, file@.len() as int);
            &&& stands_at(f, entry_start(s, i), s[i].0)
            &&& stands_at(f, entry_start(s, i) + 4 + s[i].0.len(), s[i].1)
            &&& n >= entry_start(s, s.len() as int) + 20
            &&& u64_at(f, n - 20) == entry_start(s, s.len() as int)
            &&& u64_at(f, n - 12) == s.len()
            &&& u32_at(f, n - 4) == 0x5353_544C
        }),
{
    lemma_file(file, w, done);
    let (s, f, n) = (w.entries(), file@, file@.len() as int);
    let blocks = table_blocks(s, w.target());
    law_table_roundtrip(s, w.target());
    lemma_table_blocks(s, w.target());
    lemma_data_bytes(blocks);
    let data = data_bytes(blocks);
    lemma_block_len(s);
    assert(f.take(data.len() as int) =~= data);
    lemma_block_layout(s, i);
    lemma_stands_longer(data, f, entry_start(s, i), s[i].0);
    lemma_stands_longer(data, f, entry_start(s, i) + 4 + s[i].0.len(), s[i].1);
    lemma_footer_place(f);
    lemma_table_footer(s, w.target());
}

/// The numbers of the footer are in the last twenty bytes.
proof fn lemma_footer_place(f: Seq<u8>)
    requires
        f.len() >= 20,
    ensures
        footer_of(f).0 == u64_at(f, f.len() - 20),
        footer_of(f).1 == u64_at(f, f.len() - 12),
        footer_of(f).2 == u32_at(f, f.len() - 4),
{
    let n = f.len() as int;
    let t = f.skip(n - 20);
    lemma_eight_bytes(f, n - 20);
    lemma_eight_bytes(f, n - 12);
    lemma_four_bytes(f, n - 4);
    assert(t.subrange(0, 8) =~= f.subrange(n - 20, n - 20 + 8));
    assert(t.subrange(8, 16) =~= f.subrange(n - 12, n - 12 + 8));
    assert(t.subrange(16, 20) =~= f.subrange(n - 4, n - 4 + 4));
}

/// The index of a table starts behind its blocks.
proof fn lemma_table_footer(s: Seq<(Seq<u8>, Seq<u8>)>, block_size: nat)
    requires
        is_storable(s, block_size),
    ensures
        footer_of(table_bytes(s, block_size)).0 == data_bytes(table_blocks(s, block_size)).len(),
{
    let blocks = table_blocks(s, block_size);
    let file = table_bytes(s, block_size);
    let data = data_bytes(blocks);
    let index = index_bytes(blocks, blocks.len());
    let footer = crate::lsm::sstable::footer_bytes(data.len(), s.len());
    lemma_stored(data.len());
    lemma_stored(s.len());
    crate::lsm::codec::lemma_le_bytes(crate::lsm::sstable::MAGIC as nat, 4);
    assert(footer.len() == 20);
    assert(file.skip(file.len() - 20) =~= footer);
    assert(footer.subrange(0, 8) =~= crate::lsm::codec::le_bytes(data.len(), 8));
}

/// The index entries cut the entries into blocks: each block starts where the one before
/// it ends, reaches the block size unless it is the last, and would not without its last
/// entry.
pub open spec fn is_cut(
    s: Seq<(Seq<u8>, Seq<u8>)>,
    block_size: int,
    index: Seq<IndexEntry>,
    starts: Seq<int>,
) -> bool {
    &&& starts.len() == index.len() + 1
    &&& starts[0] == 0
    &&& starts.last() == s.len()
    &&& forall|j: int|
        #![trigger index[j]]
        0 <= j < index.len() ==> is_block(s, block_size, index[j]@, starts[j], starts[j + 1])
            && (j + 1 < index.len() ==> index[j].block_len >= block_size)
}

/// The block holds the entries from `here` up to `next`, and would be smaller than the
/// block size without the last one.
pub open spec fn is_block(
    s: Seq<(Seq<u8>, Seq<u8>)>,
    block_size: int,
    e: (Seq<u8>, nat, nat),
    here: int,
    next: int,
) -> bool {
    let (first_key, offset, len) = e;
    &&& 0 <= here < next <= s.len()
    &&& first_key == s[here].0
    &&& offset == entry_start(s, here)
    &&& offset + len == entry_start(s, next)
    &&& here + 1 == next || entry_start(s, next - 1) - entry_start(s, here) < block_size
}

/// A block is cut off as soon as it reaches the block size.
spec fn is_filled(b: Seq<(Seq<u8>, Seq<u8>)>, block_size: nat) -> bool {
    b.drop_last().len() == 0 || block_bytes(b.drop_last()).len() < block_size
}

/// Blocks are cut off as soon as they reach the block size.
proof fn lemma_layout_fills(s: Seq<(Seq<u8>, Seq<u8>)>, block_size: nat)
    ensures
        ({
            let (full, open) = layout(s, block_size);
            &&& open.len() > 0 ==> block_bytes(open).len() < block_size
            &&& forall|j: int|
                0 <= j < full.len() ==> block_bytes(#[trigger] full[j]).len() >= block_size
                    && is_filled(full[j], block_size)
        }),
    decreases s.len(),
{
    if s.len() > 0 {
        lemma_layout_fills(s.drop_last(), block_size);
        let (full, open) = layout(s.drop_last(), block_size);
        let block = open.push(s.last());
        assert(block.drop_last() =~= open);
        let (all, rest) = layout(s, block_size);
        assert forall|j: int| 0 <= j < all.len() implies block_bytes(#[trigger] all[j]).len()
            >= block_size && is_filled(all[j], block_size) by {
            if j < full.len() {
                assert(all[j] == full[j]);
            }
        }
    }
}

/// Block `j` holds some of the entries, and its index entry points at it.
#[verifier::spinoff_prover]
#[verifier::rlimit(50)]
proof fn lemma_block_cut(s: Seq<(Seq<u8>, Seq<u8>)>, size: nat, j: int)
    requires
        is_storable(s, size),
        0 <= j < table_blocks(s, size).len(),
    ensures
        ({
            let blocks = table_blocks(s, size);
            let here = joined(blocks.take(j)).len() as int;
            let next = joined(blocks.take(j + 1)).len() as int;
            let (_, _, len) = index_entry(blocks, j);
            &&& is_block(s, size as int, index_entry(blocks, j), here, next)
            &&& j + 1 < blocks.len() ==> len >= size
        }),
{
    let blocks = table_blocks(s, size);
    let here = joined(blocks.take(j)).len() as int;
    let next = joined(blocks.take(j + 1)).len() as int;
    lemma_table_blocks(s, size);
    lemma_data_bytes(blocks);
    let b = blocks[j];
    assert(b.len() > 0);
    lemma_joined_at(blocks, j);
    lemma_block_start(blocks, j);
    lemma_joined_len(blocks, j + 1, blocks.len() as int);
    lemma_data_prefix(blocks, j);
    lemma_data_prefix(blocks, j + 1);
    lemma_data_bytes(blocks.take(j));
    lemma_data_bytes(blocks.take(j + 1));
    assert(blocks.take(j + 1).drop_last() =~= blocks.take(j));
    assert(blocks.take(j).push(b) =~= blocks.take(j + 1));
    lemma_joined_push(blocks.take(j), b);
    let (first, more) = (joined(blocks.take(j)), joined(blocks.take(j + 1)));
    lemma_block_len(first);
    lemma_block_len(more);
    lemma_stored(data_bytes(blocks.take(j)).len());
    lemma_stored(block_bytes(b).len());
    lemma_prefix_of_all(blocks, j);
    lemma_prefix_of_all(blocks, j + 1);
    lemma_entry_start(first, s, here);
    lemma_entry_start(more, s, next);
    // How the block is filled.
    lemma_layout_fills(s, size);
    let (full, open) = layout(s, size);
    let c = b.drop_last();
    assert(is_filled(b, size)) by {
        if j < full.len() {
            assert(b == full[j]);
        } else {
            assert(b == open);
            lemma_block_len(b);
            lemma_block_len(c);
            lemma_entry_start(b, c, c.len() as int);
        }
    }
    if j + 1 < blocks.len() {
        assert(b == full[j]);
    }
    if here + 1 != next {
        assert(first + c =~= more.drop_last());
        lemma_block_append(first, c);
        lemma_block_len(first + c);
        assert forall|l: int| 0 <= l < next - 1 implies #[trigger] (first + c)[l] == s[l] by {
            assert(more[l] == s[l]);
        }
        lemma_entry_start(first + c, s, next - 1);
    }
}

/// Where the index of a table stands, and what is read from it.
proof fn lemma_index_place(s: Seq<(Seq<u8>, Seq<u8>)>, size: nat)
    requires
        is_storable(s, size),
    ensures
        ({
            let f = table_bytes(s, size);
            &&& index_block(f) == f.subrange(entry_start(s, s.len() as int), f.len() - 20)
            &&& index_entries(index_block(f)) == table_index(table_blocks(s, size))
        }),
{
    law_table_roundtrip(s, size);
    lemma_table_footer(s, size);
    lemma_table_blocks(s, size);
    lemma_data_bytes(table_blocks(s, size));
    lemma_block_len(s);
}

/// The index entries of the blocks of a table cut its entries into blocks.
proof fn lemma_index_cuts(s: Seq<(Seq<u8>, Seq<u8>)>, size: nat, index: Seq<IndexEntry>)
    requires
        is_storable(s, size),
        index_views(index) == table_index(table_blocks(s, size)),
    ensures
        exists|starts: Seq<int>| #[trigger] is_cut(s, size as int, index, starts),
{
    let blocks = table_blocks(s, size);
    let views = index_views(index);
    assert(views.len() == index.len());
    assert(index.len() == blocks.len());
    let starts = Seq::new(blocks.len() + 1, |j: int| joined(blocks.take(j)).len() as int);
    assert(starts[0] == 0 && starts.last() == s.len()) by {
        lemma_table_blocks(s, size);
        assert(blocks.take(0) =~= Seq::empty());
        assert(blocks.take(blocks.len() as int) =~= blocks);
    }
    assert forall|j: int|
        #![trigger index[j]]
        0 <= j < index.len() implies is_block(
        s,
        size as int,
        index[j]@,
        starts[j],
        starts[j + 1],
    ) && (j + 1 < index.len() ==> index[j].block_len >= size) by {
        assert(views[j] == index[j]@);
        assert(views[j] == table_index(blocks)[j]);
        lemma_block_cut(s, size, j);
    }
    assert(is_cut(s, size as int, index, starts));
}

/// The index of a table cuts its entries into blocks.
pub proof fn law_indexes_point_at_the_blocks(
    file: &[u8],
    w: SsTableWriter,
    done: Finished,
    buf: &[u8],
    index: Vec<IndexEntry>,
)
    requires
        call_ensures(SsTableWriter::finish, (w,), done),
        is_file_of(file@, w, done),
        lengths_fit(w.entries()),
        w.entries().len() < 0x1_0000_0000_0000_0000,
        file@.len() < 0x1_0000_0000_0000_0000,
        buf@ == file@.subrange(
            entry_start(w.entries(), w.entries().len() as int),
            file@.len() - 20,
        ),
        call_ensures(parse_index, (buf,), index),
    ensures
        exists|starts: Seq<int>| #[trigger]
            is_cut(w.entries(), w.target() as int, index@, starts),
{
    lemma_file(file, w, done);
    let (s, size, f) = (w.entries(), w.target(), file@);
    assert(f == table_bytes(s, size) && is_storable(s, size));
    lemma_index_place(s, size);
    assert(buf@ == index_block(f));
    lemma_index_cuts(s, size, index@);
}

/// The entries of the first blocks come first.
proof fn lemma_prefix_of_all(blocks: Seq<Seq<(Seq<u8>, Seq<u8>)>>, j: int)
    requires
        0 <= j <= blocks.len(),
    ensures
        joined(blocks.take(j)).len() <= joined(blocks).len(),
        forall|l: int|
            0 <= l < joined(blocks.take(j)).len() ==> #[trigger] joined(blocks.take(j))[l]
                == joined(blocks)[l],
    decreases blocks.len() - j,
{
    if j == blocks.len() {
        assert(blocks.take(j) =~= blocks);
    } else {
        lemma_prefix_of_all(blocks, j + 1);
        assert(blocks.take(j).push(blocks[j]) =~= blocks.take(j + 1));
        lemma_joined_push(blocks.take(j), blocks[j]);
        assert forall|l: int| 0 <= l < joined(blocks.take(j)).len() implies #[trigger] joined(
            blocks.take(j),
        )[l] == joined(blocks)[l] by {
            assert(joined(blocks.take(j + 1))[l] == joined(blocks.take(j))[l]);
        }
    }
}

/// A writer starts with no entries, and every pair that is added is one entry more. The
/// usual block size is 4096 bytes.
pub proof fn law_writers_collect_entries(
    fresh: SsTableWriter,
    size: usize,
    sized: SsTableWriter,
    w: &mut SsTableWriter,
    key: &[u8],
    value: &[u8],
    emptied: &mut SsTableWriter,
    out: Vec<u8>,
)
    requires
        call_ensures(SsTableWriter::new, (), fresh),
        call_ensures(SsTableWriter::with_block_size, (size,), sized),
        call_ensures(SsTableWriter::add, (w, key, value), ()),
        call_ensures(SsTableWriter::take_output, (emptied,), out),
    ensures
        fresh.entries().len() == 0 && fresh.taken().len() == 0 && fresh.target() == 4096,
        sized.entries().len() == 0 && sized.taken().len() == 0 && sized.target() == size,
        final(w).entries() == old(w).entries().push((key@, value@)),
        final(w).taken() == old(w).taken(),
        final(w).target() == old(w).target(),
        final(emptied).entries() == old(emptied).entries(),
        final(emptied).taken() == old(emptied).taken() + out@,
        final(emptied).target() == old(emptied).target(),
{
}

/// The first `n` entries take `taken` bytes, and the others less than a block.
pub open spec fn is_taken_up_to(
    s: Seq<(Seq<u8>, Seq<u8>)>,
    taken: int,
    block_size: int,
    n: int,
) -> bool {
    &&& 0 <= n <= s.len()
    &&& taken == entry_start(s, n)
    &&& entry_start(s, s.len() as int) - taken < block_size
}

/// When the output of a writer is taken, what is held back is less than a block.
pub proof fn law_whole_blocks_are_taken(w: &mut SsTableWriter, out: Vec<u8>)
    requires
        call_ensures(SsTableWriter::take_output, (w,), out),
        old(w).target() > 0,
    ensures
        exists|n: int| #[trigger]
            is_taken_up_to(
                old(w).entries(),
                final(w).taken().len() as int,
                old(w).target() as int,
                n,
            ),
{
    let (s, size) = (old(w).entries(), old(w).target());
    let (full, open) = layout(s, size);
    lemma_layout(s, size);
    lemma_layout_fills(s, size);
    lemma_data_bytes(full);
    let head = joined(full);
    lemma_block_len(head);
    lemma_block_len(s);
    lemma_block_len(open);
    lemma_block_append(head, open);
    assert forall|l: int| 0 <= l < head.len() implies #[trigger] head[l] == s[l] by {
        assert((head + open)[l] == head[l]);
    }
    lemma_entry_start(head, s, head.len() as int);
    if open.len() == 0 {
        assert(block_bytes(open).len() == 0);
    }
    assert(head + open == s);
    let n = head.len() as int;
    assert(0 <= n <= s.len());
    assert(final(w).taken().len() == entry_start(s, n));
    assert(is_taken_up_to(s, final(w).taken().len() as int, size as int, n));
}

/// A table that was written can be opened. All entries are read from it, in the order in
/// which they were added, and a scan yields the same ones.
pub proof fn law_tables_are_read_back<'a>(
    file: &'a [u8],
    w: SsTableWriter,
    done: Finished,
    r: core::result::Result<SsTableReader<'a>, FormatError>,
    count: u64,
    all: core::result::Result<Vec<(Vec<u8>, Vec<u8>)>, FormatError>,
    scan: SsTableScan<'a>,
)
    requires
        call_ensures(SsTableWriter::finish, (w,), done),
        is_file_of(file@, w, done),
        lengths_fit(w.entries()),
        w.entries().len() < 0x1_0000_0000_0000_0000,
        file@.len() < 0x1_0000_0000_0000_0000,
        call_ensures(SsTableReader::open, (file,), r),
        r is Ok ==> call_ensures(SsTableReader::entry_count, (&r->Ok_0,), count) && call_ensures(
            SsTableReader::read_all,
            (&r->Ok_0,),
            all,
        ) && call_ensures(SsTableReader::scan, (&r->Ok_0,), scan),
    ensures
        r is Ok,
        count == w.entries().len(),
        done.entry_count == w.entries().len(),
        w.entries().len() > 0 ==> done.min_key@ == w.entries()[0].0 && done.max_key@
            == w.entries()[w.entries().len() - 1].0,
        all is Ok,
        all->Ok_0@.len() == w.entries().len(),
        forall|i: int|
            0 <= i < w.entries().len() ==> (#[trigger] all->Ok_0@[i]).0@ == w.entries()[i].0
                && all->Ok_0@[i].1@ == w.entries()[i].1,
        scan.left() == Ok::<Seq<(Seq<u8>, Seq<u8>)>, FormatError>(w.entries()),
{
    lemma_file(file, w, done);
    let s = w.entries();
    law_table_roundtrip(s, w.target());
    lemma_stored(s.len());
    assert(r is Ok);
    let p = pairs(all->Ok_0@);
    assert(p == s);
    assert(p.len() == all->Ok_0@.len());
    assert forall|i: int| 0 <= i < s.len() implies (#[trigger] all->Ok_0@[i]).0@ == s[i].0
        && all->Ok_0@[i].1@ == s[i].1 by {
        assert(p[i] == s[i]);
    }
}

/// A scan yields what is left, one entry after the other.
pub proof fn law_scans_go_entry_by_entry<'a>(
    scan: &mut SsTableScan<'a>,
    r: core::result::Result<Option<(Vec<u8>, Vec<u8>)>, FormatError>,
)
    requires
        call_ensures(SsTableScan::<'a>::next_entry, (scan,), r),
        old(scan).left() is Ok,
    ensures
        ({
            let s = old(scan).left()->Ok_0;
            &&& r is Ok
            &&& r->Ok_0 is None <==> s.len() == 0
            &&& r->Ok_0 matches Some(e) ==> e.0@ == s[0].0 && e.1@ == s[0].1 && final(scan).left()
                == Ok::<Seq<(Seq<u8>, Seq<u8>)>, FormatError>(s.drop_first())
        }),
{
    let s = old(scan).left()->Ok_0;
    if let Ok(Some(e)) = r {
        let one = seq![(e.0@, e.1@)];
        let more = final(scan).left()->Ok_0;
        assert(old(scan).left() == after(one, final(scan).left()));
        assert(s == one + more);
        assert(s[0] == one[0]);
        assert(s.drop_first() =~= more);
    }
}

/// A lookup in a table of sorted entries finds the value of its key, and nothing for any
/// other key.
pub proof fn law_lookups_find_the_entry<'a>(
    file: &'a [u8],
    w: SsTableWriter,
    done: Finished,
    r: core::result::Result<SsTableReader<'a>, FormatError>,
    key: &[u8],
    found: core::result::Result<Option<Vec<u8>>, FormatError>,
)
    requires
        call_ensures(SsTableWriter::finish, (w,), done),
        is_file_of(file@, w, done),
        lengths_fit(w.entries()),
        w.entries().len() < 0x1_0000_0000_0000_0000,
        file@.len() < 0x1_0000_0000_0000_0000,
        forall|i: int, j: int|
            0 <= i < j < w.entries().len() ==> is_alphabetical(
                #[trigger] w.entries()[i].0,
                #[trigger] w.entries()[j].0,
            ) && w.entries()[i].0 != w.entries()[j].0,
        call_ensures(SsTableReader::open, (file,), r),
        r is Ok ==> call_ensures(SsTableReader::get, (&r->Ok_0, key), found),
    ensures
        found is Ok,
        forall|i: int|
            0 <= i < w.entries().len() && (#[trigger] w.entries()[i]).0 == key@ ==> found->Ok_0
                is Some && found->Ok_0->0@ == w.entries()[i].1,
        found->Ok_0 is Some ==> exists|i: int|
            0 <= i < w.entries().len() && (#[trigger] w.entries()[i]).0 == key@,
{
    lemma_file(file, w, done);
    let s = w.entries();
    assert(key_sorted(s)) by {
        assert forall|i: int, j: int| 0 <= i < j < s.len() implies lex_lt(
            #[trigger] s[i].0,
            #[trigger] s[j].0,
        ) by {
            law_byte_order_is_alphabetical(s[i].0, s[j].0);
        }
    }
    law_table_roundtrip(s, w.target());
    assert(r is Ok);
    let reader = r->Ok_0;
    law_table_lookup(reader, s, w.target(), key@);
    lemma_pair_map(s);
    let answer = if pair_map(s).dom().contains(key@) {
        Some(pair_map(s)[key@])
    } else {
        None
    };
    assert(found_bytes(found) == Ok::<Option<Seq<u8>>, FormatError>(answer));
    assert forall|i: int| 0 <= i < s.len() && (#[trigger] s[i]).0 == key@ implies found->Ok_0
        is Some && found->Ok_0->0@ == s[i].1 by {
        assert(pair_map(s)[s[i].0] == s[i].1);
    }
    if found->Ok_0 is Some {
        assert(has_key(s, key@));
    }
}

/// A file opens exactly if it is long enough for a footer, ends with the number that
/// marks tables, and the index starts before the footer. Which of these fails first is
/// reported.
pub proof fn law_other_files_are_refused<'a>(
    file: &'a [u8],
    r: core::result::Result<SsTableReader<'a>, FormatError>,
)
    requires
        call_ensures(SsTableReader::open, (file,), r),
    ensures
        ({
            let (f, n) = (file@, file@.len() as int);
            if n < 20 {
                r is Err && r->Err_0 == FormatError::TooSmall
            } else if u32_at(f, n - 4) != 0x5353_544C {
                r matches Err(FormatError::BadMagic(m)) && m == u32_at(f, n - 4)
            } else if u64_at(f, n - 20) > n - 20 {
                r matches Err(FormatError::BadIndexOffset(at)) && at == u64_at(f, n - 20)
            } else {
                r is Ok
            }
        }),
{
    if file@.len() >= 20 {
        lemma_footer_place(file@);
    }
}

/// The footer is read from twenty bytes: where the index starts, the number of entries,
/// and the number that marks tables, which has to be right. The index reaches from its
/// start to the footer.
pub proof fn law_footers_are_read(
    bytes: &[u8],
    r: core::result::Result<Footer, FormatError>,
    file_len: u64,
    footer: &Footer,
    len: core::result::Result<u64, FormatError>,
)
    requires
        bytes@.len() == 20,
        file_len >= 20,
        call_ensures(read_footer, (bytes,), r),
        call_ensures(index_len, (file_len, footer), len),
    ensures
        u32_at(bytes@, 16) == 0x5353_544C ==> r is Ok && r->Ok_0.index_offset == u64_at(bytes@, 0)
            && r->Ok_0.entry_count == u64_at(bytes@, 8),
        u32_at(bytes@, 16) != 0x5353_544C ==> r is Err && r->Err_0 == FormatError::BadMagic(
            u32_at(bytes@, 16) as u32,
        ),
        footer.index_offset <= file_len - 20 ==> len is Ok && len->Ok_0 == file_len - 20
            - footer.index_offset,
        footer.index_offset > file_len - 20 ==> len is Err && len->Err_0
            == FormatError::BadIndexOffset(footer.index_offset),
{
    lemma_footer_place(bytes@);
}

/// The first entry of a block can be split off exactly if it is there in full.
pub open spec fn starts_with_entry(s: Seq<u8>) -> bool {
    &&& s.len() >= 4
    &&& s.len() >= 4 + u32_at(s, 0) + 4
    &&& s.len() >= 4 + u32_at(s, 0) + 4 + u32_at(s, 4 + u32_at(s, 0))
}

/// The length of the entry that a block starts with.
pub open spec fn entry_len(s: Seq<u8>) -> int {
    4 + u32_at(s, 0) + 4 + u32_at(s, 4 + u32_at(s, 0))
}

/// The first entry is the one that the block starts with.
proof fn lemma_starts_with_entry(s: Seq<u8>)
    ensures
        first_entry(s) is Some <==> starts_with_entry(s),
        first_entry(s) matches Some((e, rest)) ==> {
            &&& stands_at(s, 0, e.0)
            &&& stands_at(s, 4 + e.0.len() as int, e.1)
            &&& rest == s.skip(entry_len(s))
            &&& entry_len(s) == 8 + e.0.len() + e.1.len()
        },
{
    if s.len() >= 4 {
        lemma_four_bytes(s, 0);
        assert(s.take(4) =~= s.subrange(0, 4));
        let n = 4 + u32_at(s, 0);
        if s.len() >= n {
            let rest = s.skip(n);
            if rest.len() >= 4 {
                lemma_four_bytes(rest, 0);
                assert(rest.take(4) =~= rest.subrange(0, 4));
                assert(u32_at(rest, 0) == u32_at(s, n));
                let m = n + 4 + u32_at(s, n);
                if s.len() >= m {
                    assert(s.subrange(n + 4, m) =~= rest.subrange(4, 4 + u32_at(s, n)));
                    assert(rest.skip(4 + u32_at(s, n)) =~= s.skip(m));
                }
            }
        }
    }
}

/// A block is searched entry by entry: the search ends at the key, whose value it gives,
/// or at a key that comes after it, or at the end of the block. It fails at an entry
/// that is cut off.
pub proof fn law_blocks_are_searched_entry_by_entry(
    block: &[u8],
    rest: &[u8],
    key: &[u8],
    first: Seq<u8>,
    r: core::result::Result<Option<Vec<u8>>, FormatError>,
    of_rest: core::result::Result<Option<Vec<u8>>, FormatError>,
)
    requires
        starts_with_entry(block@) ==> rest@ == block@.skip(entry_len(block@)) && stands_at(
            block@,
            0,
            first,
        ),
        call_ensures(search_block, (block, key), r),
        call_ensures(search_block, (rest, key), of_rest),
    ensures
        block@.len() == 0 ==> r == Ok::<Option<Vec<u8>>, FormatError>(None),
        block@.len() > 0 && !starts_with_entry(block@) ==> r is Err && r->Err_0
            == FormatError::TruncatedEntry,
        starts_with_entry(block@) && first == key@ ==> r is Ok && r->Ok_0 is Some && stands_at(
            block@,
            4 + first.len() as int,
            r->Ok_0->0@,
        ),
        starts_with_entry(block@) && first != key@ && is_alphabetical(key@, first) ==> r == Ok::<
            Option<Vec<u8>>,
            FormatError,
        >(None),
        starts_with_entry(block@) && !is_alphabetical(key@, first) ==> found_bytes(r)
            == found_bytes(of_rest),
{
    lemma_starts_with_entry(block@);
    lemma_entry_shrinks(block@);
    if starts_with_entry(block@) {
        let (e, after_entry) = first_entry(block@)->0;
        assert(first == e.0);
        law_byte_order_is_alphabetical(key@, first);
        if first == key@ {
            crate::lsm::pairs::lemma_lex(key@, key@, key@);
        }
    }
}

/// The position of a scan goes through the current block entry by entry, and asks for the
/// blocks of the index one after the other. It fails at an entry that is cut off.
pub proof fn law_scans_ask_for_the_next_block(
    st: &mut ScanState,
    r: core::result::Result<ScanStep, FormatError>,
    fed: &mut ScanState,
    block: Vec<u8>,
    index: Vec<IndexEntry>,
    fresh: ScanState,
)
    requires
        call_ensures(ScanState::step, (st,), r),
        call_ensures(ScanState::supply, (fed, block), ()),
        call_ensures(ScanState::new, (index,), fresh),
    ensures
        ({
            let (b, left) = (old(st).block_rest(), old(st).blocks_left());
            &&& b.len() > 0 && starts_with_entry(b) ==> {
                &&& r matches Ok(ScanStep::Entry(key, value)) && stands_at(b, 0, key@)
                    && stands_at(b, 4 + key@.len() as int, value@)
                &&& final(st).block_rest() == b.skip(entry_len(b))
                &&& final(st).blocks_left() == left
            }
            &&& b.len() > 0 && !starts_with_entry(b) ==> r is Err && r->Err_0
                == FormatError::TruncatedEntry
            &&& b.len() == 0 && left.len() > 0 ==> {
                &&& r matches Ok(ScanStep::NeedBlock(offset, len)) && offset == left[0].1 && len
                    == left[0].2
                &&& final(st).blocks_left() == left.drop_first()
            }
            &&& b.len() == 0 && left.len() == 0 ==> r matches Ok(ScanStep::End)
        }),
        final(fed).block_rest() == block@,
        final(fed).blocks_left() == old(fed).blocks_left(),
        fresh.block_rest().len() == 0,
        fresh.blocks_left() == index@.map_values(|e: IndexEntry| e@),
{
    lemma_starts_with_entry(old(st).block_rest());
}

/// Block `i` is the one to search for a key: it starts at or before the key, and the next
/// one starts after it. Before the first block there is nothing.
pub proof fn law_keys_lead_to_their_blocks(index: &Vec<IndexEntry>, key: &[u8], r: Option<usize>)
    requires
        forall|i: int, j: int|
            0 <= i < j < index@.len() ==> is_alphabetical(
                #[trigger] index@[i].first_key@,
                #[trigger] index@[j].first_key@,
            ) && index@[i].first_key@ != index@[j].first_key@,
        call_ensures(find_block, (index, key), r),
    ensures
        r is None <==> index@.len() == 0 || !is_alphabetical(index@[0].first_key@, key@),
        r matches Some(i) ==> {
            &&& i < index@.len()
            &&& is_alphabetical(index@[i as int].first_key@, key@)
            &&& forall|j: int|
                i < j < index@.len() ==> !is_alphabetical(#[trigger] index@[j].first_key@, key@)
        },
{
    let views = index_views(index@);
    assert(index_sorted(views)) by {
        assert forall|i: int, j: int| 0 <= i < j < views.len() implies lex_lt(
            #[trigger] views[i].0,
            #[trigger] views[j].0,
        ) by {
            assert(views[i] == index@[i]@ && views[j] == index@[j]@);
            law_byte_order_is_alphabetical(index@[i].first_key@, index@[j].first_key@);
        }
    }
    if index@.len() > 0 {
        assert(views[0] == index@[0]@);
        law_byte_order_is_alphabetical(index@[0].first_key@, key@);
    }
    if let Some(i) = r {
        assert(views[i as int] == index@[i as int]@);
        law_byte_order_is_alphabetical(index@[i as int].first_key@, key@);
        if i > 0 {
            assert(lex_lt(views[0].0, views[i as int].0));
            crate::lsm::pairs::lemma_lex(views[0].0, views[i as int].0, key@);
        }
        assert forall|j: int| i < j < index@.len() implies !is_alphabetical(
            #[trigger] index@[j].first_key@,
            key@,
        ) by {
            assert(views[j] == index@[j]@);
            assert(views[i + 1] == index@[i + 1]@);
            law_byte_order_is_alphabetical(index@[j].first_key@, key@);
            if j > i + 1 {
                assert(lex_lt(views[i + 1].0, views[j].0));
                crate::lsm::pairs::lemma_lex(views[i + 1].0, views[j].0, key@);
            }
        }
    }
}

/// A table that was written is described by its first and its last key.
#[verifier::spinoff_prover]
#[verifier::rlimit(60)]
pub proof fn law_tables_are_described_by_their_keys(
    file: &[u8],
    w: SsTableWriter,
    done: Finished,
    id: u64,
    level: usize,
    path: &str,
    tail: &[u8],
    footer: core::result::Result<Footer, FormatError>,
    buf: &[u8],
    index: Vec<IndexEntry>,
    last: &[u8],
    r: core::result::Result<SsTableMeta, FormatError>,
)
    requires
        call_ensures(SsTableWriter::finish, (w,), done),
        is_file_of(file@, w, done),
        lengths_fit(w.entries()),
        0 < w.entries().len() < 0x1_0000_0000_0000_0000,
        file@.len() < 0x1_0000_0000_0000_0000,
        tail@ == file@.skip(file@.len() - 20),
        call_ensures(read_footer, (tail,), footer),
        footer is Ok ==> buf@ == file@.subrange(
            footer->Ok_0.index_offset as int,
            file@.len() - 20,
        ),
        call_ensures(parse_index, (buf,), index),
        index@.len() > 0 ==> last@ == file@.subrange(
            index@[index@.len() - 1].offset as int,
            index@[index@.len() - 1].offset + index@[index@.len() - 1].block_len,
        ),
        footer is Ok ==> call_ensures(
            describe_table,
            (id, level, path, &footer->Ok_0, &index, last),
            r,
        ),
    ensures
        footer is Ok,
        index@.len() > 0,
        r matches Ok(m) && m.id == id && m.level == level && m.path@ == path@ && m.entry_count
            == w.entries().len() && m.min_key@ == w.entries()[0].0 && m.max_key@
            == w.entries()[w.entries().len() - 1].0,
{
    lemma_file(file, w, done);
    let s = w.entries();
    lemma_described(file@, s, w.target());
    lemma_footer_of_tail(file@, tail@);
    assert(footer is Ok);
    lemma_index_read(file@, buf@, index@);
    let e = index@[index@.len() - 1];
    assert(last@ == block_at(file@, e@)->0);
}

/// The footer is in the last bytes of a file.
proof fn lemma_footer_of_tail(file: Seq<u8>, tail: Seq<u8>)
    requires
        file.len() >= 20,
        tail == file.skip(file.len() - 20),
    ensures
        footer_of(tail) == footer_of(file),
{
    assert(tail.skip(0) =~= tail);
}

/// The first and the last entry of an index that was read.
proof fn lemma_index_read(file: Seq<u8>, buf: Seq<u8>, index: Seq<IndexEntry>)
    requires
        buf == index_block(file),
        index_views(index) == index_entries(buf),
        index_entries(index_block(file)).len() > 0,
    ensures
        index.len() == index_entries(index_block(file)).len(),
        index[0]@ == index_entries(index_block(file))[0],
        index[index.len() - 1]@ == index_entries(index_block(file)).last(),
{
    let views = index_views(index);
    assert(views[0] == index[0]@);
    assert(views.last() == index[index.len() - 1]@);
}

/// The first key of the index and the last key of the last block of a table.
proof fn lemma_described(file: Seq<u8>, s: Seq<(Seq<u8>, Seq<u8>)>, block_size: nat)
    requires
        is_storable(s, block_size),
        s.len() > 0,
        file == table_bytes(s, block_size),
    ensures
        file.len() >= 20,
        footer_of(file).1 == s.len(),
        footer_of(file).2 == 0x5353_544C,
        ({
            let index = index_entries(index_block(file));
            &&& index.len() > 0
            &&& index[0].0 == s[0].0
            &&& block_at(file, index.last()) is Some
            &&& block_entries(block_at(file, index.last())->0) is Some
            &&& last_key_of(block_entries(block_at(file, index.last())->0)->0) == s[s.len() - 1].0
        }),
{
    law_table_roundtrip(s, block_size);
    law_table_is_described(s, block_size);
}

/// The index is read entry by entry: the first key of a block, where the block starts and
/// how long it is. Reading ends at what is no complete entry.
pub proof fn law_indexes_are_read_entry_by_entry(
    buf: &[u8],
    rest: &[u8],
    r: Vec<IndexEntry>,
    of_rest: Vec<IndexEntry>,
)
    requires
        call_ensures(parse_index, (buf,), r),
        buf@.len() >= 4 && buf@.len() >= 4 + u32_at(buf@, 0) + 16 ==> rest@ == buf@.skip(
            4 + u32_at(buf@, 0) + 16,
        ),
        call_ensures(parse_index, (rest,), of_rest),
    ensures
        if buf@.len() >= 4 && buf@.len() >= 4 + u32_at(buf@, 0) + 16 {
            let n = 4 + u32_at(buf@, 0);
            &&& r@.len() == of_rest@.len() + 1
            &&& stands_at(buf@, 0, r@[0].first_key@)
            &&& r@[0].offset == u64_at(buf@, n)
            &&& r@[0].block_len == u64_at(buf@, n + 8)
            &&& forall|i: int|
                0 <= i < of_rest@.len() ==> (#[trigger] r@[i + 1])@ == of_rest@[i]@
        } else {
            r@.len() == 0
        },
{
    let (a, b) = (index_views(r@), index_views(of_rest@));
    assert(a.len() == r@.len() && b.len() == of_rest@.len());
    crate::lsm::sstable::reader::lemma_index_entry_shrinks(buf@);
    if buf@.len() >= 4 {
        lemma_four_bytes(buf@, 0);
        assert(buf@.take(4) =~= buf@.subrange(0, 4));
        let n = 4 + u32_at(buf@, 0);
        if buf@.len() >= n + 16 {
            let t = buf@.skip(n);
            lemma_eight_bytes(buf@, n);
            lemma_eight_bytes(buf@, n + 8);
            assert(t.subrange(0, 8) =~= buf@.subrange(n, n + 8));
            assert(t.subrange(8, 16) =~= buf@.subrange(n + 8, n + 8 + 8));
            assert(t.skip(16) =~= rest@);
            let e = (buf@.subrange(4, n), u64_at(buf@, n) as nat, u64_at(buf@, n + 8) as nat);
            assert(a == seq![e] + b);
            assert(a[0] == e);
            assert(a[0] == r@[0]@);
            assert forall|i: int| 0 <= i < of_rest@.len() implies (#[trigger] r@[i + 1])@
                == of_rest@[i]@ by {
                assert(a[i + 1] == b[i]);
            }
        } else {
            assert(a =~= Seq::empty());
        }
    } else {
        assert(a =~= Seq::empty());
    }
}

/// The messages of format errors.
pub proof fn law_format_error_messages(
    e: &FormatError,
    r: String,
    found: String,
    expected: String,
    offset: String,
)
    requires
        call_ensures(FormatError::to_string, (e,), r),
        *e matches FormatError::BadMagic(m) ==> call_ensures(hex, (m,), found),
        call_ensures(hex, (0x5353_544Cu32,), expected),
        *e matches FormatError::BadIndexOffset(at) ==> call_ensures(decimal, (at,), offset),
    ensures
        r@ == match *e {
            FormatError::TooSmall => "file too small to be an SSTable"@,
            FormatError::BadMagic(_) => "bad SSTable magic: "@ + found@ + ", expected "@
                + expected@,
            FormatError::BadIndexOffset(_) => "index offset out of range: "@ + offset@,
            FormatError::TruncatedEntry => "truncated entry in data block"@,
            FormatError::UnexpectedEnd => "failed to fill whole buffer"@,
        },
{
}

/// A copy of a description describes the same table.
pub proof fn law_copies_describe_the_same_table(m: &SsTableMeta, r: SsTableMeta)
    requires
        call_ensures(<SsTableMeta as Clone>::clone, (m,), r),
    ensures
        r.id == m.id && r.level == m.level && r.path@ == m.path@ && r.entry_count == m.entry_count
            && r.min_key@ == m.min_key@ && r.max_key@ == m.max_key@,
{
}

} // verus!
