//! What is read from a table is what was written to it.

use vstd::prelude::*;

use super::reader::{
    all_entries, block_at, block_entries, block_search, first_entry, first_index_entry, footer_of,
    index_block, index_entries, index_fits, index_sorted, is_block_for, SsTableReader,
};
use super::writer::{first_key_of, last_key_of};
use super::{
    block_bytes, data_bytes, entry_bytes, footer_bytes, index_bytes, index_entry,
    index_entry_bytes, layout, stored, table_blocks, table_bytes, FormatError, FOOTER_SIZE, MAGIC,
};
use crate::key::{byte_power, lex_le};
use crate::lsm::codec::{framed, le_bytes, le_value, lemma_le_bytes, lemma_unframe};
use crate::lsm::pairs::{
    has_key, key_sorted, lemma_lex, lemma_pair_map, lex_lt, pair_map, value_for,
};

verus! {

/// The lengths are in the range that the format can store.
pub open spec fn is_storable(s: Seq<(Seq<u8>, Seq<u8>)>, block_size: nat) -> bool {
    &&& forall|i: int|
        0 <= i < s.len() ==> (#[trigger] s[i]).0.len() < 0x1_0000_0000 && s[i].1.len()
            < 0x1_0000_0000
    &&& s.len() < 0x1_0000_0000_0000_0000
    &&& table_bytes(s, block_size).len() < 0x1_0000_0000_0000_0000
}

/// The entries of all blocks.
pub open spec fn joined(blocks: Seq<Seq<(Seq<u8>, Seq<u8>)>>) -> Seq<(Seq<u8>, Seq<u8>)>
    decreases blocks.len(),
{
    if blocks.len() == 0 {
        Seq::empty()
    } else {
        blocks[0] + joined(blocks.drop_first())
    }
}

/// The index entries of all blocks.
pub open spec fn table_index(blocks: Seq<Seq<(Seq<u8>, Seq<u8>)>>) -> Seq<(Seq<u8>, nat, nat)> {
    Seq::new(blocks.len(), |i: int| index_entry(blocks, i))
}

/// The entries of a block can be stored.
spec fn lens_fit(s: Seq<(Seq<u8>, Seq<u8>)>) -> bool {
    forall|i: int|
        0 <= i < s.len() ==> (#[trigger] s[i]).0.len() < 0x1_0000_0000 && s[i].1.len()
            < 0x1_0000_0000
}

/// One more block puts its entries at the end.
pub proof fn lemma_joined_push(
    blocks: Seq<Seq<(Seq<u8>, Seq<u8>)>>,
    b: Seq<(Seq<u8>, Seq<u8>)>,
)
    ensures
        joined(blocks.push(b)) == joined(blocks) + b,
    decreases blocks.len(),
{
    let all = blocks.push(b);
    if blocks.len() == 0 {
        assert(all.drop_first() =~= Seq::empty());
        assert(joined(all.drop_first()) =~= Seq::<(Seq<u8>, Seq<u8>)>::empty());
        assert(joined(all) =~= joined(blocks) + b);
    } else {
        assert(all.drop_first() =~= blocks.drop_first().push(b));
        lemma_joined_push(blocks.drop_first(), b);
        assert(joined(all) =~= joined(blocks) + b);
    }
}

/// Dividing entries into blocks loses none of them and makes no empty block.
pub proof fn lemma_layout(s: Seq<(Seq<u8>, Seq<u8>)>, block_size: nat)
    ensures
        joined(layout(s, block_size).0) + layout(s, block_size).1 == s,
        forall|i: int|
            0 <= i < layout(s, block_size).0.len() ==> (#[trigger] layout(
                s,
                block_size,
            ).0[i]).len() > 0,
    decreases s.len(),
{
    if s.len() == 0 {
        assert(joined(layout(s, block_size).0) + layout(s, block_size).1 =~= s);
    } else {
        let (full, open) = layout(s.drop_last(), block_size);
        lemma_layout(s.drop_last(), block_size);
        let block = open.push(s.last());
        assert(s =~= (joined(full) + open).push(s.last()));
        assert((joined(full) + open).push(s.last()) =~= joined(full) + block);
        lemma_joined_push(full, block);
        assert(joined(full) + block + Seq::<(Seq<u8>, Seq<u8>)>::empty() =~= s);
        assert forall|i: int| 0 <= i < layout(s, block_size).0.len() implies (#[trigger] layout(
            s,
            block_size,
        ).0[i]).len() > 0 by {
            if i < full.len() {
                assert(layout(s, block_size).0[i] == full[i]);
            }
        }
    }
}

/// The blocks of a table hold its entries.
pub proof fn lemma_table_blocks(s: Seq<(Seq<u8>, Seq<u8>)>, block_size: nat)
    ensures
        joined(table_blocks(s, block_size)) == s,
        forall|i: int|
            0 <= i < table_blocks(s, block_size).len() ==> (#[trigger] table_blocks(
                s,
                block_size,
            )[i]).len() > 0,
{
    lemma_layout(s, block_size);
    let (full, open) = layout(s, block_size);
    if open.len() > 0 {
        lemma_joined_push(full, open);
        assert forall|i: int| 0 <= i < table_blocks(s, block_size).len() implies (
        #[trigger] table_blocks(s, block_size)[i]).len() > 0 by {
            if i < full.len() {
                assert(table_blocks(s, block_size)[i] == full[i]);
            }
        }
    } else {
        assert(joined(full) + open =~= joined(full));
    }
}

/// Splitting the first entry off its bytes.
proof fn lemma_first_entry(e: (Seq<u8>, Seq<u8>), rest: Seq<u8>)
    requires
        e.0.len() < 0x1_0000_0000,
        e.1.len() < 0x1_0000_0000,
    ensures
        first_entry(entry_bytes(e) + rest) == Some((e, rest)),
        (entry_bytes(e) + rest).len() > rest.len(),
{
    lemma_unframe(e.0, framed(e.1) + rest);
    lemma_unframe(e.1, rest);
    assert(entry_bytes(e) + rest =~= framed(e.0) + (framed(e.1) + rest));
}

/// The bytes of a block start with those of its first entry.
proof fn lemma_block_front(b: Seq<(Seq<u8>, Seq<u8>)>)
    requires
        b.len() > 0,
    ensures
        block_bytes(b) == entry_bytes(b[0]) + block_bytes(b.drop_first()),
    decreases b.len(),
{
    if b.len() == 1 {
        assert(b.drop_last() =~= Seq::empty());
        assert(b.drop_first() =~= Seq::empty());
        assert(block_bytes(b.drop_last()) =~= Seq::<u8>::empty());
        assert(block_bytes(b) =~= entry_bytes(b[0]) + block_bytes(b.drop_first()));
    } else {
        let c = b.drop_last();
        lemma_block_front(c);
        assert(b.drop_first().drop_last() =~= c.drop_first());
        assert(b.drop_first().last() == b.last());
        assert(block_bytes(b) =~= entry_bytes(b[0]) + (block_bytes(c.drop_first()) + entry_bytes(
            b.last(),
        )));
    }
}

/// Decoding a block gives its entries back.
proof fn lemma_block_entries(b: Seq<(Seq<u8>, Seq<u8>)>)
    requires
        lens_fit(b),
    ensures
        block_entries(block_bytes(b)) == Some(b),
    decreases b.len(),
{
    if b.len() > 0 {
        let rest = b.drop_first();
        lemma_block_front(b);
        lemma_first_entry(b[0], block_bytes(rest));
        assert(lens_fit(rest)) by {
            assert forall|i: int| 0 <= i < rest.len() implies (#[trigger] rest[i]).0.len()
                < 0x1_0000_0000 && rest[i].1.len() < 0x1_0000_0000 by {
                assert(rest[i] == b[i + 1]);
            }
        }
        lemma_block_entries(rest);
        assert(seq![b[0]] + rest =~= b);
    } else {
        assert(b =~= Seq::empty());
    }
}

/// Searching a sorted block finds what it holds.
proof fn lemma_block_search(b: Seq<(Seq<u8>, Seq<u8>)>, key: Seq<u8>)
    requires
        lens_fit(b),
        key_sorted(b),
    ensures
        block_search(block_bytes(b), key) == Some(
            if has_key(b, key) {
                Some(value_for(b, key))
            } else {
                None
            },
        ),
    decreases b.len(),
{
    if b.len() > 0 {
        let rest = b.drop_first();
        let e = b[0];
        lemma_block_front(b);
        lemma_first_entry(e, block_bytes(rest));
        assert forall|i: int| 0 <= i < rest.len() implies (#[trigger] rest[i]) == b[i + 1] by {}
        assert(lens_fit(rest));
        assert(key_sorted(rest)) by {
            assert forall|i: int, j: int| 0 <= i < j < rest.len() implies lex_lt(
                #[trigger] rest[i].0,
                #[trigger] rest[j].0,
            ) by {
                assert(lex_lt(b[i + 1].0, b[j + 1].0));
            }
        }
        lemma_block_search(rest, key);
        lemma_pair_map(b);
        lemma_pair_map(rest);
        lemma_lex(key, e.0, key);
        if e.0 == key {
            assert(has_key(b, key));
        } else if lex_le(key, e.0) {
            if has_key(b, key) {
                let i = choose|i: int| 0 <= i < b.len() && (#[trigger] b[i]).0 == key;
                assert(lex_lt(b[0].0, b[i].0));
            }
        } else {
            if has_key(b, key) {
                let i = choose|i: int| 0 <= i < b.len() && (#[trigger] b[i]).0 == key;
                assert(rest[i - 1].0 == key);
                assert(pair_map(rest)[rest[i - 1].0] == rest[i - 1].1);
                assert(pair_map(b)[b[i].0] == b[i].1);
            }
            if has_key(rest, key) {
                let i = choose|i: int| 0 <= i < rest.len() && (#[trigger] rest[i]).0 == key;
                assert(b[i + 1].0 == key);
            }
        }
    }
}

/// Numbers below the range are stored as they are.
pub proof fn lemma_stored(n: nat)
    requires
        n < 0x1_0000_0000_0000_0000,
    ensures
        stored(n) == n,
        le_value(le_bytes(n, 8)) == n,
        le_bytes(n, 8).len() == 8,
{
    reveal_with_fuel(byte_power, 9);
    lemma_le_bytes(n, 8);
}

/// Reading an index gives its entries back.
proof fn lemma_index_entries(blocks: Seq<Seq<(Seq<u8>, Seq<u8>)>>, n: nat, rest: Seq<u8>)
    requires
        n <= blocks.len(),
        forall|i: int| 0 <= i < blocks.len() ==> (#[trigger] blocks[i]).len() > 0,
        forall|i: int| 0 <= i < blocks.len() ==> lens_fit(#[trigger] blocks[i]),
    ensures
        index_entries(index_bytes(blocks, n) + rest) == table_index(blocks).take(n as int)
            + index_entries(rest),
    decreases n,
{
    if n == 0 {
        assert(index_bytes(blocks, 0) + rest =~= rest);
        assert(table_index(blocks).take(0) + index_entries(rest) =~= index_entries(rest));
    } else {
        let e = index_entry(blocks, n - 1);
        let more = index_entry_bytes(e) + rest;
        lemma_index_entries(blocks, (n - 1) as nat, more);
        assert(index_bytes(blocks, n) + rest =~= index_bytes(blocks, (n - 1) as nat) + more);
        assert(blocks[n - 1].len() > 0 && lens_fit(blocks[n - 1]));
        assert(blocks[n - 1][0].0.len() < 0x1_0000_0000);
        lemma_stored(e.1);
        lemma_stored(e.2);
        let numbers = le_bytes(e.1, 8) + le_bytes(e.2, 8) + rest;
        lemma_unframe(e.0, numbers);
        assert(more =~= framed(e.0) + numbers);
        assert(numbers.subrange(0, 8) =~= le_bytes(e.1, 8));
        assert(numbers.subrange(8, 16) =~= le_bytes(e.2, 8));
        assert(numbers.skip(16) =~= rest);
        assert(first_index_entry(more) == Some((e, rest)));
        assert(table_index(blocks).take(n - 1) + (seq![e] + index_entries(rest))
            =~= table_index(blocks).take(n as int) + index_entries(rest));
    }
}

/// The bytes of the first blocks come first.
pub proof fn lemma_data_prefix(blocks: Seq<Seq<(Seq<u8>, Seq<u8>)>>, i: int)
    requires
        0 <= i <= blocks.len(),
    ensures
        data_bytes(blocks.take(i)).len() <= data_bytes(blocks).len(),
        data_bytes(blocks).take(data_bytes(blocks.take(i)).len() as int) == data_bytes(
            blocks.take(i),
        ),
    decreases blocks.len(),
{
    if i == blocks.len() {
        assert(blocks.take(i) =~= blocks);
        assert(data_bytes(blocks).take(data_bytes(blocks).len() as int) =~= data_bytes(blocks));
    } else {
        lemma_data_prefix(blocks.drop_last(), i);
        assert(blocks.drop_last().take(i) =~= blocks.take(i));
        let n = data_bytes(blocks.take(i)).len() as int;
        assert(data_bytes(blocks).take(n) =~= data_bytes(blocks.drop_last()).take(n));
    }
}

/// Block `i` is where its index entry says.
proof fn lemma_block_at(blocks: Seq<Seq<(Seq<u8>, Seq<u8>)>>, i: int, rest: Seq<u8>)
    requires
        0 <= i < blocks.len(),
        (data_bytes(blocks) + rest).len() < 0x1_0000_0000_0000_0000,
    ensures
        block_at(data_bytes(blocks) + rest, index_entry(blocks, i)) == Some(block_bytes(blocks[i])),
{
    let all = data_bytes(blocks) + rest;
    lemma_data_prefix(blocks, i);
    lemma_data_prefix(blocks, i + 1);
    assert(blocks.take(i + 1).drop_last() =~= blocks.take(i));
    let start = data_bytes(blocks.take(i)).len();
    let bytes = block_bytes(blocks[i]);
    assert(data_bytes(blocks.take(i + 1)) == data_bytes(blocks.take(i)) + bytes);
    let end = start + bytes.len();
    lemma_stored(start);
    lemma_stored(bytes.len());
    assert(all.subrange(start as int, end as int) =~= bytes) by {
        let head = data_bytes(blocks).take(end as int);
        assert(head == data_bytes(blocks.take(i)) + bytes);
        assert forall|j: int| 0 <= j < bytes.len() implies all[start + j] == bytes[j] by {
            assert(head[start + j] == bytes[j]);
        }
    }
}

/// Reading all blocks gives all entries back.
proof fn lemma_all_entries(blocks: Seq<Seq<(Seq<u8>, Seq<u8>)>>, i: nat, rest: Seq<u8>)
    requires
        i <= blocks.len(),
        (data_bytes(blocks) + rest).len() < 0x1_0000_0000_0000_0000,
        forall|j: int| 0 <= j < blocks.len() ==> lens_fit(#[trigger] blocks[j]),
    ensures
        all_entries(data_bytes(blocks) + rest, table_index(blocks).skip(i as int)) == Ok::<
            _,
            FormatError,
        >(joined(blocks.skip(i as int))),
    decreases blocks.len() - i,
{
    let index = table_index(blocks).skip(i as int);
    if i < blocks.len() {
        lemma_all_entries(blocks, i + 1, rest);
        assert(index[0] == index_entry(blocks, i as int));
        assert(index.drop_first() =~= table_index(blocks).skip((i + 1) as int));
        assert(blocks.skip(i as int)[0] == blocks[i as int]);
        assert(blocks.skip(i as int).drop_first() =~= blocks.skip((i + 1) as int));
        lemma_block_at(blocks, i as int, rest);
        assert(lens_fit(blocks[i as int]));
        lemma_block_entries(blocks[i as int]);
    }
}

/// Where the entries of block `i` stand among all entries.
pub proof fn lemma_joined_at(blocks: Seq<Seq<(Seq<u8>, Seq<u8>)>>, i: int)
    requires
        0 <= i < blocks.len(),
    ensures
        joined(blocks.take(i)).len() + blocks[i].len() <= joined(blocks).len(),
        joined(blocks.take(i + 1)).len() == joined(blocks.take(i)).len() + blocks[i].len(),
        forall|j: int|
            0 <= j < blocks[i].len() ==> joined(blocks)[joined(blocks.take(i)).len() + j] == (
            #[trigger] blocks[i][j]),
    decreases blocks.len(),
{
    assert(blocks.take(i + 1) =~= blocks.take(i).push(blocks[i]));
    lemma_joined_push(blocks.take(i), blocks[i]);
    if i == 0 {
        assert(blocks.take(0) =~= Seq::empty());
        assert(joined(blocks.take(0)).len() == 0);
    } else {
        let tail = blocks.drop_first();
        lemma_joined_at(tail, i - 1);
        assert(tail[i - 1] == blocks[i]);
        assert(blocks.take(i).drop_first() =~= tail.take(i - 1));
        assert(blocks.take(i)[0] == blocks[0]);
        assert(joined(blocks.take(i)).len() == blocks[0].len() + joined(tail.take(i - 1)).len());
        assert forall|j: int| 0 <= j < blocks[i].len() implies joined(
            blocks,
        )[joined(blocks.take(i)).len() + j] == (#[trigger] blocks[i][j]) by {
            assert(joined(tail)[joined(tail.take(i - 1)).len() + j] == tail[i - 1][j]);
        }
    }
}

/// The first blocks hold no more entries than more blocks.
pub proof fn lemma_joined_len(blocks: Seq<Seq<(Seq<u8>, Seq<u8>)>>, i: int, j: int)
    requires
        0 <= i <= j <= blocks.len(),
    ensures
        joined(blocks.take(i)).len() <= joined(blocks.take(j)).len(),
    decreases j - i,
{
    if i < j {
        lemma_joined_len(blocks, i, j - 1);
        lemma_joined_at(blocks, j - 1);
    }
}

/// A table that was written can be opened: its footer and index say where its
/// blocks are, and its blocks hold the entries in the order in which they were
/// added.
pub proof fn law_table_roundtrip(s: Seq<(Seq<u8>, Seq<u8>)>, block_size: nat)
    requires
        is_storable(s, block_size),
    ensures
        ({
            let file = table_bytes(s, block_size);
            &&& file.len() >= FOOTER_SIZE
            &&& footer_of(file).1 == s.len()
            &&& footer_of(file).2 == MAGIC
            &&& index_fits(file)
            &&& index_entries(index_block(file)) == table_index(table_blocks(s, block_size))
            &&& all_entries(file, index_entries(index_block(file))) == Ok::<_, FormatError>(s)
        }),
{
    let blocks = table_blocks(s, block_size);
    let file = table_bytes(s, block_size);
    let (data, index) = (data_bytes(blocks), index_bytes(blocks, blocks.len()));
    let footer = footer_bytes(data.len(), s.len());
    assert(file == data + index + footer);
    lemma_stored(s.len());
    assert(data.len() <= file.len());
    lemma_stored(data.len());
    reveal_with_fuel(byte_power, 5);
    lemma_le_bytes(MAGIC as nat, 4);
    assert(footer.len() == FOOTER_SIZE);
    assert(file.skip(file.len() - FOOTER_SIZE) =~= footer);
    assert(footer.subrange(0, 8) =~= le_bytes(data.len(), 8));
    assert(footer.subrange(8, 16) =~= le_bytes(s.len(), 8));
    assert(footer.subrange(16, 20) =~= le_bytes(MAGIC as nat, 4));
    assert(index_block(file) =~= index);
    lemma_table_blocks(s, block_size);
    assert forall|i: int| 0 <= i < blocks.len() implies lens_fit(#[trigger] blocks[i]) by {
        lemma_joined_at(blocks, i);
        assert forall|j: int| 0 <= j < blocks[i].len() implies (#[trigger] blocks[i][j]).0.len()
            < 0x1_0000_0000 && blocks[i][j].1.len() < 0x1_0000_0000 by {
            assert(s[joined(blocks.take(i)).len() + j] == blocks[i][j]);
        }
    }
    lemma_index_entries(blocks, blocks.len(), Seq::empty());
    assert(index + Seq::empty() =~= index);
    assert(index_entries(Seq::empty()) =~= Seq::empty());
    assert(table_index(blocks).take(blocks.len() as int) + Seq::empty() =~= table_index(blocks));
    assert(file =~= data + (index + footer));
    lemma_all_entries(blocks, 0, index + footer);
    assert(table_index(blocks).skip(0) =~= table_index(blocks));
    assert(blocks.skip(0) =~= blocks);
}

/// A table that was written is described as it was when it was written: its
/// index starts with the first key, and its last block ends with the last key.
pub proof fn law_table_is_described(s: Seq<(Seq<u8>, Seq<u8>)>, block_size: nat)
    requires
        is_storable(s, block_size),
        s.len() > 0,
    ensures
        ({
            let file = table_bytes(s, block_size);
            let index = index_entries(index_block(file));
            &&& footer_of(file).1 == s.len()
            &&& index.len() > 0
            &&& index[0].0 == first_key_of(s)
            &&& match block_at(file, index.last()) {
                Some(block) => block_entries(block) is Some && last_key_of(
                    block_entries(block)->0,
                ) == last_key_of(s),
                None => false,
            }
        }),
{
    law_table_roundtrip(s, block_size);
    lemma_table_blocks(s, block_size);
    let blocks = table_blocks(s, block_size);
    let file = table_bytes(s, block_size);
    let (data, index) = (data_bytes(blocks), index_bytes(blocks, blocks.len()));
    let footer = footer_bytes(data.len(), s.len());
    assert(file =~= data + (index + footer));
    if blocks.len() == 0 {
        assert(joined(blocks).len() == 0);
    }
    let last = blocks.len() - 1;
    lemma_joined_at(blocks, 0);
    assert(blocks.take(0) =~= Seq::empty());
    assert(joined(blocks.take(0)).len() == 0);
    assert(s[0] == blocks[0][0]);
    lemma_joined_at(blocks, last);
    assert(blocks.take(last + 1) =~= blocks);
    let b = blocks[last];
    let n = b.len() - 1;
    assert(s[joined(blocks.take(last)).len() + n] == b[n]);
    assert(lens_fit(b)) by {
        assert forall|j: int| 0 <= j < b.len() implies (#[trigger] b[j]).0.len() < 0x1_0000_0000
            && b[j].1.len() < 0x1_0000_0000 by {
            assert(s[joined(blocks.take(last)).len() + j] == b[j]);
        }
    }
    lemma_block_at(blocks, last, index + footer);
    lemma_block_entries(b);
}

/// Block `i` starts at an entry, and its first key is the key of that entry.
pub proof fn lemma_block_start(blocks: Seq<Seq<(Seq<u8>, Seq<u8>)>>, i: int)
    requires
        0 <= i < blocks.len(),
        blocks[i].len() > 0,
    ensures
        joined(blocks.take(i)).len() < joined(blocks).len(),
        joined(blocks)[joined(blocks.take(i)).len() as int] == blocks[i][0],
{
    lemma_joined_at(blocks, i);
    let first = blocks[i][0];
    assert(joined(blocks)[joined(blocks.take(i)).len() as int] == first);
}

/// The first keys of the blocks of sorted entries ascend.
proof fn lemma_first_keys(blocks: Seq<Seq<(Seq<u8>, Seq<u8>)>>, i: int, j: int)
    requires
        key_sorted(joined(blocks)),
        forall|l: int| 0 <= l < blocks.len() ==> (#[trigger] blocks[l]).len() > 0,
        0 <= i < j < blocks.len(),
    ensures
        lex_lt(blocks[i][0].0, blocks[j][0].0),
{
    assert(blocks[i].len() > 0 && blocks[j].len() > 0);
    lemma_block_start(blocks, i);
    lemma_block_start(blocks, j);
    lemma_joined_at(blocks, i);
    lemma_joined_len(blocks, i + 1, j);
    let s = joined(blocks);
    let (a, b) = (joined(blocks.take(i)).len() as int, joined(blocks.take(j)).len() as int);
    assert(lex_lt(s[a].0, s[b].0));
}

/// A key is among sorted entries if and only if it is in the block for it.
proof fn lemma_block_for(blocks: Seq<Seq<(Seq<u8>, Seq<u8>)>>, i: int, key: Seq<u8>)
    requires
        key_sorted(joined(blocks)),
        forall|l: int| 0 <= l < blocks.len() ==> (#[trigger] blocks[l]).len() > 0,
        0 <= i < blocks.len(),
        lex_le(blocks[i][0].0, key),
        i + 1 < blocks.len() ==> !lex_le(blocks[i + 1][0].0, key),
    ensures
        key_sorted(blocks[i]),
        has_key(blocks[i], key) == has_key(joined(blocks), key),
        has_key(blocks[i], key) ==> value_for(blocks[i], key) == value_for(joined(blocks), key),
{
    let s = joined(blocks);
    let b = blocks[i];
    let p = joined(blocks.take(i)).len() as int;
    assert(b.len() > 0);
    lemma_joined_at(blocks, i);
    lemma_block_start(blocks, i);
    assert forall|j: int| 0 <= j < b.len() implies s[p + j] == (#[trigger] b[j]) by {
        assert(joined(blocks)[p + j] == blocks[i][j]);
    }
    assert forall|j: int, l: int| 0 <= j < l < b.len() implies lex_lt(
        #[trigger] b[j].0,
        #[trigger] b[l].0,
    ) by {
        assert(s[p + j] == b[j] && s[p + l] == b[l]);
        assert(lex_lt(s[p + j].0, s[p + l].0));
    }
    lemma_pair_map(b);
    lemma_pair_map(s);
    if has_key(s, key) {
        let q = choose|q: int| 0 <= q < s.len() && (#[trigger] s[q]).0 == key;
        lemma_lex(s[p].0, key, s[p].0);
        if q < p {
            assert(lex_lt(s[q].0, s[p].0));
        }
        if q >= p + b.len() {
            if i + 1 < blocks.len() {
                assert(blocks[i + 1].len() > 0);
                lemma_block_start(blocks, i + 1);
                let n = joined(blocks.take(i + 1)).len() as int;
                lemma_lex(key, key, key);
                if n < q {
                    assert(lex_lt(s[n].0, s[q].0));
                }
            } else {
                assert(blocks.take(i + 1) =~= blocks);
            }
        }
        assert(b[q - p] == s[q]);
        assert(pair_map(b)[b[q - p].0] == b[q - p].1);
        assert(pair_map(s)[s[q].0] == s[q].1);
    }
    if has_key(b, key) {
        let j = choose|j: int| 0 <= j < b.len() && (#[trigger] b[j]).0 == key;
        assert(s[p + j].0 == key);
    }
}

/// A key before the first key is not among sorted entries.
proof fn lemma_before_first(s: Seq<(Seq<u8>, Seq<u8>)>, key: Seq<u8>)
    requires
        key_sorted(s),
        s.len() > 0,
        !lex_le(s[0].0, key),
    ensures
        !has_key(s, key),
{
    if has_key(s, key) {
        let q = choose|q: int| 0 <= q < s.len() && (#[trigger] s[q]).0 == key;
        lemma_lex(key, key, key);
        if q > 0 {
            assert(lex_lt(s[0].0, s[q].0));
        }
    }
}

/// A lookup in a table that was written from sorted entries finds exactly what
/// the entries hold, whichever block the reader searches.
pub proof fn law_table_lookup(
    reader: SsTableReader<'_>,
    s: Seq<(Seq<u8>, Seq<u8>)>,
    block_size: nat,
    key: Seq<u8>,
)
    requires
        is_storable(s, block_size),
        key_sorted(s),
        reader.file() == table_bytes(s, block_size),
        reader.index() == index_entries(index_block(reader.file())),
    ensures
        index_sorted(reader.index()),
        reader.index().len() == 0 || !lex_le(reader.index()[0].0, key) ==> !pair_map(
            s,
        ).dom().contains(key),
        forall|i: int|
            is_block_for(reader.index(), key, i) ==> #[trigger] reader.search(i, key) == Ok::<
                _,
                FormatError,
            >(
                if pair_map(s).dom().contains(key) {
                    Some(pair_map(s)[key])
                } else {
                    None
                },
            ),
{
    law_table_roundtrip(s, block_size);
    let blocks = table_blocks(s, block_size);
    let index = reader.index();
    lemma_table_blocks(s, block_size);
    assert forall|i: int, j: int| 0 <= i < j < index.len() implies lex_lt(
        #[trigger] index[i].0,
        #[trigger] index[j].0,
    ) by {
        lemma_first_keys(blocks, i, j);
    }
    if index.len() > 0 && !lex_le(index[0].0, key) {
        assert(blocks[0].len() > 0);
        lemma_block_start(blocks, 0);
        assert(blocks.take(0) =~= Seq::empty());
        assert(joined(blocks.take(0)).len() == 0);
        lemma_before_first(s, key);
    }
    let rest = index_bytes(blocks, blocks.len()) + footer_bytes(data_bytes(blocks).len(), s.len());
    assert(reader.file() =~= data_bytes(blocks) + rest);
    assert forall|i: int| is_block_for(index, key, i) implies #[trigger] reader.search(i, key)
        == Ok::<_, FormatError>(
        if pair_map(s).dom().contains(key) {
            Some(pair_map(s)[key])
        } else {
            None
        },
    ) by {
        let b = blocks[i];
        lemma_joined_at(blocks, i);
        assert(lens_fit(b)) by {
            let p = joined(blocks.take(i)).len() as int;
            assert forall|j: int| 0 <= j < b.len() implies (#[trigger] b[j]).0.len()
                < 0x1_0000_0000 && b[j].1.len() < 0x1_0000_0000 by {
                assert(s[p + j] == blocks[i][j]);
            }
        }
        lemma_block_for(blocks, i, key);
        lemma_block_search(b, key);
        lemma_block_at(blocks, i, rest);
    }
}

} // verus!
