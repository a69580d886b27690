//! SSTable reader: point lookups and sequential scans over the bytes of SSTable
//! files.

use vstd::prelude::*;

use super::writer::last_key_of;
use super::{FormatError, SsTableMeta, FOOTER_SIZE, MAGIC};
use crate::key::{bytes_copy, bytes_equal, bytes_le, lex_le};
use crate::lsm::codec::{copy_range, find_framed, le_value, read_u32, read_u64, unframe};
use crate::lsm::pairs::{lex_lt, pairs};

verus! {

/// An index entry pointing to a data block.
#[derive(Debug)]
pub struct IndexEntry {
    /// First key of the block.
    pub first_key: Vec<u8>,
    /// Where the block starts in the file.
    pub offset: u64,
    /// Length of the block in bytes.
    pub block_len: u64,
}

impl View for IndexEntry {
    type V = (Seq<u8>, nat, nat);

    open spec fn view(&self) -> (Seq<u8>, nat, nat) {
        (self.first_key@, self.offset as nat, self.block_len as nat)
    }
}

/// The contents of index entries.
pub open spec fn index_views(v: Seq<IndexEntry>) -> Seq<(Seq<u8>, nat, nat)> {
    v.map_values(|e: IndexEntry| e@)
}

/// Split the first entry off a data block. `None` if it is truncated.
pub open spec fn first_entry(s: Seq<u8>) -> Option<((Seq<u8>, Seq<u8>), Seq<u8>)> {
    match unframe(s) {
        None => None,
        Some((key, rest)) => match unframe(rest) {
            None => None,
            Some((value, rest)) => Some(((key, value), rest)),
        },
    }
}

/// Taking an entry off a block leaves less.
pub proof fn lemma_entry_shrinks(s: Seq<u8>)
    ensures
        first_entry(s) matches Some(e) ==> e.1.len() < s.len(),
{
}

/// The entries of a data block, `None` if it ends in the middle of one.
pub open spec fn block_entries(s: Seq<u8>) -> Option<Seq<(Seq<u8>, Seq<u8>)>>
    decreases s.len(),
{
    if s.len() == 0 {
        Some(Seq::empty())
    } else {
        match first_entry(s) {
            None => None,
            Some((e, rest)) => {
                proof {
                    lemma_entry_shrinks(s);
                }
                match block_entries(rest) {
                    None => None,
                    Some(more) => Some(seq![e] + more),
                }
            },
        }
    }
}

/// What a search for a key in a data block finds: entries are visited in order
/// up to the key or the first larger key. `None` if the block ends in the
/// middle of an entry before that.
pub open spec fn block_search(s: Seq<u8>, key: Seq<u8>) -> Option<Option<Seq<u8>>>
    decreases s.len(),
{
    if s.len() == 0 {
        Some(None)
    } else {
        match first_entry(s) {
            None => None,
            Some((e, rest)) => {
                proof {
                    lemma_entry_shrinks(s);
                }
                if e.0 == key {
                    Some(Some(e.1))
                } else if lex_le(key, e.0) {
                    Some(None)
                } else {
                    block_search(rest, key)
                }
            },
        }
    }
}

/// Split the first entry off an index block. `None` if there is none in full.
pub open spec fn first_index_entry(s: Seq<u8>) -> Option<((Seq<u8>, nat, nat), Seq<u8>)> {
    match unframe(s) {
        None => None,
        Some((key, rest)) => if rest.len() < 16 {
            None
        } else {
            Some(
                (
                    (key, le_value(rest.subrange(0, 8)), le_value(rest.subrange(8, 16))),
                    rest.skip(16),
                ),
            )
        },
    }
}

/// Taking an entry off an index leaves less.
pub proof fn lemma_index_entry_shrinks(s: Seq<u8>)
    ensures
        first_index_entry(s) matches Some(e) ==> e.1.len() < s.len(),
{
}

/// The entries of an index block, up to the first incomplete one.
pub open spec fn index_entries(s: Seq<u8>) -> Seq<(Seq<u8>, nat, nat)>
    decreases s.len(),
{
    match first_index_entry(s) {
        None => Seq::empty(),
        Some((e, rest)) => {
            proof {
                lemma_index_entry_shrinks(s);
            }
            seq![e] + index_entries(rest)
        },
    }
}

/// The first keys of the blocks strictly ascend.
pub open spec fn index_sorted(index: Seq<(Seq<u8>, nat, nat)>) -> bool {
    forall|i: int, j: int|
        0 <= i < j < index.len() ==> lex_lt(#[trigger] index[i].0, #[trigger] index[j].0)
}

/// Block `i` is the last one whose first key is not after `key`.
pub open spec fn is_block_for(index: Seq<(Seq<u8>, nat, nat)>, key: Seq<u8>, i: int) -> bool {
    &&& 0 <= i < index.len()
    &&& lex_le(index[i].0, key)
    &&& i + 1 < index.len() ==> !lex_le(index[i + 1].0, key)
}

/// The footer of a file: where the index starts, and the number of entries.
pub struct Footer {
    /// Where the index block starts in the file.
    pub index_offset: u64,
    /// Number of entries in the table.
    pub entry_count: u64,
}

/// The numbers in the last 20 bytes of a file.
pub open spec fn footer_of(s: Seq<u8>) -> (nat, nat, nat) {
    let f = s.skip(s.len() - FOOTER_SIZE);
    (le_value(f.subrange(0, 8)), le_value(f.subrange(8, 16)), le_value(f.subrange(16, 20)))
}

/// Read a footer.
///
/// # Errors
///
/// Returns [`FormatError::BadMagic`] if it does not end with the magic number.
pub fn read_footer(footer: &[u8]) -> (r: core::result::Result<Footer, FormatError>)
    requires
        footer@.len() == FOOTER_SIZE,
    ensures
        ({
            let (index_offset, entry_count, magic) = footer_of(footer@);
            match r {
                Ok(f) => magic == MAGIC && f.index_offset == index_offset && f.entry_count
                    == entry_count,
                Err(FormatError::BadMagic(found)) => magic != MAGIC && found == magic,
                Err(_) => false,
            }
        }),
{
    assert(footer@.skip(0) =~= footer@);
    let index_offset: u64 = read_u64(footer, 0);
    let entry_count: u64 = read_u64(footer, 8);
    let magic: u32 = read_u32(footer, 16);
    if magic != MAGIC {
        return Err(FormatError::BadMagic(magic));
    }
    Ok(Footer { index_offset, entry_count })
}

/// Length of the index block of a file of `file_len` bytes.
///
/// # Errors
///
/// Returns [`FormatError::BadIndexOffset`] if the index does not end where the
/// footer starts, because its offset is too large.
pub fn index_len(file_len: u64, footer: &Footer) -> (r: core::result::Result<u64, FormatError>)
    requires
        file_len >= FOOTER_SIZE,
    ensures
        match r {
            Ok(len) => footer.index_offset + len + FOOTER_SIZE == file_len,
            Err(e) => footer.index_offset + FOOTER_SIZE > file_len && e
                == FormatError::BadIndexOffset(footer.index_offset),
        },
{
    let end: u64 = file_len - FOOTER_SIZE as u64;
    if footer.index_offset > end {
        return Err(FormatError::BadIndexOffset(footer.index_offset));
    }
    Ok(end - footer.index_offset)
}

/// Decode one key-value entry at `cursor` of a data block: where its key starts
/// and ends, and where its value starts and ends, which is where the next entry
/// starts.
///
/// # Errors
///
/// Returns [`FormatError::TruncatedEntry`] if there is no complete entry.
fn decode_entry(block: &[u8], cursor: usize) -> (r: core::result::Result<
    (usize, usize, usize, usize),
    FormatError,
>)
    requires
        cursor <= block@.len(),
    ensures
        match r {
            Ok((a, b, c, d)) => {
                &&& cursor < a <= b < c <= d <= block@.len()
                &&& first_entry(block@.skip(cursor as int)) == Some(
                    (
                        (block@.subrange(a as int, b as int), block@.subrange(c as int, d as int)),
                        block@.skip(d as int),
                    ),
                )
            },
            Err(e) => e == FormatError::TruncatedEntry && first_entry(
                block@.skip(cursor as int),
            ) is None,
        },
{
    let (a, b): (usize, usize) = match find_framed(block, cursor) {
        Some(range) => range,
        None => {
            return Err(FormatError::TruncatedEntry);
        },
    };
    let (c, d): (usize, usize) = match find_framed(block, b) {
        Some(range) => range,
        None => {
            return Err(FormatError::TruncatedEntry);
        },
    };
    Ok((a, b, c, d))
}

/// Search a data block for a key.
///
/// # Errors
///
/// Returns [`FormatError::TruncatedEntry`] if the block ends in the middle of
/// an entry before the key or a larger one is found.
pub fn search_block(block: &[u8], key: &[u8]) -> (r: core::result::Result<
    Option<Vec<u8>>,
    FormatError,
>)
    ensures
        match r {
            Ok(Some(v)) => block_search(block@, key@) == Some(Some(v@)),
            Ok(None) => block_search(block@, key@) == Some(None::<Seq<u8>>),
            Err(e) => e == FormatError::TruncatedEntry && block_search(block@, key@) is None,
        },
{
    let mut cursor: usize = 0;
    assert(block@.skip(0) =~= block@);
    while cursor < block.len()
        invariant
            cursor <= block@.len(),
            block_search(block@, key@) == block_search(block@.skip(cursor as int), key@),
        decreases block@.len() - cursor,
    {
        let (a, b, c, d): (usize, usize, usize, usize) = match decode_entry(block, cursor) {
            Ok(range) => range,
            Err(e) => {
                return Err(e);
            },
        };
        let found: &[u8] = vstd::slice::slice_subrange(block, a, b);
        if bytes_equal(found, key) {
            return Ok(Some(copy_range(block, c, d)));
        }
        if bytes_le(key, found) {
            // Past the key.
            return Ok(None);
        }
        cursor = d;
    }
    Ok(None)
}

/// The last key of a data block, empty if it has no entries.
///
/// # Errors
///
/// Returns [`FormatError::TruncatedEntry`] if the block ends in the middle of
/// an entry.
fn last_key(block: &[u8]) -> (r: core::result::Result<Vec<u8>, FormatError>)
    ensures
        match r {
            Ok(key) => block_entries(block@) is Some && key@ == last_key_of(
                block_entries(block@)->0,
            ),
            Err(e) => e == FormatError::TruncatedEntry && block_entries(block@) is None,
        },
{
    let mut key: Vec<u8> = Vec::new();
    let mut cursor: usize = 0;
    let ghost mut seen: Seq<(Seq<u8>, Seq<u8>)> = Seq::empty();
    proof {
        assert(block@.skip(0) =~= block@);
        assert(key@ =~= Seq::<u8>::empty());
        if let Some(more) = block_entries(block@) {
            assert(seen + more =~= more);
        }
    }
    while cursor < block.len()
        invariant
            cursor <= block@.len(),
            key@ == last_key_of(seen),
            block_entries(block@) == after_entries(seen, block_entries(block@.skip(cursor as int))),
        decreases block@.len() - cursor,
    {
        let (a, b, c, d): (usize, usize, usize, usize) = match decode_entry(block, cursor) {
            Ok(range) => range,
            Err(e) => {
                return Err(e);
            },
        };
        key = copy_range(block, a, b);
        proof {
            let e = (block@.subrange(a as int, b as int), block@.subrange(c as int, d as int));
            if let Some(more) = block_entries(block@.skip(d as int)) {
                assert(seen + (seq![e] + more) =~= seen.push(e) + more);
            }
            seen = seen.push(e);
        }
        cursor = d;
    }
    proof {
        assert(block@.skip(cursor as int) =~= Seq::<u8>::empty());
        assert(seen + Seq::empty() =~= seen);
    }
    Ok(key)
}

/// Describe a table that was found: its key range goes from the first key of its
/// index to the last key of its last block.
///
/// # Errors
///
/// Returns [`FormatError::TruncatedEntry`] if the last block ends in the middle
/// of an entry.
pub fn describe_table(
    id: u64,
    level: usize,
    path: &str,
    footer: &Footer,
    index: &Vec<IndexEntry>,
    last_block: &[u8],
) -> (r: core::result::Result<SsTableMeta, FormatError>)
    ensures
        match r {
            Ok(m) => {
                &&& m.id == id
                &&& m.level == level
                &&& m.path@ == path@
                &&& m.entry_count == footer.entry_count
                &&& m.min_key@ == if index@.len() > 0 {
                    index_views(index@)[0].0
                } else {
                    Seq::empty()
                }
                &&& block_entries(last_block@) is Some
                &&& m.max_key@ == last_key_of(block_entries(last_block@)->0)
            },
            Err(e) => e == FormatError::TruncatedEntry && block_entries(last_block@) is None,
        },
{
    let max_key: Vec<u8> = match last_key(last_block) {
        Ok(key) => key,
        Err(e) => {
            return Err(e);
        },
    };
    let min_key: Vec<u8> = if index.len() > 0 {
        assert(index_views(index@)[0] == index@[0]@);
        bytes_copy(index[0].first_key.as_slice())
    } else {
        Vec::new()
    };
    assert(index@.len() == 0 ==> min_key@ =~= Seq::<u8>::empty());
    Ok(
        SsTableMeta {
            id,
            level,
            path: path.to_owned(),
            entry_count: footer.entry_count,
            min_key,
            max_key,
        },
    )
}

/// Parse the index block into index entries.
///
/// An incomplete entry at the end is left out.
pub fn parse_index(buf: &[u8]) -> (r: Vec<IndexEntry>)
    ensures
        index_views(r@) == index_entries(buf@),
{
    let mut entries: Vec<IndexEntry> = Vec::new();
    let mut cursor: usize = 0;
    let ghost all = index_entries(buf@);
    assert(buf@.skip(0) =~= buf@);
    assert(index_views(entries@) + all =~= all);
    loop
        invariant
            cursor <= buf@.len(),
            index_views(entries@) + index_entries(buf@.skip(cursor as int)) == all,
        ensures
            index_views(entries@) == all,
        decreases buf@.len() - cursor,
    {
        let ghost s = buf@.skip(cursor as int);
        let (start, end): (usize, usize) = match find_framed(buf, cursor) {
            Some(range) => range,
            None => {
                assert(index_views(entries@) + Seq::empty() =~= index_views(entries@));
                break ;
            },
        };
        let ghost rest = buf@.skip(end as int);
        if buf.len() - end < 16 {
            assert(index_views(entries@) + Seq::empty() =~= index_views(entries@));
            break ;
        }
        let first_key: Vec<u8> = copy_range(buf, start, end);
        assert(rest.subrange(0, 8) =~= buf@.subrange(end as int, end + 8));
        assert(rest.subrange(8, 16) =~= buf@.subrange(end + 8, end + 16));
        assert(rest.skip(16) =~= buf@.skip(end + 16));
        let offset: u64 = read_u64(buf, end);
        let block_len: u64 = read_u64(buf, end + 8);
        let ghost before_step = entries@;
        entries.push(IndexEntry { first_key, offset, block_len });
        proof {
            let e = entries@.last()@;
            assert(index_entries(s) == seq![e] + index_entries(rest.skip(16)));
            assert(index_views(entries@) =~= index_views(before_step).push(e));
            assert(index_views(before_step) + (seq![e] + index_entries(rest.skip(16)))
                =~= index_views(entries@) + index_entries(rest.skip(16)));
        }
        cursor = end + 16;
    }
    entries
}

/// Binary search the index to find which data block might contain the key: the
/// last block whose first key is not after `key`.
pub fn find_block(index: &Vec<IndexEntry>, key: &[u8]) -> (r: Option<usize>)
    ensures
        match r {
            Some(i) => i < index@.len() && (index_sorted(index_views(index@)) ==> is_block_for(
                index_views(index@),
                key@,
                i as int,
            )),
            None => index@.len() == 0 || !lex_le(index_views(index@)[0].0, key@),
        },
{
    if index.len() == 0 {
        return None;
    }
    let ghost views = index_views(index@);
    assert(views[0].0 == index@[0].first_key@);
    if !bytes_le(index[0].first_key.as_slice(), key) {
        // The key is before all blocks.
        return None;
    }
    let mut lo: usize = 0;
    let mut hi: usize = index.len();
    while hi - lo > 1
        invariant
            0 <= lo < hi <= index@.len(),
            views == index_views(index@),
            lex_le(views[lo as int].0, key@),
            hi < index@.len() ==> !lex_le(views[hi as int].0, key@),
        decreases hi - lo,
    {
        let mid: usize = lo + (hi - lo) / 2;
        assert(views[mid as int].0 == index@[mid as int].first_key@);
        if bytes_le(index[mid].first_key.as_slice(), key) {
            lo = mid;
        } else {
            hi = mid;
        }
    }
    Some(lo)
}

/// The step that a scan takes next.
pub enum ScanStep {
    /// An entry.
    Entry(Vec<u8>, Vec<u8>),
    /// The block at this offset and of this length has to be supplied.
    NeedBlock(u64, u64),
    /// There are no more entries.
    End,
}

/// The position of a scan over the blocks of an SSTable, one block at a time.
pub struct ScanState {
    index: Vec<IndexEntry>,
    block_idx: usize,
    block_buf: Vec<u8>,
    cursor: usize,
}

impl ScanState {
    /// The position is within the index and the current block.
    pub closed spec fn wf(self) -> bool {
        self.block_idx <= self.index@.len() && self.cursor <= self.block_buf@.len()
    }

    /// The bytes of the current block that were not decoded yet.
    pub closed spec fn block_rest(self) -> Seq<u8> {
        self.block_buf@.skip(self.cursor as int)
    }

    /// The index entries of the blocks that were not asked for yet.
    pub closed spec fn blocks_left(self) -> Seq<(Seq<u8>, nat, nat)> {
        index_views(self.index@).skip(self.block_idx as int)
    }

    /// Start a scan over the blocks of an index.
    pub fn new(index: Vec<IndexEntry>) -> (r: Self)
        ensures
            r.wf(),
            r.block_rest() == Seq::<u8>::empty(),
            r.blocks_left() == index_views(index@),
    {
        let r: ScanState = ScanState { index, block_idx: 0, block_buf: Vec::new(), cursor: 0 };
        assert(r.block_rest() =~= Seq::<u8>::empty());
        assert(r.blocks_left() =~= index_views(index@));
        r
    }

    /// Take the next step: an entry of the current block, or the block after
    /// it, or the end.
    ///
    /// # Errors
    ///
    /// Returns [`FormatError::TruncatedEntry`] if the current block ends in the
    /// middle of an entry.
    pub fn step(&mut self) -> (r: core::result::Result<ScanStep, FormatError>)
        requires
            old(self).wf(),
        ensures
            final(self).wf(),
            if old(self).block_rest().len() > 0 {
                &&& final(self).blocks_left() == old(self).blocks_left()
                &&& match r {
                    Ok(step) => {
                        &&& step is Entry
                        &&& first_entry(old(self).block_rest()) == Some(
                            ((step->Entry_0@, step->Entry_1@), final(self).block_rest()),
                        )
                    },
                    Err(e) => {
                        &&& e == FormatError::TruncatedEntry
                        &&& first_entry(old(self).block_rest()) is None
                        &&& final(self).block_rest() == old(self).block_rest()
                    },
                }
            } else {
                &&& final(self).block_rest() == Seq::<u8>::empty()
                &&& r is Ok
                &&& if old(self).blocks_left().len() > 0 {
                    &&& r->Ok_0 is NeedBlock
                    &&& r->Ok_0->NeedBlock_0 == old(self).blocks_left()[0].1
                    &&& r->Ok_0->NeedBlock_1 == old(self).blocks_left()[0].2
                    &&& final(self).blocks_left() == old(self).blocks_left().drop_first()
                } else {
                    &&& r->Ok_0 is End
                    &&& final(self).blocks_left() == old(self).blocks_left()
                }
            },
    {
        // Try to decode from the current block buffer.
        if self.cursor < self.block_buf.len() {
            return match decode_entry(self.block_buf.as_slice(), self.cursor) {
                Ok((a, b, c, d)) => {
                    let key: Vec<u8> = copy_range(self.block_buf.as_slice(), a, b);
                    let value: Vec<u8> = copy_range(self.block_buf.as_slice(), c, d);
                    self.cursor = d;
                    Ok(ScanStep::Entry(key, value))
                },
                Err(e) => Err(e),
            };
        }
        assert(self.block_rest() =~= Seq::<u8>::empty());
        // Ask for the next block.
        if self.block_idx >= self.index.len() {
            return Ok(ScanStep::End);
        }
        let entry: &IndexEntry = &self.index[self.block_idx];
        let (offset, len): (u64, u64) = (entry.offset, entry.block_len);
        assert(self.blocks_left()[0] == self.index@[self.block_idx as int]@);
        self.block_idx = self.block_idx + 1;
        assert(self.blocks_left() =~= old(self).blocks_left().drop_first());
        Ok(ScanStep::NeedBlock(offset, len))
    }

    /// Supply the block that was asked for.
    pub fn supply(&mut self, block: Vec<u8>)
        requires
            old(self).wf(),
        ensures
            final(self).wf(),
            final(self).block_rest() == block@,
            final(self).blocks_left() == old(self).blocks_left(),
    {
        self.block_buf = block;
        self.cursor = 0;
        assert(self.block_rest() =~= block@);
    }
}

/// The block that an index entry points to, `None` if it is not within the
/// file.
pub open spec fn block_at(s: Seq<u8>, e: (Seq<u8>, nat, nat)) -> Option<Seq<u8>> {
    if e.1 + e.2 <= s.len() {
        Some(s.subrange(e.1 as int, (e.1 + e.2) as int))
    } else {
        None
    }
}

/// The entries of the blocks of an index, or the first error.
pub open spec fn all_entries(s: Seq<u8>, index: Seq<(Seq<u8>, nat, nat)>) -> core::result::Result<
    Seq<(Seq<u8>, Seq<u8>)>,
    FormatError,
>
    decreases index.len(),
{
    if index.len() == 0 {
        Ok(Seq::empty())
    } else {
        match block_at(s, index[0]) {
            None => Err(FormatError::UnexpectedEnd),
            Some(block) => match block_entries(block) {
                None => Err(FormatError::TruncatedEntry),
                Some(first) => match all_entries(s, index.drop_first()) {
                    Err(e) => Err(e),
                    Ok(more) => Ok(first + more),
                },
            },
        }
    }
}

/// What a lookup found.
pub open spec fn found_bytes(
    r: core::result::Result<Option<Vec<u8>>, FormatError>,
) -> core::result::Result<Option<Seq<u8>>, FormatError> {
    match r {
        Ok(Some(v)) => Ok(Some(v@)),
        Ok(None) => Ok(None),
        Err(e) => Err(e),
    }
}

/// Reader for the bytes of a single SSTable file.
pub struct SsTableReader<'a> {
    data: &'a [u8],
    index: Vec<IndexEntry>,
    entry_count: u64,
}

/// The index offset of a file leaves room for the footer.
pub open spec fn index_fits(s: Seq<u8>) -> bool {
    footer_of(s).0 + FOOTER_SIZE <= s.len()
}

/// The bytes of the index block of a file.
pub open spec fn index_block(s: Seq<u8>) -> Seq<u8> {
    s.subrange(footer_of(s).0 as int, s.len() - FOOTER_SIZE)
}

impl<'a> SsTableReader<'a> {
    /// The bytes of the file.
    pub closed spec fn file(self) -> Seq<u8> {
        self.data@
    }

    /// The index of the table.
    pub closed spec fn index(self) -> Seq<(Seq<u8>, nat, nat)> {
        index_views(self.index@)
    }

    /// The number of entries that the footer gives.
    pub closed spec fn count(self) -> nat {
        self.entry_count as nat
    }

    /// Open the bytes of an SSTable file and read its index.
    ///
    /// # Errors
    ///
    /// Returns [`FormatError::TooSmall`] for a file that is shorter than a
    /// footer, [`FormatError::BadMagic`] for a wrong magic number, and
    /// [`FormatError::BadIndexOffset`] for an index behind the end of the file.
    pub fn open(data: &'a [u8]) -> (r: core::result::Result<Self, FormatError>)
        ensures
            match r {
                Ok(reader) => {
                    &&& data@.len() >= FOOTER_SIZE
                    &&& footer_of(data@).2 == MAGIC
                    &&& index_fits(data@)
                    &&& reader.file() == data@
                    &&& reader.count() == footer_of(data@).1
                    &&& reader.index() == index_entries(index_block(data@))
                },
                Err(FormatError::TooSmall) => data@.len() < FOOTER_SIZE,
                Err(FormatError::BadMagic(magic)) => data@.len() >= FOOTER_SIZE && magic
                    == footer_of(data@).2 && magic != MAGIC,
                Err(FormatError::BadIndexOffset(offset)) => {
                    &&& data@.len() >= FOOTER_SIZE
                    &&& footer_of(data@).2 == MAGIC
                    &&& !index_fits(data@)
                    &&& offset == footer_of(data@).0
                },
                Err(_) => false,
            },
    {
        let len: usize = data.len();
        if len < FOOTER_SIZE {
            return Err(FormatError::TooSmall);
        }
        let tail: &[u8] = vstd::slice::slice_subrange(data, len - FOOTER_SIZE, len);
        proof {
            assert(tail@ =~= data@.skip(len - FOOTER_SIZE));
            assert(tail@.skip(0) =~= tail@);
        }
        let footer: Footer = match read_footer(tail) {
            Ok(footer) => footer,
            Err(e) => {
                return Err(e);
            },
        };
        if let Err(e) = index_len(len as u64, &footer) {
            return Err(e);
        }
        let start: usize = footer.index_offset as usize;
        let index: Vec<IndexEntry> = parse_index(
            vstd::slice::slice_subrange(data, start, len - FOOTER_SIZE),
        );
        Ok(SsTableReader { data, index, entry_count: footer.entry_count })
    }

    /// Number of entries in this SSTable.
    pub fn entry_count(&self) -> (r: u64)
        ensures
            r == self.count(),
    {
        self.entry_count
    }

    /// Read a data block.
    fn read_block(&self, i: usize) -> (r: core::result::Result<&'a [u8], FormatError>)
        requires
            i < self.index@.len(),
        ensures
            match r {
                Ok(block) => block_at(self.file(), self.index()[i as int]) == Some(block@),
                Err(e) => e == FormatError::UnexpectedEnd && block_at(
                    self.file(),
                    self.index()[i as int],
                ) is None,
            },
    {
        let entry: &IndexEntry = &self.index[i];
        assert(self.index()[i as int] == entry@);
        let len: u64 = self.data.len() as u64;
        if entry.offset > len || entry.block_len > len - entry.offset {
            return Err(FormatError::UnexpectedEnd);
        }
        let start: usize = entry.offset as usize;
        let end: usize = start + entry.block_len as usize;
        Ok(vstd::slice::slice_subrange(self.data, start, end))
    }

    /// What a search for a key in block `i` finds.
    pub open spec fn search(self, i: int, key: Seq<u8>) -> core::result::Result<
        Option<Seq<u8>>,
        FormatError,
    > {
        match block_at(self.file(), self.index()[i]) {
            None => Err(FormatError::UnexpectedEnd),
            Some(block) => match block_search(block, key) {
                None => Err(FormatError::TruncatedEntry),
                Some(found) => Ok(found),
            },
        }
    }

    /// Point lookup: find the value for a key, or `None` if absent.
    ///
    /// # Errors
    ///
    /// Returns [`FormatError::UnexpectedEnd`] if the block of the key is not
    /// within the file and [`FormatError::TruncatedEntry`] if it ends in the
    /// middle of an entry.
    pub fn get(&self, key: &[u8]) -> (r: core::result::Result<Option<Vec<u8>>, FormatError>)
        ensures
            ({
                ||| {
                    &&& found_bytes(r) == Ok::<_, FormatError>(None::<Seq<u8>>)
                    &&& self.index().len() == 0 || !lex_le(self.index()[0].0, key@)
                }
                ||| exists|i: int|
                    {
                        &&& 0 <= i < self.index().len()
                        &&& index_sorted(self.index()) ==> is_block_for(self.index(), key@, i)
                        &&& found_bytes(r) == #[trigger] self.search(i, key@)
                    }
            }),
    {
        match find_block(&self.index, key) {
            None => Ok(None),
            Some(i) => {
                let r: core::result::Result<Option<Vec<u8>>, FormatError> = match self.read_block(
                    i,
                ) {
                    Ok(block) => search_block(block, key),
                    Err(e) => Err(e),
                };
                assert(found_bytes(r) == self.search(i as int, key@));
                r
            },
        }
    }

    /// Read all entries in order. Used for compaction merges.
    ///
    /// # Errors
    ///
    /// Returns the error of the first block that cannot be read.
    pub fn read_all(&self) -> (r: core::result::Result<Vec<(Vec<u8>, Vec<u8>)>, FormatError>)
        ensures
            match r {
                Ok(v) => all_entries(self.file(), self.index()) == Ok::<_, FormatError>(pairs(v@)),
                Err(e) => all_entries(self.file(), self.index()) == Err::<
                    Seq<(Seq<u8>, Seq<u8>)>,
                    _,
                >(e),
            },
    {
        let mut entries: Vec<(Vec<u8>, Vec<u8>)> = Vec::new();
        let ghost s = self.file();
        let ghost index = self.index();
        let ghost all = all_entries(s, index);
        let mut idx: usize = 0;
        proof {
            assert(index.skip(0) =~= index);
            if let Ok(more) = all {
                assert(pairs(entries@) + more =~= more);
            }
        }
        while idx < self.index.len()
            invariant
                idx <= self.index@.len(),
                s == self.file(),
                index == self.index(),
                index.len() == self.index@.len(),
                all == all_entries(s, index),
                all == after(pairs(entries@), all_entries(s, index.skip(idx as int))),
            decreases self.index@.len() - idx,
        {
            let ghost rest = index.skip(idx as int);
            assert(rest[0] == index[idx as int]);
            let block: &[u8] = match self.read_block(idx) {
                Ok(block) => block,
                Err(e) => {
                    return Err(e);
                },
            };
            let ghost done = pairs(entries@);
            let ghost later = all_entries(s, rest.drop_first());
            let mut cursor: usize = 0;
            assert(block@.skip(0) =~= block@);
            assert(block_entries(block@) == after_entries(
                Seq::<(Seq<u8>, Seq<u8>)>::empty(),
                block_entries(block@),
            )) by {
                if let Some(more) = block_entries(block@) {
                    assert(Seq::<(Seq<u8>, Seq<u8>)>::empty() + more =~= more);
                }
            }
            assert(pairs(entries@) =~= done + Seq::<(Seq<u8>, Seq<u8>)>::empty());
            let ghost mut here: Seq<(Seq<u8>, Seq<u8>)> = Seq::empty();
            while cursor < block.len()
                invariant
                    cursor <= block@.len(),
                    pairs(entries@) == done + here,
                    block_entries(block@) == after_entries(
                        here,
                        block_entries(block@.skip(cursor as int)),
                    ),
                    all == after(done, all_entries(s, rest)),
                    rest.len() > 0,
                    block_at(s, rest[0]) == Some(block@),
                    all == all_entries(self.file(), self.index()),
                decreases block@.len() - cursor,
            {
                let (a, b, c, d): (usize, usize, usize, usize) = match decode_entry(block, cursor) {
                    Ok(range) => range,
                    Err(e) => {
                        return Err(e);
                    },
                };
                let key: Vec<u8> = copy_range(block, a, b);
                let value: Vec<u8> = copy_range(block, c, d);
                let ghost e = (key@, value@);
                let ghost before_step = entries@;
                entries.push((key, value));
                proof {
                    assert(pairs(entries@) =~= pairs(before_step).push(e));
                    assert(pairs(entries@) =~= done + here.push(e));
                    if let Some(more) = block_entries(block@.skip(d as int)) {
                        assert(here + (seq![e] + more) =~= here.push(e) + more);
                    }
                    here = here.push(e);
                }
                cursor = d;
            }
            proof {
                assert(block@.skip(cursor as int).len() == 0);
                assert(here + Seq::<(Seq<u8>, Seq<u8>)>::empty() =~= here);
                assert(block_entries(block@) == Some(here));
                if let Ok(more) = later {
                    assert(done + (here + more) =~= (done + here) + more);
                }
                assert(rest.drop_first() =~= index.skip(idx + 1));
            }
            idx += 1;
        }
        proof {
            assert(index.skip(idx as int).len() == 0);
            assert(pairs(entries@) + Seq::<(Seq<u8>, Seq<u8>)>::empty() =~= pairs(entries@));
        }
        Ok(entries)
    }

    /// Create a streaming iterator that reads one block at a time.
    pub fn scan(&self) -> (r: SsTableScan<'a>)
        ensures
            r.wf(),
            r.left() == all_entries(self.file(), self.index()),
    {
        let mut index: Vec<IndexEntry> = Vec::new();
        let mut i: usize = 0;
        while i < self.index.len()
            invariant
                i <= self.index@.len(),
                index@.len() == i,
                index_views(index@) == index_views(self.index@).take(i as int),
            decreases self.index@.len() - i,
        {
            let entry: &IndexEntry = &self.index[i];
            let ghost before_step = index@;
            index.push(
                IndexEntry {
                    first_key: bytes_copy(entry.first_key.as_slice()),
                    offset: entry.offset,
                    block_len: entry.block_len,
                },
            );
            proof {
                assert(index_views(index@) =~= index_views(before_step).push(entry@));
                assert(index_views(self.index@).take(i + 1) =~= index_views(self.index@).take(
                    i as int,
                ).push(entry@));
            }
            i += 1;
        }
        assert(index_views(index@) =~= index_views(self.index@));
        let r: SsTableScan<'a> = SsTableScan { data: self.data, state: ScanState::new(index) };
        proof {
            lemma_left(r.data@, Seq::empty(), index_views(index@));
        }
        r
    }
}

/// Entries in front of the entries that follow, if those can be read.
pub open spec fn after(
    first: Seq<(Seq<u8>, Seq<u8>)>,
    rest: core::result::Result<Seq<(Seq<u8>, Seq<u8>)>, FormatError>,
) -> core::result::Result<Seq<(Seq<u8>, Seq<u8>)>, FormatError> {
    match rest {
        Ok(more) => Ok(first + more),
        Err(e) => Err(e),
    }
}

/// Entries in front of the entries that follow, if those are complete.
pub open spec fn after_entries(
    first: Seq<(Seq<u8>, Seq<u8>)>,
    rest: Option<Seq<(Seq<u8>, Seq<u8>)>>,
) -> Option<Seq<(Seq<u8>, Seq<u8>)>> {
    match rest {
        Some(more) => Some(first + more),
        None => None,
    }
}

/// The entries in the rest of a block and in the blocks that follow it.
pub open spec fn entries_left(
    s: Seq<u8>,
    block: Seq<u8>,
    index: Seq<(Seq<u8>, nat, nat)>,
) -> core::result::Result<Seq<(Seq<u8>, Seq<u8>)>, FormatError> {
    match block_entries(block) {
        None => Err(FormatError::TruncatedEntry),
        Some(first) => after(first, all_entries(s, index)),
    }
}

/// After an exhausted block only the blocks that follow it are left.
proof fn lemma_left(s: Seq<u8>, block: Seq<u8>, index: Seq<(Seq<u8>, nat, nat)>)
    requires
        block.len() == 0,
    ensures
        entries_left(s, block, index) == all_entries(s, index),
{
    if let Ok(more) = all_entries(s, index) {
        assert(Seq::<(Seq<u8>, Seq<u8>)>::empty() + more =~= more);
    }
}

/// A streaming iterator over SSTable entries, reading one block at a time.
///
/// Entries are yielded in the order of the file.
pub struct SsTableScan<'a> {
    data: &'a [u8],
    state: ScanState,
}

impl<'a> SsTableScan<'a> {
    /// The position is consistent.
    pub closed spec fn wf(self) -> bool {
        self.state.wf()
    }

    /// The entries that the scan has yet to yield, or the error that it runs
    /// into.
    pub closed spec fn left(self) -> core::result::Result<
        Seq<(Seq<u8>, Seq<u8>)>,
        FormatError,
    > {
        entries_left(self.data@, self.state.block_rest(), self.state.blocks_left())
    }

    /// Yield the next key-value pair, or `None` at end of file.
    ///
    /// # Errors
    ///
    /// Returns an error when it comes to a block that is not within the file or
    /// to an entry that is truncated.
    pub fn next_entry(&mut self) -> (r: core::result::Result<
        Option<(Vec<u8>, Vec<u8>)>,
        FormatError,
    >)
        requires
            old(self).wf(),
        ensures
            final(self).wf(),
            match r {
                Ok(Some(e)) => old(self).left() == after(seq![(e.0@, e.1@)], final(self).left()),
                Ok(None) => old(self).left() == Ok::<_, FormatError>(
                    Seq::<(Seq<u8>, Seq<u8>)>::empty(),
                ) && final(self).left() == old(self).left(),
                Err(e) => old(self).left() == Err::<Seq<(Seq<u8>, Seq<u8>)>, _>(e),
            },
    {
        let ghost s = self.data@;
        loop
            invariant
                self.wf(),
                self.data@ == s,
                self.left() == old(self).left(),
            decreases self.state.blocks_left().len(),
        {
            let ghost (block, index) = (self.state.block_rest(), self.state.blocks_left());
            match self.state.step() {
                Ok(ScanStep::Entry(key, value)) => {
                    proof {
                        let e = (key@, value@);
                        if let Some(more) = block_entries(self.state.block_rest()) {
                            if let Ok(later) = all_entries(s, index) {
                                assert((seq![e] + more) + later =~= seq![e] + (more + later));
                            }
                        }
                    }
                    return Ok(Some((key, value)));
                },
                Ok(ScanStep::NeedBlock(offset, block_len)) => {
                    proof {
                        lemma_left(s, block, index);
                    }
                    let len: u64 = self.data.len() as u64;
                    if offset > len || block_len > len - offset {
                        return Err(FormatError::UnexpectedEnd);
                    }
                    let start: usize = offset as usize;
                    let end: usize = start + block_len as usize;
                    self.state.supply(copy_range(self.data, start, end));
                },
                Ok(ScanStep::End) => {
                    proof {
                        lemma_left(s, block, index);
                    }
                    return Ok(None);
                },
                Err(e) => {
                    return Err(e);
                },
            }
        }
    }
}

} // verus!
