//! Sorted String Table (SSTable) format: immutable sorted files on disk.
//!
//! When the memtable is full, it is flushed to an SSTable. Each SSTable
//! contains entries sorted by key and is immutable once written. Point
//! lookups use a block index for binary search, and sequential scans
//! read entries in order for compaction merges.
//!
//! # File Format
//!
//! ```text
//! [Data Block 0][Data Block 1] ... [Data Block N]
//! [Index Block]
//! [Footer]
//! ```
//!
//! **Data Block**: sequence of length-prefixed key-value entries.
//! Each entry: `[key_len: u32 LE][key][value_len: u32 LE][value]`
//!
//! **Index Block**: one entry per data block, storing the first key and
//! the block's file offset.
//! Each entry: `[key_len: u32 LE][first_key][offset: u64 LE][block_len: u64 LE]`
//!
//! **Footer** (fixed 20 bytes):
//! `[index_offset: u64 LE][entry_count: u64 LE][magic: u32 LE]`

use vstd::prelude::*;

use super::codec::{framed, le_bytes};
use super::text::{decimal, digits_text, hex, hex_text};
use crate::key::bytes_copy;

pub mod reader;
pub mod roundtrip;
pub mod writer;

verus! {

/// Magic number at the end of every SSTable file ("SSTL").
pub const MAGIC: u32 = 0x5353_544C;

/// Default target size for data blocks (4 KiB).
pub const DEFAULT_BLOCK_SIZE: usize = 4096;

/// Footer size in bytes: index_offset(8) + entry_count(8) + magic(4).
pub const FOOTER_SIZE: usize = 20;

/// Metadata about an SSTable file, used by the manifest.
#[derive(Debug)]
pub struct SsTableMeta {
    /// Unique identifier for this SSTable.
    pub id: u64,
    /// LSM level (0 = freshly flushed from memtable).
    pub level: usize,
    /// Path to the SSTable file.
    pub path: String,
    /// Total number of entries (including tombstones).
    pub entry_count: u64,
    /// Smallest key in the SSTable.
    pub min_key: Vec<u8>,
    /// Largest key in the SSTable.
    pub max_key: Vec<u8>,
}

impl SsTableMeta {
    /// The two describe the same table.
    pub open spec fn same(self, other: Self) -> bool {
        &&& self.id == other.id
        &&& self.level == other.level
        &&& self.path@ == other.path@
        &&& self.entry_count == other.entry_count
        &&& self.min_key@ == other.min_key@
        &&& self.max_key@ == other.max_key@
    }
}

impl Clone for SsTableMeta {
    fn clone(&self) -> (r: Self)
        ensures
            r.same(*self),
    {
        SsTableMeta {
            id: self.id,
            level: self.level,
            path: self.path.clone(),
            entry_count: self.entry_count,
            min_key: bytes_copy(self.min_key.as_slice()),
            max_key: bytes_copy(self.max_key.as_slice()),
        }
    }
}

/// Ways in which the bytes of a file fail to be an SSTable.
#[derive(Debug, PartialEq, Eq, Clone, Copy, Structural)]
pub enum FormatError {
    /// The file is shorter than a footer.
    TooSmall,
    /// The footer does not end with the magic number.
    BadMagic(u32),
    /// The footer places the index behind the end of the file.
    BadIndexOffset(u64),
    /// A data block ends in the middle of an entry.
    TruncatedEntry,
    /// A data block is not within the file.
    UnexpectedEnd,
}

impl FormatError {
    /// The message for users that describes this error.
    pub fn to_string(&self) -> (r: String)
        ensures
            r@ == match *self {
                FormatError::TooSmall => "file too small to be an SSTable"@,
                FormatError::BadMagic(magic) => "bad SSTable magic: "@ + hex_text(magic as nat)
                    + ", expected "@ + hex_text(MAGIC as nat),
                FormatError::BadIndexOffset(offset) => "index offset out of range: "@
                    + digits_text(offset as nat, 10),
                FormatError::TruncatedEntry => "truncated entry in data block"@,
                FormatError::UnexpectedEnd => "failed to fill whole buffer"@,
            },
    {
        match self {
            FormatError::TooSmall => "file too small to be an SSTable".to_owned(),
            FormatError::BadMagic(magic) => {
                let mut message: String = "bad SSTable magic: ".to_owned();
                let found: String = hex(*magic);
                let expected: String = hex(MAGIC);
                message.append(found.as_str());
                message.append(", expected ");
                message.append(expected.as_str());
                message
            },
            FormatError::BadIndexOffset(offset) => {
                let mut message: String = "index offset out of range: ".to_owned();
                let found: String = decimal(*offset);
                message.append(found.as_str());
                message
            },
            FormatError::TruncatedEntry => "truncated entry in data block".to_owned(),
            FormatError::UnexpectedEnd => "failed to fill whole buffer".to_owned(),
        }
    }
}

/// The bytes of an entry in a data block.
pub open spec fn entry_bytes(e: (Seq<u8>, Seq<u8>)) -> Seq<u8> {
    framed(e.0) + framed(e.1)
}

/// The bytes of a data block.
pub open spec fn block_bytes(s: Seq<(Seq<u8>, Seq<u8>)>) -> Seq<u8>
    decreases s.len(),
{
    if s.len() == 0 {
        Seq::empty()
    } else {
        block_bytes(s.drop_last()) + entry_bytes(s.last())
    }
}

/// The bytes of all data blocks.
pub open spec fn data_bytes(blocks: Seq<Seq<(Seq<u8>, Seq<u8>)>>) -> Seq<u8>
    decreases blocks.len(),
{
    if blocks.len() == 0 {
        Seq::empty()
    } else {
        data_bytes(blocks.drop_last()) + block_bytes(blocks.last())
    }
}

/// A number as it is stored, modulo the range of `u64`.
pub open spec fn stored(n: nat) -> nat {
    n % 0x1_0000_0000_0000_0000
}

/// The index entry of block `i`: its first key, where it starts and how long it
/// is.
pub open spec fn index_entry(blocks: Seq<Seq<(Seq<u8>, Seq<u8>)>>, i: int) -> (
    Seq<u8>,
    nat,
    nat,
) {
    (
        blocks[i][0].0,
        stored(data_bytes(blocks.take(i)).len()),
        stored(block_bytes(blocks[i]).len()),
    )
}

/// The bytes of an index entry.
pub open spec fn index_entry_bytes(e: (Seq<u8>, nat, nat)) -> Seq<u8> {
    framed(e.0) + le_bytes(e.1, 8) + le_bytes(e.2, 8)
}

/// The bytes of the first `n` index entries.
pub open spec fn index_bytes(blocks: Seq<Seq<(Seq<u8>, Seq<u8>)>>, n: nat) -> Seq<u8>
    decreases n,
{
    if n == 0 {
        Seq::empty()
    } else {
        index_bytes(blocks, (n - 1) as nat) + index_entry_bytes(index_entry(blocks, n - 1))
    }
}

/// The bytes of the footer.
pub open spec fn footer_bytes(index_offset: nat, entry_count: nat) -> Seq<u8> {
    le_bytes(stored(index_offset), 8) + le_bytes(stored(entry_count), 8) + le_bytes(
        MAGIC as nat,
        4,
    )
}

/// How entries are divided into blocks: the blocks that have reached the block
/// size, and the entries of the block after them.
pub open spec fn layout(s: Seq<(Seq<u8>, Seq<u8>)>, block_size: nat) -> (
    Seq<Seq<(Seq<u8>, Seq<u8>)>>,
    Seq<(Seq<u8>, Seq<u8>)>,
)
    decreases s.len(),
{
    if s.len() == 0 {
        (Seq::empty(), Seq::empty())
    } else {
        let (full, open) = layout(s.drop_last(), block_size);
        let block = open.push(s.last());
        if block_bytes(block).len() >= block_size {
            (full.push(block), Seq::empty())
        } else {
            (full, block)
        }
    }
}

/// The bytes of the blocks that have reached the block size.
pub open spec fn full_block_bytes(s: Seq<(Seq<u8>, Seq<u8>)>, block_size: nat) -> Seq<u8> {
    data_bytes(layout(s, block_size).0)
}

/// The blocks of a finished table.
pub open spec fn table_blocks(s: Seq<(Seq<u8>, Seq<u8>)>, block_size: nat) -> Seq<
    Seq<(Seq<u8>, Seq<u8>)>,
> {
    let (full, open) = layout(s, block_size);
    if open.len() > 0 {
        full.push(open)
    } else {
        full
    }
}

/// The bytes of a finished table.
pub open spec fn table_bytes(s: Seq<(Seq<u8>, Seq<u8>)>, block_size: nat) -> Seq<u8> {
    let blocks = table_blocks(s, block_size);
    data_bytes(blocks) + index_bytes(blocks, blocks.len()) + footer_bytes(
        data_bytes(blocks).len(),
        s.len(),
    )
}

} // verus!
