//! SSTable writer: builds the bytes of sorted immutable files.

use vstd::prelude::*;

use super::{
    block_bytes, data_bytes, entry_bytes, full_block_bytes, index_bytes, index_entry, layout,
    stored, table_blocks, table_bytes, DEFAULT_BLOCK_SIZE, MAGIC,
};
use crate::key::bytes_copy;
use crate::lsm::codec::{push_framed, push_u32, push_u64};

verus! {

/// Builds an SSTable file from a sorted sequence of key-value pairs.
///
/// Finished blocks are kept as output until the owner of the file takes them
/// and writes them to its end.
pub struct SsTableWriter {
    output: Vec<u8>,
    block_size: usize,
    // Current data block accumulation.
    block_buf: Vec<u8>,
    block_first_key: Option<Vec<u8>>,
    block_offset: u64,
    // Index entries: (first_key, offset, block_len).
    index: Vec<(Vec<u8>, u64, u64)>,
    entry_count: u64,
    min_key: Option<Vec<u8>>,
    max_key: Option<Vec<u8>>,
    // The entries so far and the output that was taken.
    added: Ghost<Seq<(Seq<u8>, Seq<u8>)>>,
    taken: Ghost<Seq<u8>>,
}

/// What a finished table is described by.
pub struct Finished {
    /// The bytes that complete the file.
    pub output: Vec<u8>,
    /// Number of entries.
    pub entry_count: u64,
    /// The first key, empty if there is none.
    pub min_key: Vec<u8>,
    /// The last key, empty if there is none.
    pub max_key: Vec<u8>,
}

/// The first key of the entries, empty if there is none.
pub open spec fn first_key_of(s: Seq<(Seq<u8>, Seq<u8>)>) -> Seq<u8> {
    if s.len() > 0 {
        s[0].0
    } else {
        Seq::empty()
    }
}

/// The last key of the entries, empty if there is none.
pub open spec fn last_key_of(s: Seq<(Seq<u8>, Seq<u8>)>) -> Seq<u8> {
    if s.len() > 0 {
        s.last().0
    } else {
        Seq::empty()
    }
}

/// The key, if there is one, is the expected one.
spec fn is_key(k: Option<Vec<u8>>, expected: Option<Seq<u8>>) -> bool {
    match k {
        Some(key) => expected == Some(key@),
        None => expected is None,
    }
}

/// The index holds the entries of the blocks.
spec fn indexes(
    index: Seq<(Vec<u8>, u64, u64)>,
    blocks: Seq<Seq<(Seq<u8>, Seq<u8>)>>,
) -> bool {
    &&& index.len() == blocks.len()
    &&& forall|i: int|
        #![trigger index[i]]
        0 <= i < index.len() ==> (index[i].0@, index[i].1 as nat, index[i].2 as nat)
            == index_entry(blocks, i)
}

impl SsTableWriter {
    /// The buffers agree with the entries that were added.
    pub closed spec fn wf(self) -> bool {
        let s = self.added@;
        let (full, open) = layout(s, self.block_size as nat);
        &&& self.taken@ + self.output@ == data_bytes(full)
        &&& self.block_buf@ == block_bytes(open)
        &&& self.block_offset == stored(data_bytes(full).len())
        &&& indexes(self.index@, full)
        &&& self.entry_count == stored(s.len())
        &&& is_key(
            self.block_first_key,
            if open.len() > 0 {
                Some(open[0].0)
            } else {
                None
            },
        )
        &&& is_key(
            self.min_key,
            if s.len() > 0 {
                Some(s[0].0)
            } else {
                None
            },
        )
        &&& is_key(
            self.max_key,
            if s.len() > 0 {
                Some(s.last().0)
            } else {
                None
            },
        )
    }

    /// The entries that were added.
    pub closed spec fn entries(self) -> Seq<(Seq<u8>, Seq<u8>)> {
        self.added@
    }

    /// The output that was taken.
    pub closed spec fn taken(self) -> Seq<u8> {
        self.taken@
    }

    /// The target block size.
    pub closed spec fn target(self) -> nat {
        self.block_size as nat
    }

    /// Create a new writer with the default block size.
    pub fn new() -> (r: Self)
        ensures
            r.wf(),
            r.entries() == Seq::<(Seq<u8>, Seq<u8>)>::empty(),
            r.taken() == Seq::<u8>::empty(),
            r.target() == DEFAULT_BLOCK_SIZE,
    {
        SsTableWriter::with_block_size(DEFAULT_BLOCK_SIZE)
    }

    /// Create a new writer with a custom target block size.
    pub fn with_block_size(block_size: usize) -> (r: Self)
        ensures
            r.wf(),
            r.entries() == Seq::<(Seq<u8>, Seq<u8>)>::empty(),
            r.taken() == Seq::<u8>::empty(),
            r.target() == block_size,
    {
        let r: SsTableWriter = SsTableWriter {
            output: Vec::new(),
            block_size,
            block_buf: Vec::new(),
            block_first_key: None,
            block_offset: 0,
            index: Vec::new(),
            entry_count: 0,
            min_key: None,
            max_key: None,
            added: Ghost(Seq::empty()),
            taken: Ghost(Seq::empty()),
        };
        proof {
            assert(r.taken@ + r.output@ =~= Seq::<u8>::empty());
            assert(r.block_buf@ =~= Seq::<u8>::empty());
        }
        r
    }

    /// Add a key-value entry. Entries must be added in sorted key order for
    /// lookups in the table to find them.
    #[verifier::rlimit(40)]
    pub fn add(&mut self, key: &[u8], value: &[u8])
        requires
            old(self).wf(),
        ensures
            final(self).wf(),
            final(self).entries() == old(self).entries().push((key@, value@)),
            final(self).taken() == old(self).taken(),
            final(self).target() == old(self).target(),
    {
        let ghost s = self.added@;
        let ghost t = s.push((key@, value@));
        let ghost (full, open) = layout(s, self.block_size as nat);
        let ghost block = open.push((key@, value@));
        // Track min/max keys.
        if self.min_key.is_none() {
            self.min_key = Some(bytes_copy(key));
        }
        self.max_key = Some(bytes_copy(key));
        // Track first key of the current block.
        if self.block_first_key.is_none() {
            self.block_first_key = Some(bytes_copy(key));
        }
        // Encode entry into block buffer.
        push_framed(&mut self.block_buf, key);
        push_framed(&mut self.block_buf, value);
        proof {
            assert(self.block_buf@ =~= block_bytes(open) + entry_bytes((key@, value@)));
            lemma_layout_push(s, (key@, value@), self.block_size as nat);
            self.added@ = t;
        }
        self.entry_count = self.entry_count.wrapping_add(1);
        // Flush block if it exceeds the target size.
        if self.block_buf.len() >= self.block_size {
            self.flush_block(Ghost(full), Ghost(block));
        }
    }

    /// Take the finished blocks, to be written to the end of the file. After it
    /// every block that has reached the block size has been taken.
    pub fn take_output(&mut self) -> (r: Vec<u8>)
        requires
            old(self).wf(),
        ensures
            final(self).wf(),
            final(self).entries() == old(self).entries(),
            final(self).taken() == old(self).taken() + r@,
            final(self).taken() == full_block_bytes(old(self).entries(), old(self).target()),
            final(self).target() == old(self).target(),
    {
        let mut output: Vec<u8> = Vec::new();
        core::mem::swap(&mut output, &mut self.output);
        proof {
            self.taken@ = self.taken@ + output@;
            assert(self.taken@ + self.output@ =~= old(self).taken@ + old(self).output@);
        }
        output
    }

    /// Finish the SSTable: the last block, the index block and the footer.
    pub fn finish(self) -> (r: Finished)
        requires
            self.wf(),
        ensures
            self.taken() + r.output@ == table_bytes(self.entries(), self.target()),
            r.entry_count == stored(self.entries().len()),
            r.min_key@ == first_key_of(self.entries()),
            r.max_key@ == last_key_of(self.entries()),
    {
        let mut writer: SsTableWriter = self;
        let ghost s = writer.added@;
        let ghost (full, open) = layout(s, writer.block_size as nat);
        let ghost blocks = table_blocks(s, writer.block_size as nat);
        // Flush any remaining block data.
        if writer.block_buf.len() > 0 {
            proof {
                if open.len() == 0 {
                    assert(block_bytes(open) =~= Seq::<u8>::empty());
                }
            }
            writer.flush_block(Ghost(full), Ghost(open));
        } else {
            proof {
                if open.len() > 0 {
                    lemma_entry_len(open.last());
                }
            }
        }
        let index_offset: u64 = writer.block_offset;
        let mut output: Vec<u8> = Vec::new();
        core::mem::swap(&mut output, &mut writer.output);
        let ghost data = output@;
        // Write the index block.
        let mut i: usize = 0;
        assert(output@ =~= data + index_bytes(blocks, 0));
        while i < writer.index.len()
            invariant
                i <= writer.index@.len(),
                indexes(writer.index@, blocks),
                output@ == data + index_bytes(blocks, i as nat),
            decreases writer.index@.len() - i,
        {
            let entry: &(Vec<u8>, u64, u64) = &writer.index[i];
            assert((entry.0@, entry.1 as nat, entry.2 as nat) == index_entry(blocks, i as int));
            push_framed(&mut output, entry.0.as_slice());
            push_u64(&mut output, entry.1);
            push_u64(&mut output, entry.2);
            assert(output@ =~= data + index_bytes(blocks, (i + 1) as nat));
            i += 1;
        }
        // Write the footer.
        push_u64(&mut output, index_offset);
        push_u64(&mut output, writer.entry_count);
        push_u32(&mut output, MAGIC);
        proof {
            assert(self.taken() + output@ =~= table_bytes(s, writer.block_size as nat));
        }
        let min_key: Vec<u8> = match writer.min_key {
            Some(key) => key,
            None => Vec::new(),
        };
        let max_key: Vec<u8> = match writer.max_key {
            Some(key) => key,
            None => Vec::new(),
        };
        assert(s.len() == 0 ==> min_key@ =~= Seq::<u8>::empty() && max_key@ =~= Seq::<u8>::empty());
        Finished { output, entry_count: writer.entry_count, min_key, max_key }
    }

    /// Move the current block to the output and record an index entry.
    fn flush_block(
        &mut self,
        full: Ghost<Seq<Seq<(Seq<u8>, Seq<u8>)>>>,
        block: Ghost<Seq<(Seq<u8>, Seq<u8>)>>,
    )
        requires
            block@.len() > 0,
            old(self).taken@ + old(self).output@ == data_bytes(full@),
            old(self).block_buf@ == block_bytes(block@),
            old(self).block_offset == stored(data_bytes(full@).len()),
            indexes(old(self).index@, full@),
            is_key(old(self).block_first_key, Some(block@[0].0)),
        ensures
            final(self).taken == old(self).taken,
            final(self).added == old(self).added,
            final(self).block_size == old(self).block_size,
            final(self).entry_count == old(self).entry_count,
            final(self).min_key == old(self).min_key,
            final(self).max_key == old(self).max_key,
            final(self).taken@ + final(self).output@ == data_bytes(full@.push(block@)),
            final(self).block_buf@ == Seq::<u8>::empty(),
            final(self).block_offset == stored(data_bytes(full@.push(block@)).len()),
            indexes(final(self).index@, full@.push(block@)),
            final(self).block_first_key is None,
    {
        let ghost all = full@.push(block@);
        let block_len: u64 = self.block_buf.len() as u64;
        let ghost start = self.output@;
        let ghost index_before = self.index@;
        self.output.append(&mut self.block_buf);
        let mut first_key: Option<Vec<u8>> = None;
        core::mem::swap(&mut first_key, &mut self.block_first_key);
        if let Some(first_key) = first_key {
            self.index.push((first_key, self.block_offset, block_len));
        }
        self.block_offset = self.block_offset.wrapping_add(block_len);
        proof {
            assert(all.drop_last() =~= full@);
            assert(self.taken@ + self.output@ =~= data_bytes(full@) + block_bytes(block@));
            assert(data_bytes(all) == data_bytes(full@) + block_bytes(block@));
            assert forall|i: int|
                #![trigger self.index@[i]]
                0 <= i < self.index@.len() implies (
                self.index@[i].0@,
                self.index@[i].1 as nat,
                self.index@[i].2 as nat,
            ) == index_entry(all, i) by {
                assert(all.take(i) =~= full@.take(i));
                if i < index_before.len() {
                    assert(self.index@[i] == index_before[i]);
                    assert(all[i] == full@[i]);
                } else {
                    assert(full@.take(i) =~= full@);
                }
            }
        }
        self.block_buf.clear();
    }
}

/// One more entry goes into the open block and fills it or not.
pub proof fn lemma_layout_push(
    s: Seq<(Seq<u8>, Seq<u8>)>,
    e: (Seq<u8>, Seq<u8>),
    block_size: nat,
)
    ensures
        ({
            let (full, open) = layout(s, block_size);
            let block = open.push(e);
            &&& block_bytes(block) == block_bytes(open) + entry_bytes(e)
            &&& block_bytes(block).len() >= block_size ==> layout(s.push(e), block_size).0
                == full.push(block) && layout(s.push(e), block_size).1.len() == 0
            &&& block_bytes(block).len() < block_size ==> layout(s.push(e), block_size) == (
                full,
                block,
            )
        }),
{
    let (full, open) = layout(s, block_size);
    assert(s.push(e).drop_last() =~= s);
    assert(open.push(e).drop_last() =~= open);
}

/// An entry takes space.
pub proof fn lemma_entry_len(e: (Seq<u8>, Seq<u8>))
    ensures
        entry_bytes(e).len() == 8 + e.0.len() + e.1.len(),
{
    crate::lsm::codec::lemma_le_bytes(crate::lsm::codec::stored_len(e.0), 4);
    crate::lsm::codec::lemma_le_bytes(crate::lsm::codec::stored_len(e.1), 4);
}

} // verus!
