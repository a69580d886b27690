//! Pluggable memtable backends for the LSM engine.
//!
//! The memtable is the in-memory write buffer: the first destination for all
//! writes and the first place checked on reads.
//!
//! Three implementations are provided:
//!
//! - [`LearnedMemtable`]: backed by [`LearnedMap`](crate::map::LearnedMap)
//! - [`SkipListMemtable`]: backed by `crossbeam_skiplist::SkipMap`, the
//!   industry standard used in RocksDB and LevelDB
//! - [`BTreeMemtable`]: backed by a sorted vector, a simple baseline

use vstd::prelude::*;

use super::pairs::{lists, pairs};

pub mod btree;
pub mod learned;
pub mod skiplist;

pub use btree::BTreeMemtable;
pub use learned::LearnedMemtable;
pub use skiplist::SkipListMemtable;

verus! {

/// An in-memory sorted write buffer for the LSM engine.
///
/// Tombstones (deletions) are represented as entries with an empty value.
pub trait Memtable: Sized {
    /// The memtable is in a consistent state.
    spec fn wf(&self) -> bool;

    /// The contents, tombstones included.
    spec fn contents(&self) -> Map<Seq<u8>, Seq<u8>>;

    /// The approximate memory usage.
    spec fn byte_count(&self) -> usize;

    /// Whether the bytes of a pair count as well when its key is already there.
    spec fn counts_overwrites() -> bool;

    /// A memtable holds finitely many entries.
    proof fn lemma_finite(&self)
        requires
            self.wf(),
        ensures
            self.contents().dom().finite(),
    ;

    /// Insert a key-value pair, overwriting any existing value for the key.
    fn insert(&mut self, key: Vec<u8>, value: Vec<u8>)
        requires
            old(self).wf(),
            old(self).contents().dom().contains(key@) || old(self).contents().len()
                < isize::MAX as nat,
        ensures
            final(self).wf(),
            final(self).contents() == old(self).contents().insert(key@, value@),
            final(self).byte_count() == grown(
                old(self).byte_count(),
                key@,
                value@,
                Self::counts_overwrites() || !old(self).contents().dom().contains(key@),
            ),
    ;

    /// Look up a key. Returns the value if found, `None` if absent.
    ///
    /// An empty value indicates a tombstone (the key was deleted).
    fn get(&self, key: &[u8]) -> (r: Option<Vec<u8>>)
        requires
            self.wf(),
        ensures
            match r {
                Some(v) => self.contents().dom().contains(key@) && v@ == self.contents()[key@],
                None => !self.contents().dom().contains(key@),
            },
    ;

    /// Mark a key as deleted by inserting a tombstone (empty value).
    fn delete(&mut self, key: &[u8])
        requires
            old(self).wf(),
            old(self).contents().dom().contains(key@) || old(self).contents().len()
                < isize::MAX as nat,
        ensures
            final(self).wf(),
            final(self).contents() == old(self).contents().insert(key@, Seq::<u8>::empty()),
            final(self).byte_count() == grown(
                old(self).byte_count(),
                key@,
                Seq::<u8>::empty(),
                Self::counts_overwrites() || !old(self).contents().dom().contains(key@),
            ),
    ;

    /// Number of entries (including tombstones).
    fn len(&self) -> (r: usize)
        requires
            self.wf(),
        ensures
            r == self.contents().len(),
    ;

    /// Whether the memtable contains no entries.
    fn is_empty(&self) -> (r: bool)
        requires
            self.wf(),
        ensures
            r == (self.contents() == Map::<Seq<u8>, Seq<u8>>::empty()),
    {
        let n: usize = self.len();
        proof {
            self.lemma_finite();
            if n == 0 {
                assert(self.contents().dom() =~= Set::empty());
                assert(self.contents() =~= Map::<Seq<u8>, Seq<u8>>::empty());
            }
        }
        n == 0
    }

    /// Approximate memory usage in bytes (key + value data, not structural
    /// overhead).
    ///
    /// Used by the engine to decide when to flush the memtable to disk.
    fn approximate_bytes(&self) -> (r: usize)
        ensures
            r == self.byte_count(),
    ;

    /// Extract all entries in sorted key order, emptying the memtable.
    ///
    /// Tombstones are included (with empty values) so they propagate to
    /// tables for correct deletion semantics across levels.
    fn drain_sorted(&mut self) -> (r: Vec<(Vec<u8>, Vec<u8>)>)
        requires
            old(self).wf(),
        ensures
            final(self).wf(),
            final(self).contents() == Map::<Seq<u8>, Seq<u8>>::empty(),
            final(self).byte_count() == 0,
            lists(pairs(r@), old(self).contents()),
    ;
}

/// The approximate memory usage after a pair is stored: its bytes are added if
/// they count. Those of an older value for the key are never taken away.
pub open spec fn grown(count: usize, key: Seq<u8>, value: Seq<u8>, counted: bool) -> usize {
    if counted {
        count.wrapping_add((key.len() as usize).wrapping_add(value.len() as usize))
    } else {
        count
    }
}

} // verus!
