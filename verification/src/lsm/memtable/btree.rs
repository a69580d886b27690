//! Memtable backed by a sorted vector.

use vstd::prelude::*;

use super::Memtable;
use crate::key::{bytes_copy, bytes_equal};
use crate::lsm::pairs::{
    key_sorted, lemma_insert_pair, lemma_pair_map, lemma_position, lemma_update_pair, lower_bound,
    pair_map, pairs,
};

verus! {

/// A memtable that keeps its entries in one sorted vector: the simplest
/// baseline.
pub struct BTreeMemtable {
    entries: Vec<(Vec<u8>, Vec<u8>)>,
    bytes: usize,
}

impl BTreeMemtable {
    /// Create a new empty memtable.
    pub fn new() -> (r: Self)
        ensures
            r.wf(),
            r.contents() == Map::<Seq<u8>, Seq<u8>>::empty(),
            r.byte_count() == 0,
    {
        let entries: Vec<(Vec<u8>, Vec<u8>)> = Vec::new();
        assert(pair_map(pairs(entries@)) =~= Map::<Seq<u8>, Seq<u8>>::empty());
        BTreeMemtable { entries, bytes: 0 }
    }
}

impl Default for BTreeMemtable {
    fn default() -> (r: Self)
        ensures
            r.wf(),
            r.contents() == Map::<Seq<u8>, Seq<u8>>::empty(),
            r.byte_count() == 0,
    {
        BTreeMemtable::new()
    }
}

impl Memtable for BTreeMemtable {
    closed spec fn wf(&self) -> bool {
        key_sorted(pairs(self.entries@))
    }

    closed spec fn contents(&self) -> Map<Seq<u8>, Seq<u8>> {
        pair_map(pairs(self.entries@))
    }

    closed spec fn byte_count(&self) -> usize {
        self.bytes
    }

    open spec fn counts_overwrites() -> bool {
        true
    }

    proof fn lemma_finite(&self) {
        lemma_pair_map(pairs(self.entries@));
    }

    fn insert(&mut self, key: Vec<u8>, value: Vec<u8>) {
        let added_bytes: usize = key.len().wrapping_add(value.len());
        let p: usize = lower_bound(&self.entries, key.as_slice());
        let ghost s = pairs(self.entries@);
        proof {
            lemma_position(s, p as int, key@);
        }
        if p < self.entries.len() && bytes_equal(self.entries[p].0.as_slice(), key.as_slice()) {
            proof {
                lemma_update_pair(s, p as int, value@);
            }
            self.entries[p] = (key, value);
            assert(pairs(self.entries@) =~= s.update(p as int, (key@, value@)));
        } else {
            proof {
                lemma_insert_pair(s, p as int, key@, value@);
            }
            self.entries.insert(p, (key, value));
            assert(pairs(self.entries@) =~= s.insert(p as int, (key@, value@)));
        }
        self.bytes = self.bytes.wrapping_add(added_bytes);
    }

    fn get(&self, key: &[u8]) -> (r: Option<Vec<u8>>) {
        let p: usize = lower_bound(&self.entries, key);
        let ghost s = pairs(self.entries@);
        proof {
            lemma_position(s, p as int, key@);
            lemma_pair_map(s);
        }
        if p < self.entries.len() && bytes_equal(self.entries[p].0.as_slice(), key) {
            assert(s[p as int].0 == key@);
            Some(bytes_copy(self.entries[p].1.as_slice()))
        } else {
            None
        }
    }

    fn delete(&mut self, key: &[u8]) {
        let nothing: Vec<u8> = Vec::new();
        assert(nothing@ =~= Seq::<u8>::empty());
        self.insert(bytes_copy(key), nothing);
    }

    fn len(&self) -> (r: usize) {
        proof {
            lemma_pair_map(pairs(self.entries@));
        }
        self.entries.len()
    }

    fn approximate_bytes(&self) -> (r: usize) {
        self.bytes
    }

    fn drain_sorted(&mut self) -> (r: Vec<(Vec<u8>, Vec<u8>)>) {
        let mut entries: Vec<(Vec<u8>, Vec<u8>)> = Vec::new();
        core::mem::swap(&mut entries, &mut self.entries);
        self.bytes = 0;
        assert(pair_map(pairs(self.entries@)) =~= Map::<Seq<u8>, Seq<u8>>::empty());
        entries
    }
}

} // verus!
