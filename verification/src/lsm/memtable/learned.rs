//! Memtable backed by [`LearnedMap`].

use vstd::prelude::*;

use super::Memtable;
use crate::key::{before, bytes_copy};
use crate::lsm::pairs::{has_key, lemma_pair_map, lex_lt, pair_map, pairs};
use crate::map::{law_iteration_is_sorted_and_complete, EpochGuard, LearnedMap};

verus! {

/// A memtable using a learned index for O(1) expected lookups.
///
/// Backed by [`LearnedMap`], which provides sorted iteration (needed for flush
/// to a table) and automatic subtree rebuilds to maintain model quality.
pub struct LearnedMemtable {
    map: LearnedMap<Vec<u8>, Vec<u8>>,
    bytes: usize,
}

/// A map to byte strings.
pub open spec fn byte_map(m: Map<Seq<u8>, Vec<u8>>) -> Map<Seq<u8>, Seq<u8>> {
    m.map_values(|v: Vec<u8>| v@)
}

impl LearnedMemtable {
    /// Create a new empty learned memtable.
    pub fn new() -> (r: Self)
        ensures
            r.wf(),
            r.contents() == Map::<Seq<u8>, Seq<u8>>::empty(),
            r.byte_count() == 0,
    {
        let map: LearnedMap<Vec<u8>, Vec<u8>> = LearnedMap::new();
        assert(byte_map(map@) =~= Map::<Seq<u8>, Seq<u8>>::empty());
        LearnedMemtable { map, bytes: 0 }
    }
}

impl Default for LearnedMemtable {
    fn default() -> (r: Self)
        ensures
            r.wf(),
            r.contents() == Map::<Seq<u8>, Seq<u8>>::empty(),
            r.byte_count() == 0,
    {
        LearnedMemtable::new()
    }
}

impl Memtable for LearnedMemtable {
    closed spec fn wf(&self) -> bool {
        self.map.wf()
    }

    closed spec fn contents(&self) -> Map<Seq<u8>, Seq<u8>> {
        byte_map(self.map@)
    }

    closed spec fn byte_count(&self) -> usize {
        self.bytes
    }

    open spec fn counts_overwrites() -> bool {
        false
    }

    proof fn lemma_finite(&self) {
        law_iteration_is_sorted_and_complete(self.map);
        assert(byte_map(self.map@).dom() =~= self.map@.dom());
    }

    fn insert(&mut self, key: Vec<u8>, value: Vec<u8>) {
        let added_bytes: usize = key.len().wrapping_add(value.len());
        let guard: EpochGuard = self.map.guard();
        let ghost start = self.map@;
        proof {
            law_iteration_is_sorted_and_complete(self.map);
            assert(byte_map(start).dom() =~= start.dom());
        }
        let key_copy: Vec<u8> = bytes_copy(key.as_slice());
        let value_copy: Vec<u8> = bytes_copy(value.as_slice());
        if self.map.insert(key_copy, value_copy, &guard) {
            // New key: count the bytes.
            self.bytes = self.bytes.wrapping_add(added_bytes);
        } else {
            // Key exists: remove, then insert again for upsert semantics. The byte
            // count is approximate and stays as it is.
            self.map.remove(&key, &guard);
            self.map.insert(key, value, &guard);
        }
        assert(byte_map(self.map@) =~= byte_map(start).insert(key@, value@));
    }

    fn get(&self, key: &[u8]) -> (r: Option<Vec<u8>>) {
        let owned: Vec<u8> = bytes_copy(key);
        let guard: EpochGuard = self.map.guard();
        match self.map.get(&owned, &guard) {
            Some(value) => Some(bytes_copy(value.as_slice())),
            None => None,
        }
    }

    fn delete(&mut self, key: &[u8]) {
        let nothing: Vec<u8> = Vec::new();
        assert(nothing@ =~= Seq::<u8>::empty());
        self.insert(bytes_copy(key), nothing);
    }

    fn len(&self) -> (r: usize) {
        proof {
            law_iteration_is_sorted_and_complete(self.map);
            assert(byte_map(self.map@).dom() =~= self.map@.dom());
        }
        self.map.len()
    }

    fn approximate_bytes(&self) -> (r: usize) {
        self.bytes
    }

    fn drain_sorted(&mut self) -> (r: Vec<(Vec<u8>, Vec<u8>)>) {
        let guard: EpochGuard = self.map.guard();
        let ghost start = self.map;
        let entries: Vec<(Vec<u8>, Vec<u8>)> = self.map.drain(&guard);
        self.bytes = 0;
        proof {
            law_iteration_is_sorted_and_complete(start);
            let s = pairs(entries@);
            assert forall|i: int, j: int| 0 <= i < j < s.len() implies lex_lt(
                #[trigger] s[i].0,
                #[trigger] s[j].0,
            ) by {
                assert(before::<Vec<u8>>(entries@[i].0@, entries@[j].0@));
            }
            lemma_pair_map(s);
            assert(pair_map(s) =~= byte_map(start@)) by {
                assert forall|k: Seq<u8>| #[trigger] pair_map(s).dom().contains(k) <==> byte_map(
                    start@,
                ).dom().contains(k) by {
                    if has_key(s, k) {
                        let i = choose|i: int| 0 <= i < s.len() && (#[trigger] s[i]).0 == k;
                        assert(start.entries()[i].0@ == k);
                    }
                    if start@.dom().contains(k) {
                        let i = choose|i: int|
                            0 <= i < start.entries().len() && (#[trigger] start.entries()[i]).0@
                                == k;
                        assert(s[i].0 == k);
                    }
                }
                assert forall|k: Seq<u8>| pair_map(s).dom().contains(k) implies #[trigger] pair_map(
                    s,
                )[k] == byte_map(start@)[k] by {
                    let i = choose|i: int| 0 <= i < s.len() && (#[trigger] s[i]).0 == k;
                    assert(start.entries()[i].0@ == k);
                }
            }
            assert(byte_map(self.map@) =~= Map::<Seq<u8>, Seq<u8>>::empty());
        }
        entries
    }
}

} // verus!
