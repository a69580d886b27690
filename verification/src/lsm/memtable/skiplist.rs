//! Memtable backed by `crossbeam_skiplist::SkipMap`.

use crossbeam_skiplist::SkipMap;
use vstd::prelude::*;

use super::Memtable;
use crate::key::bytes_copy;
use crate::lsm::pairs::{has_key, lists, pair_map, pairs};

verus! {

/// Declares the skip-list map.
#[verifier::external_type_specification]
#[verifier::external_body]
#[verifier::reject_recursive_types(K)]
#[verifier::reject_recursive_types(V)]
pub struct ExSkipMap<K, V>(SkipMap<K, V>);

/// What a skip-list map holds.
pub uninterp spec fn skip_contents(
    m: SkipMap<Vec<u8>, Vec<u8>>,
) -> Map<Seq<u8>, Seq<u8>>;

/// `SkipMap::new` returns an empty map.
#[verifier::external_body]
fn skip_new() -> (r: SkipMap<Vec<u8>, Vec<u8>>)
    ensures
        skip_contents(r).dom() == Set::<Seq<u8>>::empty(),
{
    SkipMap::new()
}

/// `SkipMap::insert` adds the pair; an entry with the same key is removed
/// before.
#[verifier::external_body]
fn skip_insert(
    m: &mut SkipMap<Vec<u8>, Vec<u8>>,
    key: Vec<u8>,
    value: Vec<u8>,
)
    ensures
        skip_contents(*final(m)) == skip_contents(*old(m)).insert(key@, value@),
{
    m.insert(key, value);
}

/// `SkipMap::get` returns the entry with the given key, here a copy of its
/// value, if there is one.
#[verifier::external_body]
fn skip_get(m: &SkipMap<Vec<u8>, Vec<u8>>, key: &[u8]) -> (r: Option<Vec<u8>>)
    ensures
        match r {
            Some(v) => skip_contents(*m).dom().contains(key@) && v@ == skip_contents(*m)[key@],
            None => !skip_contents(*m).dom().contains(key@),
        },
{
    m.get(key).map(|e| e.value().clone())
}

/// `SkipMap::len` returns the number of entries of a map that nobody modifies
/// during the call, as long as it is at most `isize::MAX`.
#[verifier::external_body]
fn skip_len(m: &SkipMap<Vec<u8>, Vec<u8>>) -> (r: usize)
    ensures
        skip_contents(*m).len() <= isize::MAX as nat ==> r == skip_contents(*m).len(),
{
    m.len()
}

/// `SkipMap::iter` visits all entries in ascending key order; here each entry
/// is copied to a pair.
#[verifier::external_body]
fn skip_pairs(m: &SkipMap<Vec<u8>, Vec<u8>>) -> (r: Vec<(Vec<u8>, Vec<u8>)>)
    ensures
        lists(pairs(r@), skip_contents(*m)),
{
    m.iter().map(|e| (e.key().clone(), e.value().clone())).collect()
}

/// `SkipMap::remove` removes the entry with the given key, if there is one.
#[verifier::external_body]
fn skip_remove(m: &mut SkipMap<Vec<u8>, Vec<u8>>, key: &Vec<u8>)
    ensures
        skip_contents(*final(m)) == skip_contents(*old(m)).remove(key@),
{
    m.remove(key);
}

/// A memtable using a lock-free skip list: the industry standard.
///
/// This is the data structure used by RocksDB, LevelDB, and most production
/// LSM engines for their memtables. Provides O(log n) lookups.
pub struct SkipListMemtable {
    map: SkipMap<Vec<u8>, Vec<u8>>,
    bytes: usize,
}

impl SkipListMemtable {
    /// Create a new empty skip-list memtable.
    pub fn new() -> (r: Self)
        ensures
            r.wf(),
            r.contents() == Map::<Seq<u8>, Seq<u8>>::empty(),
            r.byte_count() == 0,
    {
        let map: SkipMap<Vec<u8>, Vec<u8>> = skip_new();
        assert(skip_contents(map) =~= Map::<Seq<u8>, Seq<u8>>::empty());
        SkipListMemtable { map, bytes: 0 }
    }
}

impl Default for SkipListMemtable {
    fn default() -> (r: Self)
        ensures
            r.wf(),
            r.contents() == Map::<Seq<u8>, Seq<u8>>::empty(),
            r.byte_count() == 0,
    {
        SkipListMemtable::new()
    }
}

impl Memtable for SkipListMemtable {
    closed spec fn wf(&self) -> bool {
        skip_contents(self.map).dom().finite() && skip_contents(self.map).len()
            <= isize::MAX as nat
    }

    closed spec fn contents(&self) -> Map<Seq<u8>, Seq<u8>> {
        skip_contents(self.map)
    }

    closed spec fn byte_count(&self) -> usize {
        self.bytes
    }

    open spec fn counts_overwrites() -> bool {
        true
    }

    proof fn lemma_finite(&self) {
    }

    fn insert(&mut self, key: Vec<u8>, value: Vec<u8>) {
        let added_bytes: usize = key.len().wrapping_add(value.len());
        skip_insert(&mut self.map, key, value);
        self.bytes = self.bytes.wrapping_add(added_bytes);
    }

    fn get(&self, key: &[u8]) -> (r: Option<Vec<u8>>) {
        skip_get(&self.map, key)
    }

    fn delete(&mut self, key: &[u8]) {
        let nothing: Vec<u8> = Vec::new();
        assert(nothing@ =~= Seq::<u8>::empty());
        self.insert(bytes_copy(key), nothing);
    }

    fn len(&self) -> (r: usize) {
        skip_len(&self.map)
    }

    fn approximate_bytes(&self) -> (r: usize) {
        self.bytes
    }

    fn drain_sorted(&mut self) -> (r: Vec<(Vec<u8>, Vec<u8>)>) {
        let ghost start = skip_contents(self.map);
        let entries: Vec<(Vec<u8>, Vec<u8>)> = skip_pairs(&self.map);
        let ghost s = pairs(entries@);
        let mut i: usize = 0;
        while i < entries.len()
            invariant
                i <= entries@.len(),
                s == pairs(entries@),
                start == pair_map(s),
                start.dom().finite(),
                skip_contents(self.map).submap_of(start),
                skip_contents(self.map).dom().finite(),
                forall|j: int|
                    0 <= j < i ==> !skip_contents(self.map).dom().contains((#[trigger] s[j]).0),
            decreases entries@.len() - i,
        {
            skip_remove(&mut self.map, &entries[i].0);
            assert(s[i as int].0 == entries@[i as int].0@);
            i += 1;
        }
        proof {
            assert forall|k: Seq<u8>| !skip_contents(self.map).dom().contains(k) by {
                if skip_contents(self.map).dom().contains(k) {
                    assert(start.dom().contains(k));
                    assert(has_key(s, k));
                    let j = choose|j: int| 0 <= j < s.len() && (#[trigger] s[j]).0 == k;
                    assert(!skip_contents(self.map).dom().contains(s[j].0));
                }
            }
            assert(skip_contents(self.map) =~= Map::<Seq<u8>, Seq<u8>>::empty());
        }
        self.bytes = 0;
        entries
    }
}

} // verus!
