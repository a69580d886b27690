//! A sorted set backed by a learned index.

use vstd::prelude::*;

use crate::config::Config;
use crate::error::Result;
use crate::iter::{in_range, Bound, Range};
use crate::key::{before, Key};
use crate::map::{law_iteration_is_sorted_and_complete, EpochGuard, LearnedMap, MapRef};
use crate::node::ascending;

verus! {

/// Keys strictly ascend.
pub open spec fn ascending_keys<K: Key>(s: Seq<K>) -> bool {
    forall|i: int, j: int| 0 <= i < j < s.len() ==> before::<K>(#[trigger] s[i]@, #[trigger] s[j]@)
}

/// The key values of a sequence of keys.
pub open spec fn key_values<K: Key>(s: Seq<K>) -> Set<K::V> {
    Set::new(|k: K::V| exists|i: int| 0 <= i < s.len() && #[trigger] s[i]@ == k)
}

/// A sorted set backed by a learned index.
///
/// This is a thin wrapper around [`LearnedMap<K, ()>`](LearnedMap).
pub struct LearnedSet<K: Key> {
    inner: LearnedMap<K, ()>,
}

impl<K: Key> LearnedSet<K> {
    /// The underlying map is well-formed.
    pub closed spec fn wf(self) -> bool {
        self.inner.wf()
    }

    /// The keys in the set.
    pub closed spec fn view(self) -> Set<K::V> {
        self.inner@.dom()
    }

    /// The keys with their unit values, in the order of iteration.
    pub closed spec fn entries(self) -> Seq<(K, ())> {
        self.inner.entries()
    }

    /// The configuration of the set.
    pub closed spec fn settings(self) -> Config {
        self.inner.settings()
    }

    /// Create a new empty set.
    pub fn new() -> (r: Self)
        ensures
            r.wf(),
            r@ == Set::<K::V>::empty(),
            r.settings() == Config::defaults(),
    {
        LearnedSet { inner: LearnedMap::new() }
    }

    /// Create a new empty set with the given configuration.
    pub fn with_config(config: Config) -> (r: Self)
        requires
            config.wf(),
        ensures
            r.wf(),
            r@ == Set::<K::V>::empty(),
            r.settings() == config,
    {
        LearnedSet { inner: LearnedMap::with_config(config) }
    }

    /// Create a set from sorted keys.
    ///
    /// # Errors
    ///
    /// Returns an error if `keys` is empty or not sorted.
    pub fn bulk_load(keys: &[K]) -> (r: Result<Self>)
        ensures
            match r {
                Ok(set) => {
                    &&& keys@.len() > 0
                    &&& ascending_keys(keys@)
                    &&& set.wf()
                    &&& set@ == key_values(keys@)
                    &&& set@.len() == keys@.len()
                    &&& set.settings() == Config::defaults()
                },
                Err(e) => {
                    ||| e is EmptyData && keys@.len() == 0
                    ||| e is NotSorted && keys@.len() > 0 && !ascending_keys(keys@)
                },
            },
    {
        let mut pairs: Vec<(K, ())> = Vec::new();
        let mut i: usize = 0;
        while i < keys.len()
            invariant
                i <= keys@.len(),
                pairs@.len() == i,
                forall|j: int| 0 <= j < i ==> (#[trigger] pairs@[j]).0@ == keys@[j]@,
            decreases keys@.len() - i,
        {
            pairs.push((keys[i].duplicate(), ()));
            i += 1;
        }
        proof {
            if ascending(pairs@) {
                assert forall|a: int, b: int| 0 <= a < b < keys@.len() implies before::<K>(
                    #[trigger] keys@[a]@,
                    #[trigger] keys@[b]@,
                ) by {
                    assert(before::<K>(pairs@[a].0@, pairs@[b].0@));
                }
            }
            if ascending_keys(keys@) {
                assert forall|a: int, b: int| 0 <= a < b < pairs@.len() implies before::<K>(
                    #[trigger] pairs@[a].0@,
                    #[trigger] pairs@[b].0@,
                ) by {
                    assert(before::<K>(keys@[a]@, keys@[b]@));
                }
            }
        }
        match LearnedMap::bulk_load(pairs.as_slice()) {
            Ok(inner) => {
                proof {
                    law_iteration_is_sorted_and_complete(inner);
                    assert forall|k: K::V| inner@.dom().contains(k) <==> key_values(keys@).contains(
                        k,
                    ) by {
                        if inner@.dom().contains(k) {
                            let j = choose|j: int|
                                0 <= j < inner.entries().len() && (#[trigger] inner.entries()[j]).0@
                                    == k;
                            assert(keys@[j]@ == k);
                        }
                        if key_values(keys@).contains(k) {
                            let j = choose|j: int|
                                0 <= j < keys@.len() && #[trigger] keys@[j]@ == k;
                            assert(inner.entries()[j].0@ == k);
                        }
                    }
                    assert(inner@.dom() =~= key_values(keys@));
                }
                Ok(LearnedSet { inner })
            },
            Err(e) => Err(e),
        }
    }

    /// Acquire an epoch guard for use with operations on this set.
    pub fn guard(&self) -> EpochGuard {
        self.inner.guard()
    }

    /// Insert a key. Returns `true` if the key was newly inserted.
    pub fn insert(&mut self, key: K, guard: &EpochGuard) -> (r: bool)
        requires
            old(self).wf(),
            old(self)@.contains(key@) || old(self)@.len() < usize::MAX,
        ensures
            final(self).wf(),
            final(self).settings() == old(self).settings(),
            r == !old(self)@.contains(key@),
            final(self)@ == old(self)@.insert(key@),
    {
        self.inner.insert(key, (), guard)
    }

    /// Remove a key. Returns `true` if the key was present and removed.
    pub fn remove(&mut self, key: &K, guard: &EpochGuard) -> (r: bool)
        requires
            old(self).wf(),
        ensures
            final(self).wf(),
            final(self).settings() == old(self).settings(),
            r == old(self)@.contains(key@),
            final(self)@ == old(self)@.remove(key@),
    {
        self.inner.remove(key, guard)
    }

    /// Check whether the set contains a key.
    pub fn contains(&self, key: &K, guard: &EpochGuard) -> (r: bool)
        requires
            self.wf(),
        ensures
            r == self@.contains(key@),
    {
        self.inner.contains_key(key, guard)
    }

    /// Return the number of keys in the set.
    pub fn len(&self) -> (r: usize)
        requires
            self.wf(),
        ensures
            r == self@.len(),
    {
        self.inner.len()
    }

    /// Return `true` if the set contains no keys.
    pub fn is_empty(&self) -> (r: bool)
        requires
            self.wf(),
        ensures
            r == (self@ == Set::<K::V>::empty()),
    {
        let r: bool = self.inner.is_empty();
        proof {
            if self@ == Set::<K::V>::empty() {
                assert(self.inner@ =~= Map::<K::V, ()>::empty());
            }
        }
        r
    }

    /// Return the first (minimum) key in the set.
    pub fn first<'g>(&'g self, guard: &EpochGuard) -> (r: Option<&'g K>)
        requires
            self.wf(),
        ensures
            match r {
                Some(k) => self.entries().len() > 0 && *k == self.entries()[0].0,
                None => self@ == Set::<K::V>::empty(),
            },
    {
        match self.inner.first_key_value(guard) {
            Some((key, _)) => Some(key),
            None => None,
        }
    }

    /// Return the last (maximum) key in the set.
    pub fn last<'g>(&'g self, guard: &EpochGuard) -> (r: Option<&'g K>)
        requires
            self.wf(),
        ensures
            match r {
                Some(k) => self.entries().len() > 0 && *k == self.entries().last().0,
                None => self@ == Set::<K::V>::empty(),
            },
    {
        match self.inner.last_key_value(guard) {
            Some((key, _)) => Some(key),
            None => None,
        }
    }

    /// Return an iterator over the keys within the given range.
    pub fn range<'g>(&'g self, start: Bound<K>, end: Bound<K>, guard: &EpochGuard) -> (r: Range<
        'g,
        K,
        (),
    >)
        requires
            self.wf(),
        ensures
            r.wf(),
            r.pending() == self.entries().filter(in_range(start, end)),
    {
        self.inner.range(start, end, guard)
    }

    /// Insert keys one by one.
    pub fn extend(&mut self, keys: Vec<K>)
        requires
            old(self).wf(),
            old(self)@.len() + keys@.len() <= usize::MAX,
        ensures
            final(self).wf(),
            final(self).settings() == old(self).settings(),
            final(self)@ == old(self)@.union(key_values(keys@)),
    {
        let guard: EpochGuard = self.guard();
        let ghost all = keys@;
        let mut rest: Vec<K> = keys;
        proof {
            law_iteration_is_sorted_and_complete(self.inner);
            assert(self@ =~= old(self)@.union(key_values(all.skip(all.len() as int))));
        }
        while rest.len() > 0
            invariant
                self.wf(),
                self.settings() == old(self).settings(),
                rest@.len() <= all.len(),
                rest@ == all.take(rest@.len() as int),
                self@ == old(self)@.union(key_values(all.skip(rest@.len() as int))),
                self@.finite(),
                self@.len() + rest@.len() <= usize::MAX,
            decreases rest@.len(),
        {
            let ghost n = rest@.len() as int;
            let ghost before_step = self@;
            match rest.pop() {
                Some(key) => {
                    self.insert(key, &guard);
                    proof {
                        assert(rest@ =~= all.take(n - 1));
                        assert(key == all[n - 1]);
                        let (more, less) = (all.skip(n - 1), all.skip(n));
                        assert forall|k: K::V| #[trigger] key_values(more).contains(k) <==> k
                            == key@ || key_values(less).contains(k) by {
                            if key_values(more).contains(k) {
                                let j = choose|j: int|
                                    0 <= j < more.len() && #[trigger] more[j]@ == k;
                                if j > 0 {
                                    assert(less[j - 1]@ == k);
                                }
                            }
                            if k == key@ {
                                assert(more[0]@ == k);
                            }
                            if key_values(less).contains(k) {
                                let j = choose|j: int|
                                    0 <= j < less.len() && #[trigger] less[j]@ == k;
                                assert(more[j + 1]@ == k);
                            }
                        }
                        assert(self@ =~= old(self)@.union(key_values(more)));
                    }
                },
                None => {},
            }
        }
        assert(all.skip(0) =~= all);
    }

    /// Create a set from keys.
    pub fn from_iter(keys: Vec<K>) -> (r: Self)
        ensures
            r.wf(),
            r.settings() == Config::defaults(),
            r@ == key_values(keys@),
    {
        let mut set: LearnedSet<K> = LearnedSet::new();
        let ghost all = keys@;
        assert(keys@.len() == keys.len());
        set.extend(keys);
        assert(set@ =~= key_values(all));
        set
    }

    /// Pin the current epoch and return a [`SetRef`] convenience handle.
    pub fn pin(&mut self) -> (r: SetRef<'_, K>)
        requires
            old(self).wf(),
        ensures
            r.wf(),
            r@ == old(self)@,
            final(self)@ == final(r.inner.map)@.dom(),
            final(r.inner.map).wf() ==> final(self).wf(),
    {
        SetRef { inner: self.inner.pin() }
    }
}

/// The order of iteration over a set is the key order, and it yields exactly
/// the keys of the set, each once.
pub proof fn law_set_iteration_is_sorted_and_complete<K: Key>(s: LearnedSet<K>)
    requires
        s.wf(),
    ensures
        ascending(s.entries()),
        s@.finite(),
        s.entries().len() == s@.len(),
        forall|i: int|
            #![trigger s.entries()[i]]
            0 <= i < s.entries().len() ==> s@.contains(s.entries()[i].0@),
        forall|k: K::V| #[trigger]
            s@.contains(k) ==> exists|i: int|
                0 <= i < s.entries().len() && (#[trigger] s.entries()[i]).0@ == k,
{
    law_iteration_is_sorted_and_complete(s.inner);
    assert forall|k: K::V| #[trigger] s@.contains(k) implies exists|i: int|
        0 <= i < s.entries().len() && (#[trigger] s.entries()[i]).0@ == k by {
        assert(s.inner@.dom().contains(k));
        let j = choose|j: int|
            0 <= j < s.inner.entries().len() && (#[trigger] s.inner.entries()[j]).0@ == k;
        assert(s.entries()[j].0@ == k);
    }
}

impl<K: Key> Default for LearnedSet<K> {
    fn default() -> (r: Self)
        ensures
            r.wf(),
            r@ == Set::<K::V>::empty(),
            r.settings() == Config::defaults(),
    {
        LearnedSet::new()
    }
}

/// A convenience handle that bundles a set reference with an epoch guard.
pub struct SetRef<'a, K: Key> {
    /// The handle of the underlying map.
    pub inner: MapRef<'a, K, ()>,
}

impl<'a, K: Key> SetRef<'a, K> {
    /// The underlying map is well-formed.
    pub open spec fn wf(self) -> bool {
        self.inner.target().wf()
    }

    /// The keys in the set.
    pub open spec fn view(self) -> Set<K::V> {
        self.inner.target()@.dom()
    }

    /// Insert a key. Returns `true` if the key was newly inserted.
    pub fn insert(&mut self, key: K) -> (r: bool)
        requires
            old(self).wf(),
            old(self)@.contains(key@) || old(self)@.len() < usize::MAX,
        ensures
            final(self).wf(),
            r == !old(self)@.contains(key@),
            final(self)@ == old(self)@.insert(key@),
            *final(final(self).inner.map) == *final(old(self).inner.map),
    {
        self.inner.insert(key, ())
    }

    /// Remove a key. Returns `true` if the key was present and removed.
    pub fn remove(&mut self, key: &K) -> (r: bool)
        requires
            old(self).wf(),
        ensures
            final(self).wf(),
            r == old(self)@.contains(key@),
            final(self)@ == old(self)@.remove(key@),
            *final(final(self).inner.map) == *final(old(self).inner.map),
    {
        self.inner.remove(key)
    }

    /// Check whether the set contains a key.
    pub fn contains(&self, key: &K) -> (r: bool)
        requires
            self.wf(),
        ensures
            r == self@.contains(key@),
    {
        self.inner.contains_key(key)
    }

    /// Return the number of keys in the set.
    pub fn len(&self) -> (r: usize)
        requires
            self.wf(),
        ensures
            r == self@.len(),
    {
        self.inner.len()
    }

    /// Return `true` if the set contains no keys.
    pub fn is_empty(&self) -> (r: bool)
        requires
            self.wf(),
        ensures
            r == (self@ == Set::<K::V>::empty()),
    {
        let r: bool = self.inner.is_empty();
        proof {
            if self@ == Set::<K::V>::empty() {
                assert(self.inner.target()@ =~= Map::<K::V, ()>::empty());
            }
        }
        r
    }

    /// Return the first (minimum) key in the set.
    pub fn first(&self) -> (r: Option<&K>)
        requires
            self.wf(),
        ensures
            match r {
                Some(k) => self.inner.target().entries().len() > 0 && *k
                    == self.inner.target().entries()[0].0,
                None => self@ == Set::<K::V>::empty(),
            },
    {
        match self.inner.first_key_value() {
            Some((key, _)) => Some(key),
            None => None,
        }
    }

    /// Return the last (maximum) key in the set.
    pub fn last(&self) -> (r: Option<&K>)
        requires
            self.wf(),
        ensures
            match r {
                Some(k) => self.inner.target().entries().len() > 0 && *k
                    == self.inner.target().entries().last().0,
                None => self@ == Set::<K::V>::empty(),
            },
    {
        match self.inner.last_key_value() {
            Some((key, _)) => Some(key),
            None => None,
        }
    }

    /// Return an iterator over the keys within the given range.
    pub fn range(&self, start: Bound<K>, end: Bound<K>) -> (r: Range<'_, K, ()>)
        requires
            self.wf(),
        ensures
            r.wf(),
            r.pending() == self.inner.target().entries().filter(in_range(start, end)),
    {
        self.inner.range(start, end)
    }
}

} // verus!
