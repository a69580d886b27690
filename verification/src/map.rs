//! The primary public types: [`LearnedMap`], [`EpochGuard`], and [`MapRef`].

use vstd::layout::size_of;
use vstd::prelude::*;

use crate::build::{self, compact, copies, is_fitted};
use crate::config::{Config, Ratio};
use crate::error::{Error, Result};
use crate::insert::{self, is_degraded, is_restored, InsertResult};
use crate::laws::builds::{has_asked_size, have_inputs_apart, lemma_fitted_node};
use crate::iter::{self, in_range, Bound, Iter, Range};
use crate::key::{before, Key};
use crate::lookup;
use crate::model::LinearModel;
use crate::node::{
    ascending, bytes_of, capped, depth_below, keeps_shape, lemma_blank, lemma_blank_size,
    lemma_entries_from, lemma_same_shape, lemma_shape_depth, lemma_slot_of_in_range,
    lemma_view_len, slot_bytes, Node, Slot,
};
use crate::rebuild::lemma_same_entries;
use crate::remove::{self, is_crowded};

verus! {

/// Number of entries at which the first automatic root rebuild triggers.
///
/// 64 entries give model fitting enough data points for a well-fitted model.
pub const INITIAL_ROOT_REBUILD_THRESHOLD: usize = 64;

/// Growth factor between successive root rebuild thresholds.
///
/// Doubling keeps the root model fresh at an amortized linear cost.
pub const ROOT_REBUILD_GROWTH_FACTOR: usize = 2;

/// Number of slots of an empty map's root.
pub const EMPTY_ROOT_CAPACITY: usize = 64;

/// Declares the guard type of the epoch-based memory reclamation crate.
#[verifier::external_type_specification]
#[verifier::external_body]
pub struct ExEpochGuard(crossbeam_epoch::Guard);

/// `crossbeam_epoch::pin` pins the current thread to the current epoch and
/// returns the guard that keeps it pinned. Nothing is claimed of the guard.
pub assume_specification[ crossbeam_epoch::pin ]() -> crossbeam_epoch::Guard
;

/// An epoch guard that keeps the current thread pinned.
///
/// While a guard exists, any memory retired during this epoch will not be
/// reclaimed. Guards should be short-lived to avoid delaying reclamation.
///
/// Obtain a guard via [`LearnedMap::guard`] or use [`LearnedMap::pin`] for
/// the convenience [`MapRef`] wrapper.
pub struct EpochGuard {
    inner: crossbeam_epoch::Guard,
}

impl EpochGuard {
    /// Wrap a guard of the reclamation crate.
    fn new(inner: crossbeam_epoch::Guard) -> (r: Self)
        ensures
            r.inner == inner,
    {
        EpochGuard { inner }
    }
}

/// Twice `n`, limited to the largest `usize`.
pub open spec fn doubled(n: int) -> int {
    if 2 * n <= usize::MAX {
        2 * n
    } else {
        usize::MAX as int
    }
}

/// The rebuild threshold that follows a tree with `n` entries.
pub fn next_threshold(n: usize) -> (r: usize)
    ensures
        r == doubled(n as int),
{
    if n <= usize::MAX / ROOT_REBUILD_GROWTH_FACTOR {
        n * ROOT_REBUILD_GROWTH_FACTOR
    } else {
        usize::MAX
    }
}

/// Check if the root is to be rebuilt at `len` entries. If so, returns the
/// threshold that takes the place of the current one.
pub fn root_rebuild_claim(config: &Config, len: usize, threshold: usize) -> (r: Option<usize>)
    ensures
        r == if config.auto_rebuild && len >= threshold {
            Some(doubled(threshold as int) as usize)
        } else {
            None
        },
{
    if config.auto_rebuild && len >= threshold {
        Some(next_threshold(threshold))
    } else {
        None
    }
}

/// The settings for building a whole tree: models cover at least twice the key
/// range.
pub open spec fn load_settings(config: Config) -> Config {
    Config {
        range_headroom: if config.range_headroom.at_least(Ratio { num: 1, den: 1 }) {
            config.range_headroom
        } else {
            Ratio { num: 1, den: 1 }
        },
        ..config
    }
}

/// The settings for rebuilding a whole tree: models cover twice the key range.
pub open spec fn root_rebuild_settings(config: Config) -> Config {
    Config { range_headroom: Ratio { num: 1, den: 1 }, ..config }
}

/// The pair at `i` is the last one with its key.
pub open spec fn is_last_of_key<K: Key, V>(pairs: Seq<(K, V)>, i: int) -> bool {
    &&& 0 <= i < pairs.len()
    &&& forall|j: int| i < j < pairs.len() ==> (#[trigger] pairs[j]).0@ != pairs[i].0@
}

/// Keys do not descend.
pub open spec fn non_descending<K: Key, V>(s: Seq<(K, V)>) -> bool {
    forall|i: int, j: int|
        0 <= i <= j < s.len() ==> K::ordered(#[trigger] s[i].0@, #[trigger] s[j].0@)
}

/// The map after inserting the pairs one by one.
pub open spec fn extended<K: Key, V>(m: Map<K::V, V>, pairs: Seq<(K, V)>) -> Map<K::V, V>
    decreases pairs.len(),
{
    if pairs.len() == 0 {
        m
    } else {
        extended(m, pairs.drop_last()).insert(pairs.last().0@, pairs.last().1)
    }
}

/// A sorted key-value map backed by a learned index.
///
/// Uses piecewise linear models to predict key positions, achieving O(1)
/// expected lookup time for keys matching the data distribution.
///
/// Writers take the map exclusively. A guard is passed to every operation as a
/// token of a pinned epoch.
pub struct LearnedMap<K: Key, V> {
    root: Node<K, V>,
    len: usize,
    config: Config,
    /// Entry count at which the next automatic root rebuild triggers.
    next_root_rebuild: usize,
}

impl<K: Key, V> LearnedMap<K, V> {
    /// The tree is well-formed, the entry count is exact and the settings are
    /// usable.
    pub closed spec fn wf(self) -> bool {
        &&& self.root.wf()
        &&& self.len == self.root.view().dom().len()
        &&& self.config.wf()
    }

    /// The contents of the map.
    pub closed spec fn view(self) -> Map<K::V, V> {
        self.root.view()
    }

    /// The pairs of the map in the order of iteration.
    pub closed spec fn entries(self) -> Seq<(K, V)> {
        self.root.entries()
    }

    /// The configuration of the map.
    pub closed spec fn settings(self) -> Config {
        self.config
    }

    /// The entry count at which the next automatic root rebuild triggers.
    pub closed spec fn rebuild_at(self) -> int {
        self.next_root_rebuild as int
    }

    /// The tree is laid out as a fresh build with the settings lays it out.
    pub closed spec fn is_laid_out(self, config: Config) -> bool {
        compact(self.root) && is_fitted(self.root, config)
    }

    /// The estimated heap memory of the tree.
    pub closed spec fn bytes(self) -> nat {
        bytes_of(self.root)
    }

    /// The number of levels of the tree.
    pub closed spec fn depth(self) -> nat {
        1 + depth_below(self.root, 0)
    }

    /// The tree is that of a new map: one node with the initial number of empty
    /// slots.
    pub open spec fn is_fresh(self) -> bool {
        &&& self.has_new_root()
        &&& self.depth() == 1
        &&& self.bytes() == fresh_bytes::<K, V>()
        &&& self.entries().len() == 0
        &&& self.rebuild_at() == INITIAL_ROOT_REBUILD_THRESHOLD
    }

    /// The root is like that of a new map.
    pub closed spec fn has_new_root(self) -> bool {
        is_new_root(self.root)
    }

    /// A new root makes the tree a fresh one.
    proof fn lemma_fresh(self)
        requires
            self.wf(),
            is_new_root(self.root),
            self.root.view().dom().len() == 0,
            self.next_root_rebuild == INITIAL_ROOT_REBUILD_THRESHOLD,
        ensures
            self.is_fresh(),
    {
        lemma_blank_size(self.root, 0);
        lemma_blank_size(self.root, self.root.slots@.len());
        lemma_view_len(self.root);
    }

    /// No node of the tree was replaced since `before`.
    pub closed spec fn keeps_shape_of(self, before: Self) -> bool {
        keeps_shape(before.root, self.root)
    }

    /// An empty root.
    fn empty_root() -> (r: Node<K, V>)
        ensures
            is_new_root(r),
            r.wf(),
            compact(r),
            forall|k: K::V| #[trigger] r.lookup(k) is None,
            r.view() == Map::<K::V, V>::empty(),
            r.view().dom().len() == 0,
    {
        let root: Node<K, V> = Node::with_capacity(
            LinearModel::new(Ratio { num: 1, den: 1 }, 0),
            EMPTY_ROOT_CAPACITY,
        );
        proof {
            lemma_blank(root);
            build::lemma_inline_limit(root.slots@);
            assert(root.view() =~= Map::<K::V, V>::empty());
        }
        root
    }

    /// Create a new empty learned map with default configuration.
    pub fn new() -> (r: Self)
        ensures
            r.wf(),
            r@ == Map::<K::V, V>::empty(),
            r.settings() == Config::defaults(),
            r.is_fresh(),
    {
        LearnedMap::with_config(Config::new())
    }

    /// Create a new empty learned map with the given configuration.
    pub fn with_config(config: Config) -> (r: Self)
        requires
            config.wf(),
        ensures
            r.wf(),
            r@ == Map::<K::V, V>::empty(),
            r.settings() == config,
            r.is_fresh(),
    {
        let map: LearnedMap<K, V> = LearnedMap {
            root: Self::empty_root(),
            len: 0,
            config,
            next_root_rebuild: INITIAL_ROOT_REBUILD_THRESHOLD,
        };
        proof {
            map.lemma_fresh();
        }
        map
    }

    /// The configuration for building a whole tree: models cover at least
    /// twice the key range, so that keys beyond the largest one do not all
    /// predict to the last slot.
    fn root_config(config: Config) -> (r: Config)
        requires
            config.wf(),
        ensures
            r.can_build(),
            r.wf(),
            r == load_settings(config),
    {
        Config { range_headroom: config.range_headroom.max(Ratio { num: 1, den: 1 }), ..config }
    }

    /// Create a learned map from sorted key-value pairs.
    ///
    /// This is significantly faster than inserting one-by-one because it
    /// builds the tree structure optimally using FMCD model fitting.
    ///
    /// # Errors
    ///
    /// Returns an error if `pairs` is empty or not sorted by key.
    pub fn bulk_load(pairs: &[(K, V)]) -> (r: Result<Self>) where V: Clone
        ensures
            match r {
                Ok(map) => {
                    &&& pairs@.len() > 0
                    &&& ascending(pairs@)
                    &&& map.wf()
                    &&& map.settings() == Config::defaults()
                    &&& copies(pairs@, map.entries())
                    &&& map.is_laid_out(load_settings(Config::defaults()))
                    &&& map.rebuild_at() == doubled(pairs@.len() as int)
                },
                Err(e) => {
                    ||| e is EmptyData && pairs@.len() == 0
                    ||| e is NotSorted && pairs@.len() > 0 && !ascending(pairs@)
                },
            },
    {
        LearnedMap::bulk_load_with_config(pairs, Config::new())
    }

    /// Create a learned map from sorted key-value pairs with configuration.
    ///
    /// # Errors
    ///
    /// Returns an error if `pairs` is empty or not sorted by key.
    pub fn bulk_load_with_config(pairs: &[(K, V)], config: Config) -> (r: Result<Self>) where
        V: Clone,

        requires
            config.wf(),
        ensures
            match r {
                Ok(map) => {
                    &&& pairs@.len() > 0
                    &&& ascending(pairs@)
                    &&& map.wf()
                    &&& map.settings() == config
                    &&& copies(pairs@, map.entries())
                    &&& map.is_laid_out(load_settings(config))
                    &&& map.rebuild_at() == doubled(pairs@.len() as int)
                },
                Err(e) => {
                    ||| e is EmptyData && pairs@.len() == 0
                    ||| e is NotSorted && pairs@.len() > 0 && !ascending(pairs@)
                },
            },
    {
        match build::bulk_load(pairs, &Self::root_config(config)) {
            Ok(root) => {
                proof {
                    lemma_view_len(root);
                }
                Ok(
                    LearnedMap {
                        root,
                        len: pairs.len(),
                        config,
                        next_root_rebuild: next_threshold(pairs.len()),
                    },
                )
            },
            Err(e) => Err(e),
        }
    }

    /// Create a learned map from sorted key-value pairs, deduplicating keys.
    ///
    /// When duplicate keys are present, the **last** value for each key is
    /// kept. The input must be sorted by key in ascending order but may contain
    /// duplicates.
    ///
    /// # Errors
    ///
    /// Returns an error if `pairs` is empty or not sorted by key.
    pub fn bulk_load_dedup(pairs: &[(K, V)]) -> (r: Result<Self>) where V: Clone
        ensures
            match r {
                Ok(map) => {
                    &&& pairs@.len() > 0
                    &&& non_descending(pairs@)
                    &&& map.wf()
                    &&& map.settings() == Config::defaults()
                    &&& map.holds_last_of(pairs@)
                    &&& map.is_laid_out(load_settings(Config::defaults()))
                    &&& map.rebuild_at() == doubled(map@.len() as int)
                },
                Err(e) => {
                    ||| e is EmptyData && pairs@.len() == 0
                    ||| e is NotSorted && pairs@.len() > 0 && !non_descending(pairs@)
                },
            },
    {
        LearnedMap::bulk_load_dedup_with_config(pairs, Config::new())
    }

    /// The map holds a copy of the last value of each key, and nothing else.
    pub open spec fn holds_last_of(self, pairs: Seq<(K, V)>) -> bool where V: Clone {
        &&& forall|i: int| #[trigger]
            is_last_of_key(pairs, i) ==> self@.dom().contains(pairs[i].0@) && cloned(
                pairs[i].1,
                self@[pairs[i].0@],
            )
        &&& forall|k: K::V| #[trigger]
            self@.dom().contains(k) ==> exists|i: int| #[trigger]
                is_last_of_key(pairs, i) && pairs[i].0@ == k
    }

    /// Create a learned map from sorted key-value pairs with dedup and config.
    ///
    /// See [`bulk_load_dedup`](Self::bulk_load_dedup) for semantics.
    ///
    /// # Errors
    ///
    /// Returns an error if `pairs` is empty or not sorted by key.
    pub fn bulk_load_dedup_with_config(pairs: &[(K, V)], config: Config) -> (r: Result<
        Self,
    >) where V: Clone
        requires
            config.wf(),
        ensures
            match r {
                Ok(map) => {
                    &&& pairs@.len() > 0
                    &&& non_descending(pairs@)
                    &&& map.wf()
                    &&& map.settings() == config
                    &&& map.holds_last_of(pairs@)
                    &&& map.is_laid_out(load_settings(config))
                    &&& map.rebuild_at() == doubled(map@.len() as int)
                },
                Err(e) => {
                    ||| e is EmptyData && pairs@.len() == 0
                    ||| e is NotSorted && pairs@.len() > 0 && !non_descending(pairs@)
                },
            },
    {
        let n: usize = pairs.len();
        if n == 0 {
            return Err(Error::EmptyData);
        }
        // Verify sorted (non-strictly: duplicates allowed).
        proof {
            K::lemma_order(pairs@[0].0@, pairs@[0].0@, pairs@[0].0@);
        }
        let mut i: usize = 1;
        while i < n
            invariant
                1 <= i <= n,
                n == pairs@.len(),
                forall|a: int, b: int|
                    0 <= a <= b < i ==> K::ordered(#[trigger] pairs@[a].0@, #[trigger] pairs@[b].0@),
            decreases n - i,
        {
            if !pairs[i - 1].0.le(&pairs[i].0) {
                assert(!K::ordered(pairs@[i - 1].0@, pairs@[i as int].0@));
                return Err(Error::NotSorted);
            }
            proof {
                assert forall|a: int, b: int| 0 <= a <= b < i + 1 implies K::ordered(
                    #[trigger] pairs@[a].0@,
                    #[trigger] pairs@[b].0@,
                ) by {
                    K::lemma_order(pairs@[a].0@, pairs@[i - 1].0@, pairs@[i as int].0@);
                    if a < i {
                        assert(K::ordered(pairs@[a].0@, pairs@[i - 1].0@));
                    }
                }
            }
            i += 1;
        }
        // Keep the last value per key.
        let mut deduped: Vec<(K, V)> = Vec::new();
        let ghost mut from: Seq<int> = Seq::empty();
        let mut i: usize = 0;
        while i < n
            invariant
                i <= n,
                n == pairs@.len(),
                non_descending(pairs@),
                deduped@.len() == from.len(),
                forall|j: int| 0 <= j < from.len() ==> #[trigger] is_last_of_key(pairs@, from[j]),
                forall|j: int| 0 <= j < from.len() ==> 0 <= #[trigger] from[j] < i,
                forall|j: int, l: int| 0 <= j < l < from.len() ==> from[j] < from[l],
                forall|j: int|
                    #![trigger deduped@[j]]
                    0 <= j < from.len() ==> deduped@[j].0@ == pairs@[from[j]].0@ && cloned(
                        pairs@[from[j]].1,
                        deduped@[j].1,
                    ),
                forall|a: int|
                    0 <= a < i && #[trigger] is_last_of_key(pairs@, a) ==> from.contains(a),
            decreases n - i,
        {
            let ghost earlier = from;
            if i + 1 == n || !pairs[i].0.same(&pairs[i + 1].0) {
                let pair: &(K, V) = &pairs[i];
                deduped.push((pair.0.duplicate(), pair.1.clone()));
                proof {
                    from = from.push(i as int);
                    assert(from.last() == i);
                    assert forall|j: int| i < j < n implies (#[trigger] pairs@[j]).0@
                        != pairs@[i as int].0@ by {
                        let (x, y, z) = (pairs@[i as int].0@, pairs@[i + 1].0@, pairs@[j].0@);
                        K::lemma_order(x, y, z);
                        K::lemma_order(y, z, x);
                    }
                    assert(is_last_of_key(pairs@, i as int));
                    assert forall|a: int|
                        0 <= a < i + 1 && #[trigger] is_last_of_key(pairs@, a) implies from.contains(
                        a,
                    ) by {
                        if a < i {
                            let j = choose|j: int| 0 <= j < earlier.len() && earlier[j] == a;
                            assert(from[j] == a);
                        }
                    }
                }
            } else {
                assert(!is_last_of_key(pairs@, i as int)) by {
                    assert(pairs@[i + 1].0@ == pairs@[i as int].0@);
                }
            }
            i += 1;
        }
        proof {
            assert(is_last_of_key(pairs@, n - 1));
            assert(from.contains(n - 1));
            assert forall|a: int, b: int| 0 <= a < b < deduped@.len() implies before::<K>(
                #[trigger] deduped@[a].0@,
                #[trigger] deduped@[b].0@,
            ) by {
                let (x, y) = (from[a], from[b]);
                assert(is_last_of_key(pairs@, from[a]));
                assert(K::ordered(pairs@[x].0@, pairs@[y].0@));
            }
        }
        let ghost chosen = deduped@;
        let count: usize = deduped.len();
        let root: Node<K, V> = build::build_recursive(deduped, &Self::root_config(config));
        proof {
            lemma_view_len(root);
            lemma_entries_from(root, 0);
            assert forall|a: int| #[trigger] is_last_of_key(pairs@, a) implies root.view().dom()
                .contains(pairs@[a].0@) && cloned(
                pairs@[a].1,
                root.view()[pairs@[a].0@],
            ) by {
                let j = choose|j: int| 0 <= j < from.len() && from[j] == a;
                assert(chosen[j].0@ == pairs@[a].0@);
                assert(root.entries_from(0)[j] == chosen[j]);
            }
            assert forall|k: K::V| #[trigger] root.view().dom().contains(k) implies exists|a: int|
                #[trigger] is_last_of_key(pairs@, a) && pairs@[a].0@ == k by {
                lemma_slot_of_in_range(root, k);
                let j = choose|j: int|
                    0 <= j < root.entries_from(0).len() && root.entries_from(0)[j].0@ == k;
                assert(root.entries_from(0)[j] == chosen[j]);
                assert(is_last_of_key(pairs@, from[j]));
            }
        }
        Ok(
            LearnedMap {
                root,
                len: count,
                config,
                next_root_rebuild: next_threshold(count),
            },
        )
    }

    /// Acquire an epoch guard for use with operations on this map.
    ///
    /// The guard pins the current thread to an epoch, preventing any
    /// concurrently retired memory from being reclaimed while the guard
    /// is held. Keep guards short-lived.
    pub fn guard(&self) -> EpochGuard {
        EpochGuard::new(crossbeam_epoch::pin())
    }

    /// Look up a key, returning a reference to the value if found.
    pub fn get<'g>(&'g self, key: &K, guard: &EpochGuard) -> (r: Option<&'g V>)
        requires
            self.wf(),
        ensures
            r == if self@.dom().contains(key@) {
                Some(&self@[key@])
            } else {
                None
            },
    {
        lookup::get(&self.root, key)
    }

    /// Storing a new key reached the threshold for a rebuild of the whole tree.
    pub open spec fn is_due(before: Self, after: Self, grew: bool) -> bool {
        grew && before.settings().auto_rebuild && after@.len() >= before.rebuild_at()
    }

    /// The changes that storing a new key makes to the rebuild schedule: with
    /// automatic rebuilds, reaching the threshold rebuilds the tree and sets
    /// the threshold to twice the number of entries.
    pub open spec fn reschedules(before: Self, after: Self, grew: bool) -> bool {
        if Self::is_due(before, after, grew) {
            &&& after.is_laid_out(root_rebuild_settings(before.settings()))
            &&& after.rebuild_at() == doubled(after@.len() as int)
        } else {
            after.rebuild_at() == before.rebuild_at()
        }
    }

    /// The tree of the map.
    pub closed spec fn tree(self) -> Node<K, V> {
        self.root
    }

    /// The place of a key is so deep in the tree that storing the key, if it is
    /// new, rebuilds a subtree.
    pub closed spec fn is_degraded_at(self, k: K::V) -> bool {
        is_degraded(self.root, k, self.config)
    }

    /// Removing the key leaves so many tombstones that a subtree is rebuilt.
    pub closed spec fn is_crowded_at(self, k: K::V) -> bool {
        is_crowded(self.root, k, self.config)
    }

    /// The subtree of the key is laid out as a rebuild lays it out.
    pub closed spec fn is_restored_at(self, k: K::V) -> bool {
        is_restored(self.root, k, self.config)
    }

    /// A degraded subtree is rebuilt, alone or with the whole tree. If the place of
    /// the key is not degraded and no rebuild of the whole tree is due, nothing is
    /// rebuilt.
    pub open spec fn restores(before: Self, after: Self, k: K::V, grew: bool) -> bool {
        if Self::is_due(before, after, grew) {
            after.is_laid_out(root_rebuild_settings(before.settings()))
        } else if before.is_degraded_at(k) {
            after.is_restored_at(k)
        } else {
            after.keeps_shape_of(before)
        }
    }

    /// The tree of `after` is that of `before` with the pair stored in the place of
    /// its key, and with the subtree of the key rebuilt if it has degraded. A value
    /// that is there is replaced only if `overwrite` is set.
    pub closed spec fn stores(
        before: Self,
        after: Self,
        key: K,
        value: V,
        overwrite: bool,
    ) -> bool {
        insert::is_inserted(before.root, after.root, key, value, overwrite, before.config)
    }

    /// The tree of `after` is that of `before` with the pair of `k` turned into a
    /// tombstone, and with the subtree of the key rebuilt if it is crowded with
    /// tombstones.
    pub closed spec fn erases(before: Self, after: Self, k: K::V) -> bool {
        remove::is_removed(before.root, after.root, k, before.config)
    }

    /// Insert a key-value pair. Returns `true` if the key was newly inserted,
    /// `false` if an existing key's value was updated.
    ///
    /// When `auto_rebuild` is enabled, the insert triggers a localized subtree
    /// rebuild if its descent depth exceeds the configured threshold, and a
    /// rebuild of the whole tree when the number of entries reaches the next
    /// rebuild threshold.
    pub fn insert(&mut self, key: K, value: V, guard: &EpochGuard) -> (r: bool)
        requires
            old(self).wf(),
            old(self)@.dom().contains(key@) || old(self)@.len() < usize::MAX,
        ensures
            final(self).wf(),
            final(self).settings() == old(self).settings(),
            r == !old(self)@.dom().contains(key@),
            final(self)@ == old(self)@.insert(key@, value),
            Self::reschedules(*old(self), *final(self), r),
            Self::restores(*old(self), *final(self), key@, r),
            Self::is_due(*old(self), *final(self), r) || Self::stores(
                *old(self),
                *final(self),
                key,
                value,
                true,
            ),
            is_op(
                *old(self),
                MapOp::Insert(key, value),
                MapReply::Changed(r),
                *final(self),
            ),
    {
        let ghost start = self.root;
        proof {
            lemma_view_len(self.root);
        }
        let result: InsertResult = insert::insert(&mut self.root, key, value, &self.config);
        proof {
            assert(self.root.view() =~= start.view().insert(key@, value));
        }
        let is_new: bool = result == InsertResult::Inserted;
        if is_new {
            self.len = self.len + 1;
            let new_len: usize = self.len;
            self.maybe_rebuild_root(new_len, guard);
        }
        is_new
    }

    /// Check if the root should be rebuilt and, if so, rebuild it.
    fn maybe_rebuild_root(&mut self, current_len: usize, guard: &EpochGuard)
        requires
            old(self).wf(),
            current_len > 0,
            current_len == old(self).len,
        ensures
            final(self).wf(),
            final(self).settings() == old(self).settings(),
            final(self)@ == old(self)@,
            Self::reschedules(*old(self), *final(self), true),
            !old(self).config.auto_rebuild || current_len < old(self).next_root_rebuild
                ==> *final(self) == *old(self),
    {
        let claim: Option<usize> = root_rebuild_claim(
            &self.config,
            current_len,
            self.next_root_rebuild,
        );
        if let Some(next) = claim {
            self.next_root_rebuild = next;
            self.rebuild(guard);
        }
    }

    /// Remove a key. Returns `true` if the key was present and removed.
    pub fn remove(&mut self, key: &K, guard: &EpochGuard) -> (r: bool)
        requires
            old(self).wf(),
        ensures
            final(self).wf(),
            final(self).settings() == old(self).settings(),
            r == old(self)@.dom().contains(key@),
            final(self)@ == old(self)@.remove(key@),
            Self::erases(*old(self), *final(self), key@),
            is_op(*old(self), MapOp::Remove(*key), MapReply::Changed(r), *final(self)),
            final(self).rebuild_at() == old(self).rebuild_at(),
            if old(self).is_crowded_at(key@) {
                final(self).is_restored_at(key@)
            } else {
                final(self).keeps_shape_of(*old(self))
            },
    {
        let ghost start = self.root;
        proof {
            lemma_view_len(self.root);
        }
        let removed: bool = remove::remove(&mut self.root, key, &self.config);
        proof {
            assert(self.root.view() =~= start.view().remove(key@));
        }
        if removed {
            self.len = self.len - 1;
        }
        removed
    }

    /// Get an existing value or insert a new one.
    ///
    /// If the key already exists, returns a reference to the existing value
    /// without modifying it. If the key is absent, inserts the key-value pair
    /// and returns a reference to the newly inserted value.
    pub fn get_or_insert<'g>(&'g mut self, key: K, value: V, guard: &EpochGuard) -> (r: &'g V)
        requires
            old(self).wf(),
            old(self)@.dom().contains(key@) || old(self)@.len() < usize::MAX,
        ensures
            final(self).wf(),
            final(self).settings() == old(self).settings(),
            *r == if old(self)@.dom().contains(key@) {
                old(self)@[key@]
            } else {
                value
            },
            final(self)@ == if old(self)@.dom().contains(key@) {
                old(self)@
            } else {
                old(self)@.insert(key@, value)
            },
            Self::reschedules(*old(self), *final(self), !old(self)@.dom().contains(key@)),
            Self::restores(
                *old(self),
                *final(self),
                key@,
                !old(self)@.dom().contains(key@),
            ),
            Self::is_due(
                *old(self),
                *final(self),
                !old(self)@.dom().contains(key@),
            ) || Self::stores(*old(self), *final(self), key, value, false),
            is_op(
                *old(self),
                MapOp::GetOrInsert(key, value),
                MapReply::Value(*r),
                *final(self),
            ),
    {
        let ghost start = self.root;
        proof {
            lemma_view_len(self.root);
        }
        let probe: K = key.duplicate();
        let (_, result): (&V, InsertResult) = insert::get_or_insert(
            &mut self.root,
            key,
            value,
            &self.config,
        );
        proof {
            assert(self.root.view() =~= if start.view().dom().contains(key@) {
                start.view()
            } else {
                start.view().insert(key@, value)
            });
        }
        if result == InsertResult::Inserted {
            self.len = self.len + 1;
            let new_len: usize = self.len;
            self.maybe_rebuild_root(new_len, guard);
        }
        proof {
            assert(self.root.view().dom().contains(key@));
            assert(self.root.view()[key@] == self.root.lookup(key@).unwrap());
        }
        match lookup::get(&self.root, &probe) {
            Some(found) => found,
            None => vstd::pervasive::unreached(),
        }
    }

    /// Get an existing value or insert a computed one.
    ///
    /// Like [`get_or_insert`](Self::get_or_insert), but the value is lazily
    /// computed by `f` only if the key is absent. If the key is present, `f`
    /// is never called.
    pub fn get_or_insert_with<'g, F: FnOnce() -> V>(
        &'g mut self,
        key: K,
        f: F,
        guard: &EpochGuard,
    ) -> (r: &'g V)
        requires
            old(self).wf(),
            old(self)@.dom().contains(key@) || old(self)@.len() < usize::MAX,
            old(self)@.dom().contains(key@) || f.requires(()),
        ensures
            final(self).wf(),
            final(self).settings() == old(self).settings(),
            if old(self)@.dom().contains(key@) {
                *r == old(self)@[key@]
            } else {
                f.ensures((), *r)
            },
            final(self)@ == if old(self)@.dom().contains(key@) {
                old(self)@
            } else {
                old(self)@.insert(key@, *r)
            },
            Self::reschedules(*old(self), *final(self), !old(self)@.dom().contains(key@)),
            Self::restores(
                *old(self),
                *final(self),
                key@,
                !old(self)@.dom().contains(key@),
            ),
            Self::is_due(
                *old(self),
                *final(self),
                !old(self)@.dom().contains(key@),
            ) || Self::stores(*old(self), *final(self), key, *r, false),
    {
        // Fast path: key already exists.
        if self.contains_key(&key, guard) {
            proof {
                lemma_same_shape(self.root);
                insert::lemma_placed_nothing(self.root, key, self@[key@]);
            }
            return match lookup::get(&self.root, &key) {
                Some(found) => found,
                None => vstd::pervasive::unreached(),
            };
        }
        // Slow path: compute the value and insert it.
        let value: V = f();
        self.get_or_insert(key, value, guard)
    }

    /// Check whether the map contains a key.
    pub fn contains_key(&self, key: &K, guard: &EpochGuard) -> (r: bool)
        requires
            self.wf(),
        ensures
            r == self@.dom().contains(key@),
    {
        self.get(key, guard).is_some()
    }

    /// Return the number of key-value pairs in the map.
    pub fn len(&self) -> (r: usize)
        requires
            self.wf(),
        ensures
            r == self@.len(),
    {
        self.len
    }

    /// Return `true` if the map contains no entries.
    pub fn is_empty(&self) -> (r: bool)
        requires
            self.wf(),
        ensures
            r == (self@ == Map::<K::V, V>::empty()),
    {
        proof {
            lemma_view_len(self.root);
            if self.len == 0 {
                assert(self.root.view().dom() =~= Set::empty());
                assert(self.root.view() =~= Map::<K::V, V>::empty());
            }
        }
        self.len() == 0
    }

    /// Iterate over all key-value pairs in sorted order.
    pub fn iter<'g>(&'g self, guard: &EpochGuard) -> (r: Iter<'g, K, V>)
        requires
            self.wf(),
        ensures
            r.pending() == self.entries(),
            r.remaining is Some,
            r.remaining->0 == self@.len(),
    {
        Iter::with_hint(&self.root, self.len())
    }

    /// Collect all key-value pairs in sorted order (cloned).
    ///
    /// Performs a full traversal and clones all entries.
    pub fn iter_sorted(&self, guard: &EpochGuard) -> (r: Vec<(K, V)>) where V: Clone
        requires
            self.wf(),
        ensures
            copies(self.entries(), r@),
    {
        iter::sorted_pairs(&self.root)
    }

    /// Return an iterator over key-value pairs within the given range.
    ///
    /// The iterator yields entries in ascending key order. Uses model-guided
    /// seek for efficient initialization when a start bound is provided.
    pub fn range<'g>(&'g self, start: Bound<K>, end: Bound<K>, guard: &EpochGuard) -> (r: Range<
        'g,
        K,
        V,
    >)
        requires
            self.wf(),
        ensures
            r.wf(),
            r.pending() == self.entries().filter(in_range(start, end)),
    {
        Range::new(&self.root, start, end)
    }

    /// Return the first (minimum) key-value pair in the map.
    pub fn first_key_value<'g>(&'g self, guard: &EpochGuard) -> (r: Option<(&'g K, &'g V)>)
        requires
            self.wf(),
        ensures
            match r {
                Some(e) => self.entries().len() > 0 && *e.0 == self.entries()[0].0 && *e.1
                    == self.entries()[0].1,
                None => self@ == Map::<K::V, V>::empty(),
            },
    {
        proof {
            lemma_empty(self.root);
        }
        iter::first_entry(&self.root)
    }

    /// Return the last (maximum) key-value pair in the map.
    pub fn last_key_value<'g>(&'g self, guard: &EpochGuard) -> (r: Option<(&'g K, &'g V)>)
        requires
            self.wf(),
        ensures
            match r {
                Some(e) => self.entries().len() > 0 && *e.0 == self.entries().last().0 && *e.1
                    == self.entries().last().1,
                None => self@ == Map::<K::V, V>::empty(),
            },
    {
        proof {
            lemma_empty(self.root);
        }
        iter::last_entry(&self.root)
    }

    /// Count the number of entries within the given range.
    pub fn range_count(&self, start: Bound<K>, end: Bound<K>, guard: &EpochGuard) -> (r: usize)
        requires
            self.wf(),
        ensures
            r == self.entries().filter(in_range(start, end)).len(),
    {
        let ghost all = self.entries().filter(in_range::<K, V>(start, end));
        proof {
            lemma_view_len(self.root);
            self.entries().lemma_filter_len(in_range::<K, V>(start, end));
        }
        let mut range: Range<'_, K, V> = self.range(start, end, guard);
        let mut count: usize = 0;
        while range.next().is_some()
            invariant
                range.wf(),
                count + range.pending().len() == all.len(),
                all.len() <= usize::MAX,
            ensures
                range.pending().len() == 0,
            decreases range.pending().len(),
        {
            count += 1;
        }
        count
    }

    /// Estimate the total heap memory allocated by this map, in bytes.
    ///
    /// Walks the entire tree and sums up node structs and slot arrays. This is
    /// an approximation: it does not account for allocator overhead or for
    /// memory that keys and values own.
    pub fn allocated_bytes(&self, guard: &EpochGuard) -> (r: usize)
        ensures
            r == capped(self.bytes()),
    {
        self.root.allocated_bytes()
    }

    /// Return the maximum depth of the tree.
    ///
    /// Useful for diagnostics: a well-fit model should keep depth low.
    pub fn max_depth(&self, guard: &EpochGuard) -> (r: usize)
        ensures
            r == capped(self.depth()),
    {
        self.root.max_depth()
    }

    /// Rebuild the tree from scratch using bulk load.
    ///
    /// Takes all key-value pairs in order and rebuilds with optimal FMCD model
    /// fitting. This compacts the tree and restores O(1) lookups after many
    /// incremental inserts. Models of the new tree cover twice the key range.
    pub fn rebuild(&mut self, guard: &EpochGuard)
        requires
            old(self).wf(),
        ensures
            final(self).wf(),
            final(self).settings() == old(self).settings(),
            final(self)@ == old(self)@,
            final(self).entries() == old(self).entries(),
            is_op(*old(self), MapOp::Rebuild, MapReply::Done, *final(self)),
            if old(self)@.len() > 0 {
                &&& final(self).is_laid_out(root_rebuild_settings(old(self).settings()))
                &&& final(self).rebuild_at() == doubled(old(self)@.len() as int)
            } else {
                *final(self) == *old(self)
            },
    {
        proof {
            lemma_view_len(self.root);
        }
        if self.len == 0 {
            return;
        }
        let ghost start = self.root;
        let mut root: Node<K, V> = Self::empty_root();
        core::mem::swap(&mut root, &mut self.root);
        let pairs: Vec<(K, V)> = iter::into_pairs(root);
        let count: usize = pairs.len();
        // Models with range headroom cover keys beyond the current key range.
        let rebuild_config: Config = Config {
            range_headroom: Ratio { num: 1, den: 1 },
            ..self.config
        };
        proof {
            lemma_entries_from(start, 0);
        }
        self.root = build::build_recursive(pairs, &rebuild_config);
        proof {
            lemma_same_entries(start, self.root);
            assert(self.root.view() =~= start.view());
        }
        self.next_root_rebuild = next_threshold(count);
    }

    /// Remove all entries from the map and return them as a sorted `Vec`.
    ///
    /// After draining, the map has a fresh root identical to one created by
    /// [`new`](Self::new).
    pub fn drain(&mut self, guard: &EpochGuard) -> (r: Vec<(K, V)>)
        requires
            old(self).wf(),
        ensures
            final(self).wf(),
            final(self).settings() == old(self).settings(),
            final(self)@ == Map::<K::V, V>::empty(),
            final(self).is_fresh(),
            r@ == old(self).entries(),
    {
        let mut root: Node<K, V> = Self::empty_root();
        core::mem::swap(&mut root, &mut self.root);
        let pairs: Vec<(K, V)> = iter::into_pairs(root);
        self.len = 0;
        self.next_root_rebuild = INITIAL_ROOT_REBUILD_THRESHOLD;
        proof {
            self.lemma_fresh();
        }
        pairs
    }

    /// Remove all entries from the map, resetting it to an empty state.
    ///
    /// After clearing, the map has a fresh root identical to one created by
    /// [`new`](Self::new).
    pub fn clear(&mut self, guard: &EpochGuard)
        requires
            old(self).wf(),
        ensures
            final(self).wf(),
            final(self).settings() == old(self).settings(),
            final(self)@ == Map::<K::V, V>::empty(),
            final(self).is_fresh(),
            is_op(*old(self), MapOp::Clear, MapReply::Done, *final(self)),
    {
        self.root = Self::empty_root();
        self.len = 0;
        self.next_root_rebuild = INITIAL_ROOT_REBUILD_THRESHOLD;
        proof {
            self.lemma_fresh();
        }
    }

    /// Insert pairs one by one, later ones replacing earlier ones.
    pub fn extend(&mut self, pairs: Vec<(K, V)>)
        requires
            old(self).wf(),
            old(self)@.len() + pairs@.len() <= usize::MAX,
        ensures
            final(self).wf(),
            final(self).settings() == old(self).settings(),
            final(self)@ == extended(old(self)@, pairs@),
            final(self).rebuild_at() == threshold_after(
                old(self)@,
                old(self).rebuild_at(),
                old(self).settings().auto_rebuild,
                pairs@,
            ),
    {
        let guard: EpochGuard = self.guard();
        let ghost all = pairs@;
        let mut rest: Vec<(K, V)> = pairs;
        let mut queue: Vec<(K, V)> = Vec::new();
        // Turn the pairs round, so that the first one is taken first.
        while rest.len() > 0
            invariant
                rest@.len() + queue@.len() == all.len(),
                rest@ == all.take(rest@.len() as int),
                queue@ == all.skip(rest@.len() as int).reverse(),
            decreases rest@.len(),
        {
            let ghost n = rest@.len() as int;
            match rest.pop() {
                Some(pair) => {
                    queue.push(pair);
                    assert(rest@ =~= all.take(n - 1));
                    assert(queue@ =~= all.skip(n - 1).reverse());
                },
                None => {},
            }
        }
        assert(all.take(0) =~= Seq::empty());
        while queue.len() > 0
            invariant
                self.wf(),
                self.settings() == old(self).settings(),
                queue@.len() <= all.len(),
                queue@ == all.skip(all.len() - queue@.len()).reverse(),
                self@ == extended(old(self)@, all.take(all.len() - queue@.len())),
                self.rebuild_at() == threshold_after(
                    old(self)@,
                    old(self).rebuild_at(),
                    old(self).settings().auto_rebuild,
                    all.take(all.len() - queue@.len()),
                ),
                self@.len() + queue@.len() <= usize::MAX,
            decreases queue@.len(),
        {
            let ghost done = all.len() - queue@.len();
            match queue.pop() {
                Some((key, value)) => {
                    proof {
                        lemma_view_len(self.root);
                        assert(all.take(done + 1).drop_last() =~= all.take(done));
                        assert(all.take(done + 1).last() == (key, value));
                        assert(queue@ =~= all.skip(done + 1).reverse());
                    }
                    self.insert(key, value, &guard);
                },
                None => {},
            }
        }
        assert(all.take(all.len() as int) =~= all);
    }

    /// Create a map from pairs, later ones replacing earlier ones.
    pub fn from_iter(pairs: Vec<(K, V)>) -> (r: Self)
        ensures
            r.wf(),
            r.settings() == Config::defaults(),
            r@ == extended(Map::<K::V, V>::empty(), pairs@),
            r.rebuild_at() == threshold_after(
                Map::<K::V, V>::empty(),
                INITIAL_ROOT_REBUILD_THRESHOLD as int,
                Config::defaults().auto_rebuild,
                pairs@,
            ),
    {
        let mut map: LearnedMap<K, V> = LearnedMap::new();
        assert(pairs.len() <= usize::MAX);
        map.extend(pairs);
        map
    }
}

/// The entry count at which the next automatic root rebuild triggers after pairs
/// are inserted one by one.
pub open spec fn threshold_after<K: Key, V>(
    m: Map<K::V, V>,
    threshold: int,
    auto_rebuild: bool,
    pairs: Seq<(K, V)>,
) -> int
    decreases pairs.len(),
{
    if pairs.len() == 0 {
        threshold
    } else {
        let fewer = pairs.drop_last();
        let before = threshold_after(m, threshold, auto_rebuild, fewer);
        let count = extended(m, pairs).len() as int;
        if auto_rebuild && !extended(m, fewer).dom().contains(pairs.last().0@) && count >= before {
            doubled(count)
        } else {
            before
        }
    }
}

/// The root of a new map.
pub open spec fn is_new_root<K: Key, V>(n: Node<K, V>) -> bool {
    &&& n.is_blank()
    &&& n.has_child_room
    &&& n.slots@.len() == EMPTY_ROOT_CAPACITY
    &&& n.split_key is None
    &&& n.model == (LinearModel {
        anchor: 0,
        unit: 1,
        num: 1,
        den: 1,
        offset: 0,
        midpoint: None,
    })
}

/// The estimated heap memory of the root of a new map.
pub open spec fn fresh_bytes<K, V>() -> nat {
    size_of::<Node<K, V>>() + EMPTY_ROOT_CAPACITY as nat * slot_bytes::<K, V>(true)
}

/// A tree without pairs maps nothing.
proof fn lemma_empty<K: Key, V>(n: Node<K, V>)
    requires
        n.wf(),
    ensures
        n.entries().len() == 0 ==> n.view() == Map::<K::V, V>::empty(),
{
    lemma_view_len(n);
    if n.entries().len() == 0 {
        assert(n.view().dom() =~= Set::empty());
        assert(n.view() =~= Map::<K::V, V>::empty());
    }
}

impl<K: Key, V> Default for LearnedMap<K, V> {
    fn default() -> (r: Self)
        ensures
            r.wf(),
            r@ == Map::<K::V, V>::empty(),
            r.settings() == Config::defaults(),
    {
        LearnedMap::new()
    }
}

/// A convenience handle that bundles a map reference with an epoch guard.
///
/// All operations on `MapRef` are forwarded to the underlying [`LearnedMap`]
/// using the guard owned by this handle. This avoids passing a guard to every
/// method call.
pub struct MapRef<'a, K: Key, V> {
    /// The map.
    pub map: &'a mut LearnedMap<K, V>,
    /// The guard that is passed to every call.
    pub guard: EpochGuard,
}

impl<K: Key, V> LearnedMap<K, V> {
    /// Pin the current epoch and return a [`MapRef`] convenience handle.
    ///
    /// This is equivalent to `guard()` and passing the guard to every method,
    /// but more ergonomic for sequences of operations.
    pub fn pin(&mut self) -> (r: MapRef<'_, K, V>)
        ensures
            r.target() == *old(self),
            *final(self) == *final(r.map),
    {
        let guard: EpochGuard = self.guard();
        MapRef { map: self, guard }
    }
}

impl<'a, K: Key, V> MapRef<'a, K, V> {
    /// The map behind the handle.
    pub open spec fn target(self) -> LearnedMap<K, V> {
        *self.map
    }

    /// Look up a key, returning a reference to the value if found.
    pub fn get(&self, key: &K) -> (r: Option<&V>)
        requires
            self.target().wf(),
        ensures
            r == if self.target()@.dom().contains(key@) {
                Some(&self.target()@[key@])
            } else {
                None
            },
    {
        self.map.get(key, &self.guard)
    }

    /// Insert a key-value pair. Returns `true` if the key was newly inserted.
    pub fn insert(&mut self, key: K, value: V) -> (r: bool)
        requires
            old(self).target().wf(),
            old(self).target()@.dom().contains(key@) || old(self).target()@.len() < usize::MAX,
        ensures
            final(self).target().wf(),
            final(self).target().settings() == old(self).target().settings(),
            r == !old(self).target()@.dom().contains(key@),
            final(self).target()@ == old(self).target()@.insert(key@, value),
            LearnedMap::reschedules(old(self).target(), final(self).target(), r),
            LearnedMap::restores(old(self).target(), final(self).target(), key@, r),
            LearnedMap::is_due(old(self).target(), final(self).target(), r) || LearnedMap::stores(
                old(self).target(),
                final(self).target(),
                key,
                value,
                true,
            ),
            *final(final(self).map) == *final(old(self).map),
    {
        self.map.insert(key, value, &self.guard)
    }

    /// Remove a key. Returns `true` if the key was present and removed.
    pub fn remove(&mut self, key: &K) -> (r: bool)
        requires
            old(self).target().wf(),
        ensures
            final(self).target().wf(),
            final(self).target().settings() == old(self).target().settings(),
            r == old(self).target()@.dom().contains(key@),
            final(self).target()@ == old(self).target()@.remove(key@),
            LearnedMap::erases(old(self).target(), final(self).target(), key@),
            final(self).target().rebuild_at() == old(self).target().rebuild_at(),
            if old(self).target().is_crowded_at(key@) {
                final(self).target().is_restored_at(key@)
            } else {
                final(self).target().keeps_shape_of(old(self).target())
            },
            *final(final(self).map) == *final(old(self).map),
    {
        self.map.remove(key, &self.guard)
    }

    /// Get an existing value or insert a new one.
    ///
    /// See [`LearnedMap::get_or_insert`] for details.
    pub fn get_or_insert(&mut self, key: K, value: V) -> (r: &V)
        requires
            old(self).target().wf(),
            old(self).target()@.dom().contains(key@) || old(self).target()@.len() < usize::MAX,
        ensures
            final(self).target().wf(),
            final(self).target().settings() == old(self).target().settings(),
            *r == if old(self).target()@.dom().contains(key@) {
                old(self).target()@[key@]
            } else {
                value
            },
            final(self).target()@ == if old(self).target()@.dom().contains(key@) {
                old(self).target()@
            } else {
                old(self).target()@.insert(key@, value)
            },
            LearnedMap::reschedules(
                old(self).target(),
                final(self).target(),
                !old(self).target()@.dom().contains(key@),
            ),
            LearnedMap::restores(
                old(self).target(),
                final(self).target(),
                key@,
                !old(self).target()@.dom().contains(key@),
            ),
            LearnedMap::is_due(
                old(self).target(),
                final(self).target(),
                !old(self).target()@.dom().contains(key@),
            ) || LearnedMap::stores(
                old(self).target(),
                final(self).target(),
                key,
                value,
                false,
            ),
            *final(final(self).map) == *final(old(self).map),
    {
        self.map.get_or_insert(key, value, &self.guard)
    }

    /// Get an existing value or insert a computed one.
    ///
    /// See [`LearnedMap::get_or_insert_with`] for details.
    pub fn get_or_insert_with<F: FnOnce() -> V>(&mut self, key: K, f: F) -> (r: &V)
        requires
            old(self).target().wf(),
            old(self).target()@.dom().contains(key@) || old(self).target()@.len() < usize::MAX,
            old(self).target()@.dom().contains(key@) || f.requires(()),
        ensures
            final(self).target().wf(),
            final(self).target().settings() == old(self).target().settings(),
            if old(self).target()@.dom().contains(key@) {
                *r == old(self).target()@[key@]
            } else {
                f.ensures((), *r)
            },
            final(self).target()@ == if old(self).target()@.dom().contains(key@) {
                old(self).target()@
            } else {
                old(self).target()@.insert(key@, *r)
            },
            LearnedMap::reschedules(
                old(self).target(),
                final(self).target(),
                !old(self).target()@.dom().contains(key@),
            ),
            LearnedMap::restores(
                old(self).target(),
                final(self).target(),
                key@,
                !old(self).target()@.dom().contains(key@),
            ),
            LearnedMap::is_due(
                old(self).target(),
                final(self).target(),
                !old(self).target()@.dom().contains(key@),
            ) || LearnedMap::stores(
                old(self).target(),
                final(self).target(),
                key,
                *r,
                false,
            ),
            *final(final(self).map) == *final(old(self).map),
    {
        self.map.get_or_insert_with(key, f, &self.guard)
    }

    /// Check whether the map contains a key.
    pub fn contains_key(&self, key: &K) -> (r: bool)
        requires
            self.target().wf(),
        ensures
            r == self.target()@.dom().contains(key@),
    {
        self.map.contains_key(key, &self.guard)
    }

    /// Return the number of key-value pairs in the map.
    pub fn len(&self) -> (r: usize)
        requires
            self.target().wf(),
        ensures
            r == self.target()@.len(),
    {
        self.map.len()
    }

    /// Return `true` if the map contains no entries.
    pub fn is_empty(&self) -> (r: bool)
        requires
            self.target().wf(),
        ensures
            r == (self.target()@ == Map::<K::V, V>::empty()),
    {
        self.map.is_empty()
    }

    /// Iterate over all key-value pairs in sorted order.
    pub fn iter(&self) -> (r: Iter<'_, K, V>)
        requires
            self.target().wf(),
        ensures
            r.pending() == self.target().entries(),
            r.remaining is Some,
            r.remaining->0 == self.target()@.len(),
    {
        self.map.iter(&self.guard)
    }

    /// Collect all key-value pairs in sorted order (cloned).
    pub fn iter_sorted(&self) -> (r: Vec<(K, V)>) where V: Clone
        requires
            self.target().wf(),
        ensures
            copies(self.target().entries(), r@),
    {
        self.map.iter_sorted(&self.guard)
    }

    /// Return an iterator over key-value pairs within the given range.
    pub fn range(&self, start: Bound<K>, end: Bound<K>) -> (r: Range<'_, K, V>)
        requires
            self.target().wf(),
        ensures
            r.wf(),
            r.pending() == self.target().entries().filter(in_range(start, end)),
    {
        self.map.range(start, end, &self.guard)
    }

    /// Return the first (minimum) key-value pair.
    pub fn first_key_value(&self) -> (r: Option<(&K, &V)>)
        requires
            self.target().wf(),
        ensures
            match r {
                Some(e) => {
                    let all = self.target().entries();
                    all.len() > 0 && *e.0 == all[0].0 && *e.1 == all[0].1
                },
                None => self.target()@ == Map::<K::V, V>::empty(),
            },
    {
        self.map.first_key_value(&self.guard)
    }

    /// Return the last (maximum) key-value pair.
    pub fn last_key_value(&self) -> (r: Option<(&K, &V)>)
        requires
            self.target().wf(),
        ensures
            match r {
                Some(e) => {
                    let all = self.target().entries();
                    all.len() > 0 && *e.0 == all.last().0 && *e.1 == all.last().1
                },
                None => self.target()@ == Map::<K::V, V>::empty(),
            },
    {
        self.map.last_key_value(&self.guard)
    }

    /// Count the number of entries within the given range.
    pub fn range_count(&self, start: Bound<K>, end: Bound<K>) -> (r: usize)
        requires
            self.target().wf(),
        ensures
            r == self.target().entries().filter(in_range(start, end)).len(),
    {
        self.map.range_count(start, end, &self.guard)
    }

    /// Estimate the total heap memory allocated by this map, in bytes.
    ///
    /// See [`LearnedMap::allocated_bytes`] for details.
    pub fn allocated_bytes(&self) -> (r: usize)
        ensures
            r == capped(self.target().bytes()),
    {
        self.map.allocated_bytes(&self.guard)
    }

    /// Return the maximum depth of the tree.
    pub fn max_depth(&self) -> (r: usize)
        ensures
            r == capped(self.target().depth()),
    {
        self.map.max_depth(&self.guard)
    }

    /// Rebuild the tree from scratch using bulk load.
    pub fn rebuild(&mut self)
        requires
            old(self).target().wf(),
        ensures
            final(self).target().wf(),
            final(self).target().settings() == old(self).target().settings(),
            final(self).target()@ == old(self).target()@,
            final(self).target().entries() == old(self).target().entries(),
            if old(self).target()@.len() > 0 {
                &&& final(self).target().is_laid_out(
                    root_rebuild_settings(old(self).target().settings()),
                )
                &&& final(self).target().rebuild_at() == doubled(
                    old(self).target()@.len() as int,
                )
            } else {
                final(self).target() == old(self).target()
            },
            *final(final(self).map) == *final(old(self).map),
    {
        self.map.rebuild(&self.guard);
    }

    /// Remove all entries from the map and return them as a sorted `Vec`.
    pub fn drain(&mut self) -> (r: Vec<(K, V)>)
        requires
            old(self).target().wf(),
        ensures
            final(self).target().wf(),
            final(self).target().settings() == old(self).target().settings(),
            final(self).target()@ == Map::<K::V, V>::empty(),
            final(self).target().is_fresh(),
            r@ == old(self).target().entries(),
            *final(final(self).map) == *final(old(self).map),
    {
        self.map.drain(&self.guard)
    }

    /// Remove all entries from the map.
    pub fn clear(&mut self)
        requires
            old(self).target().wf(),
        ensures
            final(self).target().wf(),
            final(self).target().settings() == old(self).target().settings(),
            final(self).target()@ == Map::<K::V, V>::empty(),
            final(self).target().is_fresh(),
            *final(final(self).map) == *final(old(self).map),
    {
        self.map.clear(&self.guard);
    }
}

/// The order of iteration is the key order, and iteration yields exactly the
/// contents of the map, each key once.
pub proof fn law_iteration_is_sorted_and_complete<K: Key, V>(m: LearnedMap<K, V>)
    requires
        m.wf(),
    ensures
        ascending(m.entries()),
        m@.dom().finite(),
        m.entries().len() == m@.len(),
        m@.len() <= usize::MAX,
        forall|i: int|
            #![trigger m.entries()[i]]
            0 <= i < m.entries().len() ==> m@.dom().contains(m.entries()[i].0@)
                && m@[m.entries()[i].0@] == m.entries()[i].1,
        forall|k: K::V| #[trigger]
            m@.dom().contains(k) ==> exists|i: int|
                0 <= i < m.entries().len() && (#[trigger] m.entries()[i]).0@ == k,
{
    lemma_entries_from(m.root, 0);
    lemma_view_len(m.root);
    assert forall|k: K::V| #[trigger] m@.dom().contains(k) implies exists|i: int|
        0 <= i < m.entries().len() && (#[trigger] m.entries()[i]).0@ == k by {
        lemma_slot_of_in_range(m.root, k);
        let j = choose|j: int|
            0 <= j < m.root.entries_from(0).len() && m.root.entries_from(0)[j].0@ == k;
        assert(m.entries()[j].0@ == k);
    }
}

/// A pair that is inserted is read back, replacing the value that was there;
/// other keys are not affected.
pub proof fn law_insert_is_read_back<K: Key, V>(m: LearnedMap<K, V>, k: K::V, v: V, other: K::V)
    requires
        m.wf(),
    ensures
        m@.insert(k, v).dom().contains(k),
        m@.insert(k, v)[k] == v,
        other != k ==> (m@.insert(k, v).dom().contains(other) <==> m@.dom().contains(other)),
        other != k && m@.dom().contains(other) ==> m@.insert(k, v)[other] == m@[other],
        m@.insert(k, v).len() == m@.len() + if m@.dom().contains(k) {
            0int
        } else {
            1
        },
{
    lemma_view_len(m.root);
}

/// A key that is removed is not found any more; other keys are not affected.
/// Removing a key that was just inserted as new restores the map.
pub proof fn law_removed_key_is_gone<K: Key, V>(m: LearnedMap<K, V>, k: K::V, v: V, other: K::V)
    requires
        m.wf(),
    ensures
        !m@.remove(k).dom().contains(k),
        other != k ==> (m@.remove(k).dom().contains(other) <==> m@.dom().contains(other)),
        other != k && m@.dom().contains(other) ==> m@.remove(k)[other] == m@[other],
        m@.remove(k).len() == m@.len() - if m@.dom().contains(k) {
            1int
        } else {
            0
        },
        !m@.dom().contains(k) ==> m@.insert(k, v).remove(k) == m@,
{
    lemma_view_len(m.root);
    if !m@.dom().contains(k) {
        assert(m@.remove(k) =~= m@);
        assert(m@.insert(k, v).remove(k) =~= m@);
    }
}

/// Of pairs that are inserted one by one, the last one of each key is kept;
/// keys without a pair keep what they had.
pub proof fn law_last_pair_of_a_key_is_kept<K: Key, V>(
    m: Map<K::V, V>,
    pairs: Seq<(K, V)>,
    k: K::V,
)
    ensures
        (forall|i: int| 0 <= i < pairs.len() ==> (#[trigger] pairs[i]).0@ != k) ==> {
            &&& extended(m, pairs).dom().contains(k) <==> m.dom().contains(k)
            &&& m.dom().contains(k) ==> extended(m, pairs)[k] == m[k]
        },
        forall|i: int| #[trigger]
            is_last_of_key(pairs, i) && pairs[i].0@ == k ==> extended(m, pairs).dom().contains(k)
                && extended(m, pairs)[k] == pairs[i].1,
    decreases pairs.len(),
{
    if pairs.len() > 0 {
        let rest = pairs.drop_last();
        let n = pairs.len() - 1;
        law_last_pair_of_a_key_is_kept(m, rest, k);
        assert forall|i: int| #[trigger]
            is_last_of_key(pairs, i) && pairs[i].0@ == k implies extended(m, pairs).dom().contains(
            k,
        ) && extended(m, pairs)[k] == pairs[i].1 by {
            if i < n {
                assert(pairs[n].0@ != k);
                assert forall|j: int| i < j < rest.len() implies (#[trigger] rest[j]).0@
                    != rest[i].0@ by {
                    assert(pairs[j].0@ != pairs[i].0@);
                }
                assert(is_last_of_key(rest, i));
            }
        }
        if forall|i: int| 0 <= i < pairs.len() ==> (#[trigger] pairs[i]).0@ != k {
            assert(pairs[n].0@ != k);
            assert forall|i: int| 0 <= i < rest.len() implies (#[trigger] rest[i]).0@ != k by {
                assert(pairs[i].0@ != k);
            }
        }
    }
}

/// A map that was built from pairs holds each of them, and nothing else.
pub proof fn law_loaded_pairs_are_found<K: Key, V: Clone>(
    m: LearnedMap<K, V>,
    pairs: Seq<(K, V)>,
)
    requires
        m.wf(),
        copies(pairs, m.entries()),
    ensures
        m@.len() == pairs.len(),
        forall|i: int|
            #![trigger pairs[i]]
            0 <= i < pairs.len() ==> m@.dom().contains(pairs[i].0@) && cloned(
                pairs[i].1,
                m@[pairs[i].0@],
            ),
        forall|k: K::V| #[trigger]
            m@.dom().contains(k) ==> exists|i: int|
                0 <= i < pairs.len() && (#[trigger] pairs[i]).0@ == k,
{
    law_iteration_is_sorted_and_complete(m);
    assert forall|i: int|
        #![trigger pairs[i]]
        0 <= i < pairs.len() implies m@.dom().contains(pairs[i].0@) && cloned(
        pairs[i].1,
        m@[pairs[i].0@],
    ) by {
        assert(m@.dom().contains(m.entries()[i].0@));
    }
    assert forall|k: K::V| #[trigger] m@.dom().contains(k) implies exists|i: int|
        0 <= i < pairs.len() && (#[trigger] pairs[i]).0@ == k by {
        let i = choose|i: int| 0 <= i < m.entries().len() && (#[trigger] m.entries()[i]).0@ == k;
        assert(pairs[i].0@ == k);
    }
}

/// The first pair has the smallest key and the last pair has the largest one.
pub proof fn law_first_and_last_are_extreme<K: Key, V>(m: LearnedMap<K, V>, k: K::V)
    requires
        m.wf(),
        m@.dom().contains(k),
    ensures
        m.entries().len() > 0,
        K::ordered(m.entries()[0].0@, k),
        K::ordered(k, m.entries().last().0@),
{
    law_iteration_is_sorted_and_complete(m);
    let n = m.entries().len() - 1;
    let i = choose|i: int| 0 <= i < m.entries().len() && (#[trigger] m.entries()[i]).0@ == k;
    K::lemma_order(k, k, k);
    if i > 0 {
        assert(before::<K>(m.entries()[0].0@, m.entries()[i].0@));
    }
    if i < n {
        assert(before::<K>(m.entries()[i].0@, m.entries()[n].0@));
    }
}

/// Where an operation rebuilds nothing, no part of the tree gets flatter: every
/// node stays in its place, and the depth does not fall.
pub proof fn law_trees_are_left_alone<K: Key, V>(before: LearnedMap<K, V>, after: LearnedMap<K, V>)
    requires
        after.keeps_shape_of(before),
    ensures
        before.depth() <= after.depth(),
{
    lemma_shape_depth(before.root, after.root, 0);
}

/// A map is measured and read by its tree: its memory, its depth and what is found are
/// those of the root.
pub proof fn law_maps_are_measured_by_their_trees<K: Key, V>(
    m: &LearnedMap<K, V>,
    g: &EpochGuard,
    bytes: usize,
    bytes_of_tree: usize,
    depth: usize,
    depth_of_tree: usize,
    k: &K,
    found: Option<&V>,
    found_in_tree: Option<&V>,
    len: usize,
    keys_of_tree: usize,
)
    requires
        m.wf(),
        call_ensures(LearnedMap::<K, V>::allocated_bytes, (m, g), bytes),
        call_ensures(Node::<K, V>::allocated_bytes, (&m.tree(),), bytes_of_tree),
        call_ensures(LearnedMap::<K, V>::max_depth, (m, g), depth),
        call_ensures(Node::<K, V>::max_depth, (&m.tree(),), depth_of_tree),
        call_ensures(LearnedMap::<K, V>::get, (m, k, g), found),
        call_ensures(lookup::get::<K, V>, (&m.tree(), k), found_in_tree),
        call_ensures(LearnedMap::<K, V>::len, (m,), len),
        call_ensures(Node::<K, V>::total_keys, (&m.tree(),), keys_of_tree),
    ensures
        bytes == bytes_of_tree,
        depth == depth_of_tree,
        found == found_in_tree,
        len == keys_of_tree,
{
    lemma_view_len(m.root);
    lemma_slot_of_in_range(m.root, k@);
}

/// Where the slot of the key in the root holds no child, an insert into a map changes this
/// slot alone, unless the whole tree is due to be rebuilt: a free slot takes the pair, and
/// a pair gives way to a child.
pub proof fn law_map_inserts_change_one_slot<K: Key, V>(
    m: &mut LearnedMap<K, V>,
    key: K,
    value: V,
    g: &EpochGuard,
    r: bool,
    slot: usize,
)
    requires
        old(m).wf(),
        call_ensures(LearnedMap::<K, V>::insert, (m, key, value, g), r),
        !r || !old(m).settings().auto_rebuild || final(m)@.len() < old(m).rebuild_at(),
        call_ensures(Node::<K, V>::predict_slot, (&old(m).tree(), &key), slot),
        old(m).tree().slots@[slot as int] !is Child,
    ensures
        ({
            let (a, b) = (old(m).tree(), final(m).tree());
            &&& b.slots@ == a.slots@.update(slot as int, b.slots@[slot as int])
            &&& b.model == a.model
            &&& b.num_tombstones == a.num_tombstones
            &&& a.slots@[slot as int] is Data ==> b.slots@[slot as int] is Child
            &&& a.slots@[slot as int] !is Data ==> b.slots@[slot as int] == Slot::Data(key, value)
        }),
{
    lemma_slot_of_in_range(old(m).root, key@);
    assert(old(m).root.descent(key@) == 0);
}

/// Where the slot of the key in the root holds no child, a remove from a map turns the
/// pair of the key into a tombstone and changes no other slot.
pub proof fn law_map_removes_change_one_slot<K: Key, V>(
    m: &mut LearnedMap<K, V>,
    key: &K,
    g: &EpochGuard,
    r: bool,
    slot: usize,
)
    requires
        old(m).wf(),
        call_ensures(LearnedMap::<K, V>::remove, (m, key, g), r),
        call_ensures(Node::<K, V>::predict_slot, (&old(m).tree(), key), slot),
        old(m).tree().slots@[slot as int] !is Child,
    ensures
        final(m).tree().slots@ == if r {
            old(m).tree().slots@.update(slot as int, Slot::Tombstone)
        } else {
            old(m).tree().slots@
        },
        final(m).tree().model == old(m).tree().model,
{
    lemma_slot_of_in_range(old(m).root, key@);
    assert(old(m).root.descent(key@) == 0);
    if !r {
        assert(final(m).root.slots@ =~= old(m).root.slots@);
    }
}

/// The tree of a map that is loaded leaves room for at least twice its key range: with
/// keys apart, the root has the asked size for a headroom of one, or of more if the
/// settings say so.
pub proof fn law_loaded_trees_have_headroom<K: Key, V: Clone>(
    pairs: &[(K, V)],
    config: Config,
    r: Result<LearnedMap<K, V>>,
)
    requires
        config.wf(),
        call_ensures(LearnedMap::<K, V>::bulk_load_with_config, (pairs, config), r),
        have_inputs_apart(pairs@),
    ensures
        r matches Ok(x) ==> {
            let more = config.range_headroom.num >= config.range_headroom.den;
            has_asked_size(
                x.tree().slots@.len() as int,
                pairs@.len() as int,
                config.expansion_factor,
                if more {
                    config.range_headroom
                } else {
                    Ratio { num: 1, den: 1 }
                },
            )
        },
{
    if let Ok(x) = r {
        assert(x.root.entries()[0].0@ == pairs@[0].0@);
        assert(x.root.entries()[pairs@.len() - 1].0@ == pairs@[pairs@.len() - 1].0@);
        lemma_fitted_node(x.root, load_settings(config));
    }
}

/// With the usual settings, a map that is loaded with keys apart has four slots in its
/// root for each key.
pub proof fn law_loaded_trees_have_four_slots_for_a_key<K: Key, V: Clone>(
    pairs: &[(K, V)],
    r: Result<LearnedMap<K, V>>,
)
    requires
        call_ensures(LearnedMap::<K, V>::bulk_load, (pairs,), r),
        have_inputs_apart(pairs@),
        4 * pairs@.len() < usize::MAX,
    ensures
        r matches Ok(x) ==> x.tree().slots@.len() == 4 * pairs@.len(),
{
    if let Ok(x) = r {
        assert(x.root.entries()[0].0@ == pairs@[0].0@);
        assert(x.root.entries()[pairs@.len() - 1].0@ == pairs@[pairs@.len() - 1].0@);
        lemma_fitted_node(x.root, load_settings(Config::defaults()));
    }
}

/// A rebuilt tree leaves room for twice its key range: with keys apart, the root has the
/// asked size for a headroom of one.
pub proof fn law_rebuilt_trees_have_headroom<K: Key, V>(m: &mut LearnedMap<K, V>, g: &EpochGuard)
    requires
        old(m).settings().wf(),
        call_ensures(LearnedMap::<K, V>::rebuild, (m, g), ()),
        have_inputs_apart(final(m).tree().entries()),
    ensures
        has_asked_size(
            final(m).tree().slots@.len() as int,
            final(m).tree().entries().len() as int,
            old(m).settings().expansion_factor,
            Ratio { num: 1, den: 1 },
        ),
{
    lemma_view_len(final(m).root);
    lemma_fitted_node(final(m).root, root_rebuild_settings(old(m).settings()));
}

/// A new map, and one that was cleared or drained, has a tree of one node with sixty-four
/// empty slots, whose model leads a key to the slot with the number of its input.
pub proof fn law_new_trees_have_one_empty_node<K: Key, V>(
    config: Config,
    fresh: LearnedMap<K, V>,
    made: LearnedMap<K, V>,
    cleared: &mut LearnedMap<K, V>,
    drained: &mut LearnedMap<K, V>,
    g: &EpochGuard,
    out: Vec<(K, V)>,
    line: LinearModel,
    i: int,
)
    requires
        call_ensures(LearnedMap::<K, V>::new, (), fresh),
        call_ensures(LearnedMap::<K, V>::with_config, (config,), made),
        call_ensures(LearnedMap::<K, V>::clear, (cleared, g), ()),
        call_ensures(LearnedMap::<K, V>::drain, (drained, g), out),
        call_ensures(LinearModel::new, (Ratio { num: 1, den: 1 }, 0i64), line),
        0 <= i < 64,
    ensures
        is_one_empty_node(fresh.tree(), line, i),
        is_one_empty_node(made.tree(), line, i),
        is_one_empty_node(final(cleared).tree(), line, i),
        is_one_empty_node(final(drained).tree(), line, i),
{
}

/// The node has sixty-four slots, slot `i` is empty, and the node predicts by the line.
pub open spec fn is_one_empty_node<K: Key, V>(n: Node<K, V>, line: LinearModel, i: int) -> bool {
    &&& n.slots@.len() == 64
    &&& n.slots@[i] is Empty
    &&& n.model == line
    &&& n.split_key is None
    &&& n.has_child_room
    &&& n.num_keys == 0 && n.num_tombstones == 0
}

/// Without automatic rebuilds no insert and no remove is due to rebuild anything.
pub proof fn law_rebuilds_can_be_switched_off<K: Key, V>(
    before: LearnedMap<K, V>,
    after: LearnedMap<K, V>,
    k: K::V,
    grew: bool,
)
    requires
        !before.settings().auto_rebuild,
    ensures
        !before.is_degraded_at(k),
        !before.is_crowded_at(k),
        LearnedMap::restores(before, after, k, grew) ==> after.keeps_shape_of(before),
{
}

/// An operation on a map.
pub enum MapOp<K: Key, V> {
    /// A pair is inserted.
    Insert(K, V),
    /// A key is removed.
    Remove(K),
    /// A pair is inserted if its key is absent.
    GetOrInsert(K, V),
    /// The tree is rebuilt.
    Rebuild,
    /// All entries are removed.
    Clear,
}

/// The contents after an operation, as a sorted map would have them.
pub open spec fn after_op<K: Key, V>(m: Map<K::V, V>, op: MapOp<K, V>) -> Map<K::V, V> {
    match op {
        MapOp::Insert(key, value) => m.insert(key@, value),
        MapOp::Remove(key) => m.remove(key@),
        MapOp::GetOrInsert(key, value) => if m.dom().contains(key@) {
            m
        } else {
            m.insert(key@, value)
        },
        MapOp::Rebuild => m,
        MapOp::Clear => Map::empty(),
    }
}

/// The contents after a sequence of operations on an empty map.
pub open spec fn after_ops<K: Key, V>(ops: Seq<MapOp<K, V>>) -> Map<K::V, V>
    decreases ops.len(),
{
    if ops.len() == 0 {
        Map::empty()
    } else {
        after_op(after_ops(ops.drop_last()), ops.last())
    }
}

/// What an operation reports.
pub enum MapReply<V> {
    /// Whether the key was new, or was removed.
    Changed(bool),
    /// The value of the key.
    Value(V),
    /// Nothing.
    Done,
}

/// What a sorted map with these contents reports.
pub open spec fn reply_of<K: Key, V>(m: Map<K::V, V>, op: MapOp<K, V>) -> MapReply<V> {
    match op {
        MapOp::Insert(key, _) => MapReply::Changed(!m.dom().contains(key@)),
        MapOp::Remove(key) => MapReply::Changed(m.dom().contains(key@)),
        MapOp::GetOrInsert(key, value) => MapReply::Value(
            if m.dom().contains(key@) {
                m[key@]
            } else {
                value
            },
        ),
        MapOp::Rebuild => MapReply::Done,
        MapOp::Clear => MapReply::Done,
    }
}

/// The operation takes the map from `before` to `after` and reports the reply.
pub open spec fn is_op<K: Key, V>(
    before: LearnedMap<K, V>,
    op: MapOp<K, V>,
    reply: MapReply<V>,
    after: LearnedMap<K, V>,
) -> bool {
    &&& after.wf()
    &&& after@ == after_op(before@, op)
    &&& reply == reply_of(before@, op)
}

/// After any sequence of operations a map has the contents that a sorted map has
/// after the same operations: the same entries, in key order, and as many. Each
/// operation reports what it reports on the sorted map.
pub proof fn law_map_matches_a_sorted_map<K: Key, V>(
    maps: Seq<LearnedMap<K, V>>,
    ops: Seq<MapOp<K, V>>,
    replies: Seq<MapReply<V>>,
)
    requires
        maps.len() == ops.len() + 1,
        replies.len() == ops.len(),
        maps[0].wf(),
        maps[0]@ == Map::<K::V, V>::empty(),
        forall|i: int|
            0 <= i < ops.len() ==> is_op(maps[i], #[trigger] ops[i], replies[i], maps[i + 1]),
    ensures
        ({
            let m = maps.last();
            &&& m@ == after_ops(ops)
            &&& ascending(m.entries())
            &&& m.entries().len() == after_ops(ops).len()
            &&& forall|i: int|
                #![trigger m.entries()[i]]
                0 <= i < m.entries().len() ==> after_ops(ops).dom().contains(m.entries()[i].0@)
                    && after_ops(ops)[m.entries()[i].0@] == m.entries()[i].1
        }),
        forall|i: int|
            0 <= i < ops.len() ==> #[trigger] replies[i] == reply_of(
                after_ops(ops.take(i)),
                ops[i],
            ),
    decreases ops.len(),
{
    if ops.len() > 0 {
        let (earlier, fewer) = (maps.drop_last(), ops.drop_last());
        let n = ops.len() - 1;
        assert forall|i: int| 0 <= i < fewer.len() implies is_op(
            earlier[i],
            #[trigger] fewer[i],
            replies.drop_last()[i],
            earlier[i + 1],
        ) by {
            assert(is_op(maps[i], ops[i], replies[i], maps[i + 1]));
        }
        law_map_matches_a_sorted_map(earlier, fewer, replies.drop_last());
        assert(is_op(maps[n], ops[n], replies[n], maps[n + 1]));
        assert forall|i: int| 0 <= i < ops.len() implies #[trigger] replies[i] == reply_of(
            after_ops(ops.take(i)),
            ops[i],
        ) by {
            if i < n {
                assert(replies.drop_last()[i] == replies[i]);
                assert(fewer.take(i) =~= ops.take(i));
            } else {
                assert(ops.take(i) =~= fewer);
            }
        }
    }
    law_iteration_is_sorted_and_complete(maps.last());
}

} // verus!
