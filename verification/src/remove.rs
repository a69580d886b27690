//! Remove algorithm with tombstone compaction.
//!
//! When a key is removed, its slot becomes a tombstone. If the tombstone ratio
//! in the node exceeds the configured threshold, a localized rebuild of the
//! subtree is triggered to reclaim space.

use vstd::prelude::*;

use crate::config::{Config, Ratio};
use crate::insert::is_restored;
use crate::key::Key;
use crate::node::{
    keeps_shape, lemma_keeps_shape, lemma_sets, lemma_sets_below, sets, Node, Slot, SLOT_DATA,
};
use crate::protocol::{observe, remove_step, ChildPointer, RemoveEnd, RemoveRun, RemoveStep};
use crate::rebuild::{is_rebuilt, try_rebuild_subtree};

verus! {

/// The node that has the place of a key has, with one more tombstone, a
/// tombstone ratio above `threshold`.
pub open spec fn fills_up<K: Key, V>(n: Node<K, V>, k: K::V, threshold: Ratio) -> bool
    decreases n,
{
    let i = n.slot_of(k);
    if 0 <= i < n.slots@.len() {
        match n.slots@[i] {
            Slot::Child { node, .. } => fills_up(*node, k, threshold),
            _ => n.num_tombstones.wrapping_add(1) * threshold.den > threshold.num * n.slots@.len(),
        }
    } else {
        false
    }
}

/// Removing `k` leaves enough tombstones below the root to compact.
pub open spec fn is_crowded<K: Key, V>(n: Node<K, V>, k: K::V, config: Config) -> bool {
    &&& n.lookup(k) is Some
    &&& config.auto_rebuild
    &&& n.descent(k) > 0
    &&& fills_up(n, k, config.tombstone_ratio_threshold)
}

/// `after` is `before` with the pair of `k` turned into a tombstone.
///
/// Only the slot of the key changes in each node on the way. The node that has
/// the pair counts one pair less and one tombstone more; all other counters stay
/// as they were. Without such a pair nothing changes.
pub open spec fn is_erased<K: Key, V>(before: Node<K, V>, after: Node<K, V>, k: K::V) -> bool
    decreases before,
{
    let i = before.slot_of(k);
    if 0 <= i < before.slots@.len() {
        let s = after.slots@[i];
        &&& after.predicts_like(before)
        &&& after.slots@ == before.slots@.update(i, s)
        &&& after.has_child_room == before.has_child_room
        &&& match before.slots@[i] {
            Slot::Data(key, _) if key@ == k => {
                &&& s is Tombstone
                &&& after.num_keys == before.num_keys.wrapping_sub(1)
                &&& after.num_tombstones == before.num_tombstones.wrapping_add(1)
            },
            Slot::Child { node, stale } => {
                &&& s is Child && s->stale == stale
                &&& is_erased(*node, *s->node, k)
                &&& after.counts_like(before)
            },
            _ => {
                &&& s == before.slots@[i]
                &&& after.counts_like(before)
            },
        }
    } else {
        false
    }
}

/// Removing a key from the child of its slot removes it from the node.
proof fn lemma_erased_below<K: Key, V>(before: Node<K, V>, after: Node<K, V>, i: int, k: K::V)
    requires
        after.predicts_like(before),
        after.counts_like(before),
        after.has_child_room == before.has_child_room,
        0 <= i < before.slots@.len(),
        before.slot_of(k) == i,
        before.slots@[i] is Child,
        after.slots@ == before.slots@.update(i, after.slots@[i]),
        after.slots@[i] is Child,
        after.slots@[i]->stale == before.slots@[i]->stale,
    ensures
        is_erased(*before.slots@[i]->node, *after.slots@[i]->node, k) ==> is_erased(
            before,
            after,
            k,
        ),
{
}

/// Removing a key replaces no node of the tree.
pub proof fn lemma_erased_shape<K: Key, V>(before: Node<K, V>, after: Node<K, V>, k: K::V)
    requires
        is_erased(before, after, k),
    ensures
        keeps_shape(before, after),
    decreases before,
{
    let i = before.slot_of(k);
    if let Slot::Child { node, .. } = before.slots@[i] {
        lemma_erased_shape(*node, *after.slots@[i]->node, k);
    }
    lemma_keeps_shape(before, after, i);
}

/// `after` is `before` with the pair of `k` turned into a tombstone, and with the
/// subtree in the slot of the key rebuilt if it has too many tombstones.
pub open spec fn is_removed<K: Key, V>(
    before: Node<K, V>,
    after: Node<K, V>,
    k: K::V,
    config: Config,
) -> bool {
    if is_crowded(before, k, config) {
        exists|erased: Node<K, V>| #[trigger]
            is_erased(before, erased, k) && is_rebuilt(erased, after, before.slot_of(k), config)
    } else {
        is_erased(before, after, k)
    }
}

/// Follow the predicted slots of `key` and turn its pair into a tombstone.
///
/// Returns whether the key was found, and whether the subtree at the slot of
/// the root is to be compacted.
fn erase<K: Key, V>(node: &mut Node<K, V>, key: &K, config: &Config) -> (r: (bool, bool))
    requires
        old(node).wf(),
    ensures
        r.0 == (old(node).lookup(key@) is Some),
        r.1 == is_crowded(*old(node), key@, *config),
        sets(*old(node), *final(node), key@, None),
        is_erased(*old(node), *final(node), key@),
{
    let ghost k = key@;
    let ghost start = *node;
    let ghost threshold = config.tombstone_ratio_threshold;
    let mut run: RemoveRun = RemoveRun::new();
    let mut current: &mut Node<K, V> = node;
    loop
        invariant
            k == key@,
            start == *old(node),
            current.wf(),
            current.lookup(k) == start.lookup(k),
            threshold == config.tombstone_ratio_threshold,
            fills_up(*current, k, threshold) == fills_up(start, k, threshold),
            !run.was_removed,
            run.descended ==> start.descent(k) > 0,
            !run.descended ==> *current == start,
            forall|o: Option<V>| #[trigger]
                sets(*current, *final(current), k, o) ==> sets(start, *after_borrow(node), k, o),
            is_erased(*current, *final(current), k) ==> is_erased(start, *after_borrow(node), k),
        decreases *current,
    {
        let idx: usize = current.predict_slot(key);
        let ghost here = *current;
        let state: u8 = current.slot_state(idx);
        let same_key: bool = state == SLOT_DATA && current.read_key(idx).same(key);
        let step: RemoveStep = remove_step(observe(state, same_key, ChildPointer::Node));
        if step == RemoveStep::Descend {
            run.descend();
            let ghost done = *final(current);
            current = current.child_mut(idx);
            proof {
                lemma_sets_below(here, done, idx as int, k);
                lemma_erased_below(here, done, idx as int, k);
            }
        } else {
            if step == RemoveStep::Bury {
                current.cas_data_to_tombstone(idx);
                current.dec_keys();
                current.inc_tombstones();
                proof {
                    lemma_sets(here, *current, idx as int, Slot::Tombstone, k, None);
                }
            } else {
                assert(sets(here, *current, k, None));
            }
            proof {
                assert(current.slots@ =~= here.slots@.update(
                    idx as int,
                    current.slots@[idx as int],
                ));
                assert(is_erased(here, *current, k));
            }
            let crowded: bool = current.tombstone_ratio_exceeds(config.tombstone_ratio_threshold);
            match run.finish(step, true, true, crowded, config) {
                RemoveEnd::Done { removed, rebuild } => {
                    return (removed, rebuild);
                },
                _ => {
                    return vstd::pervasive::unreached();
                },
            }
        }
    }
}

/// Remove a key from the tree, returning `true` if it was found and removed.
///
/// When `config.auto_rebuild` is enabled and the tombstone ratio in the node
/// exceeds `config.tombstone_ratio_threshold`, triggers a localized subtree
/// rebuild to compact tombstones.
pub fn remove<K: Key, V>(node: &mut Node<K, V>, key: &K, config: &Config) -> (r: bool)
    requires
        old(node).wf(),
        config.wf(),
    ensures
        r == (old(node).lookup(key@) is Some),
        sets(*old(node), *final(node), key@, None),
        is_removed(*old(node), *final(node), key@, *config),
        if is_crowded(*old(node), key@, *config) {
            is_restored(*final(node), key@, *config)
        } else {
            keeps_shape(*old(node), *final(node))
        },
{
    let idx: usize = node.predict_slot(key);
    let (removed, crowded): (bool, bool) = erase(node, key, config);
    let ghost middle = *node;
    proof {
        lemma_erased_shape(*old(node), middle, key@);
    }
    if crowded {
        try_rebuild_subtree(node, idx, config);
    }
    proof {
        assert forall|x: K::V| #[trigger] node.lookup(x) == if x == key@ {
            None
        } else {
            old(node).lookup(x)
        } by {
            assert(node.lookup(x) == middle.lookup(x));
        }
    }
    removed
}

} // verus!
