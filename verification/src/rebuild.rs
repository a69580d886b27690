//! Localized subtree rebuild.
//!
//! When an insert descends beyond the configured depth threshold, or a remove
//! leaves too many tombstones behind, the degraded subtree is rebuilt with
//! [`try_rebuild_subtree`].

use vstd::prelude::*;

use crate::build::{build_recursive, compact, is_fitted};
use crate::config::{Config, Ratio};
use crate::iter::{into_pairs, Iter};
use crate::key::Key;
use crate::node::{lemma_entries_from, lemma_replace_slot, lemma_slot_of_in_range, Node, Slot};
use crate::protocol::{can_freeze, ChildPointer};

verus! {

/// The expansion factor for a rebuild: one and a half times the configured
/// one, and at most 4.
pub open spec fn boosted(factor: Ratio) -> Ratio {
    if factor.num * 3 < 8 * factor.den {
        Ratio { num: (factor.num * 3) as u32, den: (factor.den * 2) as u32 }
    } else {
        Ratio { num: 4, den: 1 }
    }
}

/// The settings for a rebuild: those of the map with a boosted expansion
/// factor.
pub open spec fn rebuild_settings(config: Config) -> Config {
    Config { expansion_factor: boosted(config.expansion_factor), ..config }
}

/// The configuration for a rebuild.
pub fn boosted_config(config: &Config) -> (r: Config)
    requires
        config.wf(),
    ensures
        r == rebuild_settings(*config),
        r.can_build(),
{
    let factor: Ratio = config.expansion_factor;
    let expansion_factor: Ratio = if factor.num * 3 < 8 * factor.den {
        Ratio { num: factor.num * 3, den: factor.den * 2 }
    } else {
        Ratio { num: 4, den: 1 }
    };
    Config { expansion_factor, ..*config }
}

/// Trees with the same pairs find the same values.
pub proof fn lemma_same_entries<K: Key, V>(a: Node<K, V>, b: Node<K, V>)
    requires
        a.wf(),
        b.wf(),
        a.entries() == b.entries(),
    ensures
        forall|k: K::V| #[trigger] a.lookup(k) == b.lookup(k),
{
    lemma_entries_from(a, 0);
    lemma_entries_from(b, 0);
    assert forall|k: K::V| #[trigger] a.lookup(k) == b.lookup(k) by {
        lemma_slot_of_in_range(a, k);
        lemma_slot_of_in_range(b, k);
        if a.lookup(k) is Some {
            let j = choose|j: int|
                0 <= j < a.entries_from(0).len() && a.entries_from(0)[j].0@ == k;
            assert(a.entries_from(0)[j] == b.entries_from(0)[j]);
        }
        if b.lookup(k) is Some {
            let j = choose|j: int|
                0 <= j < b.entries_from(0).len() && b.entries_from(0)[j].0@ == k;
            assert(a.entries_from(0)[j] == b.entries_from(0)[j]);
        }
    }
}

/// The slot holds a subtree that is worth rebuilding.
pub open spec fn is_rebuildable<K, V>(slot: Slot<K, V>) -> bool {
    slot matches Slot::Child { node, .. } && node.entries().len() >= 2
}

/// `after` is `before` with the subtree in slot `i` laid out afresh, with the same
/// pairs, if it is worth it. Nothing else changes.
pub open spec fn is_rebuilt<K: Key, V>(
    before: Node<K, V>,
    after: Node<K, V>,
    i: int,
    config: Config,
) -> bool {
    let (slot, rebuilt) = (before.slots@[i], after.slots@[i]);
    &&& after.predicts_like(before)
    &&& after.counts_like(before)
    &&& after.has_child_room == before.has_child_room
    &&& after.slots@ == before.slots@.update(i, rebuilt)
    &&& if is_rebuildable(slot) {
        &&& rebuilt is Child
        &&& rebuilt->stale == slot->stale
        &&& compact(*rebuilt->node)
        &&& is_fitted(*rebuilt->node, rebuild_settings(config))
        &&& rebuilt->node.entries() == slot->node.entries()
    } else {
        rebuilt == slot
    }
}

/// Attempt to rebuild a degraded subtree at `parent_node`'s child in slot
/// `parent_slot_idx`.
///
/// If the slot contains a child node, collects all its key-value pairs and
/// builds a fresh subtree with a boosted expansion factor in its place.
///
/// Returns `true` if the subtree was rebuilt, `false` if the slot was not a
/// child or the subtree was too small.
pub fn try_rebuild_subtree<K: Key, V>(
    parent_node: &mut Node<K, V>,
    parent_slot_idx: usize,
    config: &Config,
) -> (r: bool)
    requires
        old(parent_node).wf(),
        parent_slot_idx < old(parent_node).slots@.len(),
        config.wf(),
    ensures
        r == is_rebuildable(old(parent_node).slots@[parent_slot_idx as int]),
        final(parent_node).wf(),
        forall|k: K::V| #[trigger] final(parent_node).lookup(k) == old(parent_node).lookup(k),
        is_rebuilt(*old(parent_node), *final(parent_node), parent_slot_idx as int, *config),
{
    assert(parent_node.slots@ =~= parent_node.slots@.update(
        parent_slot_idx as int,
        parent_node.slots@[parent_slot_idx as int],
    ));
    if !can_freeze(parent_node.slot_state(parent_slot_idx), ChildPointer::Node) {
        return false;
    }
    {
        let child: &Node<K, V> = match parent_node.load_child(parent_slot_idx) {
            Some(child) => child,
            None => {
                return false;
            },
        };
        let mut pairs: Iter<'_, K, V> = Iter::new(child);
        if pairs.next().is_none() || pairs.next().is_none() {
            // Too small to rebuild.
            return false;
        }
    }
    let ghost start = *parent_node;
    let ghost idx = parent_slot_idx as int;
    let mut slot: Slot<K, V> = Slot::Empty;
    core::mem::swap(&mut parent_node.slots[parent_slot_idx], &mut slot);
    match slot {
        Slot::Child { node, stale } => {
            let ghost old_child = *node;
            proof {
                assert(start.slots@[idx] == slot);
                assert(old_child.wf());
                lemma_entries_from(old_child, 0);
            }
            let pairs: Vec<(K, V)> = into_pairs(*node);
            let new_node: Node<K, V> = build_recursive(pairs, &boosted_config(config));
            proof {
                lemma_same_entries(old_child, new_node);
                assert forall|k: K::V| #[trigger] new_node.lookup(k) is Some implies start.slot_of(
                    k,
                ) == idx by {
                    assert(old_child.lookup(k) is Some);
                }
            }
            parent_node.slots[parent_slot_idx] = Slot::Child { node: Box::new(new_node), stale };
            proof {
                let rebuilt = Slot::Child { node: Box::new(new_node), stale };
                assert(parent_node.slots@ =~= start.slots@.update(idx, rebuilt));
                lemma_replace_slot(start, *parent_node, idx, rebuilt);
                assert forall|k: K::V| #[trigger] parent_node.lookup(k) == start.lookup(k) by {
                    assert(new_node.lookup(k) == old_child.lookup(k));
                }
            }
            true
        },
        _ => false,
    }
}

} // verus!
