//! Insert algorithm using LIPP's chain method.
//!
//! When inserting a key into a node:
//! - If the predicted slot is empty, the pair is stored inline.
//! - If the slot holds the same key, a one-entry child with the new value
//!   takes the place of the inline pair.
//! - If the slot holds a different key, a two-entry child takes the place of
//!   the inline pair.
//! - If the slot holds a child, the insert goes on in the child.
//! - If the slot is a tombstone, it is reused.

use vstd::prelude::*;

use crate::build::{compact, is_fitted};
use crate::config::Config;
use crate::key::Key;
use crate::lookup::get;
use crate::model::{distance, line_between, split_at, steep_line, LinearModel};
use crate::node::{
    keeps_shape, lemma_blank, lemma_keeps_shape, lemma_replace_slot, lemma_sets, lemma_sets_below,
    sets, slot_lookup, Node, Slot, SLOT_DATA,
};
use crate::protocol::{
    insert_step, observe, pairs_change, ChildPointer, InsertEnd, InsertRun, InsertStep,
};
use crate::rebuild::{is_rebuildable, is_rebuilt, rebuild_settings, try_rebuild_subtree};

verus! {

/// Result of an insert operation.
#[derive(Clone, Copy, Debug, PartialEq, Eq, Structural)]
pub enum InsertResult {
    /// A new key was inserted.
    Inserted,
    /// An existing key was updated with a new value.
    Updated,
}

/// The node has two slots, of which the first holds the pair and the second is
/// empty, and its model leads the key to the first.
pub open spec fn is_single_entry<K: Key, V>(n: Node<K, V>, key: K, value: V) -> bool {
    &&& n.slots@ == seq![Slot::Data(key, value), Slot::Empty]
    &&& n.num_keys == 1
    &&& n.num_tombstones == 0
    &&& n.has_child_room
    &&& n.model == steep_line(K::model_input(key@))
    &&& n.split_key is None
}

/// The node has four slots, of which the first holds the pair with the smaller
/// key and the last the pair with the larger one. The two in between are empty.
///
/// Its model leads through the two keys. If they have the same model input, it
/// splits between their ordinals, and if they have the same ordinal, the node
/// splits at the smaller key.
pub open spec fn is_conflict_pair<K: Key, V>(
    n: Node<K, V>,
    lo_key: K,
    lo_value: V,
    hi_key: K,
    hi_value: V,
) -> bool {
    let (lo, hi) = (K::model_input(lo_key@), K::model_input(hi_key@));
    let (lo_ord, hi_ord) = (K::exact_ordinal(lo_key@), K::exact_ordinal(hi_key@));
    &&& n.slots@ == seq![
        Slot::Data(lo_key, lo_value),
        Slot::Empty,
        Slot::Empty,
        Slot::Data(hi_key, hi_value),
    ]
    &&& n.num_keys == 2
    &&& n.num_tombstones == 0
    &&& n.has_child_room
    &&& if lo != hi {
        n.model == line_between(lo, hi, 3) && n.split_key is None
    } else if lo_ord != hi_ord {
        n.model == split_at(lo_ord + (hi_ord - lo_ord) / 2) && n.split_key is None
    } else {
        n.split_key matches Some(boundary) && boundary@ == lo_key@
    }
}

/// The node holds the two pairs in the order of their keys.
pub open spec fn is_conflict_node<K: Key, V>(
    n: Node<K, V>,
    k1: K,
    v1: V,
    k2: K,
    v2: V,
) -> bool {
    if K::ordered(k1@, k2@) {
        is_conflict_pair(n, k1, v1, k2, v2)
    } else {
        is_conflict_pair(n, k2, v2, k1, v1)
    }
}

/// Build a single-entry child node containing one key-value pair.
pub fn build_single_entry_child<K: Key, V>(key: K, value: V) -> (r: Node<K, V>)
    ensures
        r.wf(),
        is_single_entry(r, key, value),
        forall|x: K::V| #[trigger]
            r.lookup(x) == if x == key@ {
                Some(value)
            } else {
                None::<V>
            },
{
    let input: i128 = key.to_model_input();
    let mut node: Node<K, V> = Node::with_capacity(LinearModel::through(input, 1, 1), 2);
    proof {
        lemma_blank(node);
    }
    let ghost blank = node;
    let slot: usize = node.predict_slot(&key);
    let ghost k = key@;
    node.store_data(slot, key, value);
    node.inc_keys();
    proof {
        lemma_replace_slot(blank, node, slot as int, Slot::Data(key, value));
        assert(node.slots@ =~= seq![Slot::Data(key, value), Slot::Empty]);
        assert forall|x: K::V| #[trigger] node.lookup(x) == if x == k {
            Some(value)
        } else {
            None::<V>
        } by {
            assert(blank.lookup(x) is None);
        }
    }
    node
}

/// Build a small child node from two conflicting key-value pairs.
///
/// Uses direct placement into a 4-slot node instead of full model fitting:
/// the line through the two keys puts the smaller one at slot 0 and the larger
/// one at slot 3. Keys with the same model input are separated by their exact
/// ordinals, and keys with the same ordinal by comparison.
pub fn build_conflict_node<K: Key, V>(k1: K, v1: V, k2: K, v2: V) -> (r: Node<K, V>)
    requires
        k1@ != k2@,
    ensures
        r.wf(),
        is_conflict_node(r, k1, v1, k2, v2),
        forall|x: K::V| #[trigger]
            r.lookup(x) == if x == k1@ {
                Some(v1)
            } else if x == k2@ {
                Some(v2)
            } else {
                None::<V>
            },
{
    proof {
        K::lemma_order(k1@, k2@, k1@);
    }
    let (lo_k, lo_v, hi_k, hi_v): (K, V, K, V) = if k1.le(&k2) {
        (k1, v1, k2, v2)
    } else {
        (k2, v2, k1, v1)
    };
    proof {
        K::lemma_inputs_follow_order(lo_k@, hi_k@);
        K::lemma_order(lo_k@, hi_k@, lo_k@);
    }
    let lo_f: i128 = lo_k.to_model_input();
    let hi_f: i128 = hi_k.to_model_input();
    let array_size: usize = 4;
    let mut node: Node<K, V> = if lo_f == hi_f {
        let lo_ord: i128 = lo_k.to_exact_ordinal();
        let hi_ord: i128 = hi_k.to_exact_ordinal();
        if lo_ord == hi_ord {
            // Ordinals also collide, for example for variable-length keys that
            // share a prefix. Split by comparison.
            Node::with_split_key(lo_k.duplicate(), array_size)
        } else {
            let midpoint: i128 = lo_ord + (distance(lo_ord, hi_ord) / 2) as i128;
            Node::with_capacity(LinearModel::binary_split(midpoint), array_size)
        }
    } else {
        Node::with_capacity(LinearModel::between(lo_f, hi_f, 3), array_size)
    };
    proof {
        lemma_blank(node);
    }
    let ghost blank = node;
    let s1: usize = node.predict_slot(&lo_k);
    let s2: usize = node.predict_slot(&hi_k);
    assert(s1 == 0 && s2 == 3);
    let ghost (lk, hk) = (lo_k@, hi_k@);
    node.store_data(s1, lo_k, lo_v);
    node.inc_keys();
    let ghost half = node;
    proof {
        lemma_replace_slot(blank, half, s1 as int, Slot::Data(lo_k, lo_v));
    }
    node.store_data(s2, hi_k, hi_v);
    node.inc_keys();
    proof {
        lemma_replace_slot(half, node, s2 as int, Slot::Data(hi_k, hi_v));
        assert(node.slots@ =~= seq![
            Slot::Data(lo_k, lo_v),
            Slot::Empty,
            Slot::Empty,
            Slot::Data(hi_k, hi_v),
        ]);
        assert forall|x: K::V| #[trigger] node.lookup(x) == if x == lk {
            Some(lo_v)
        } else if x == hk {
            Some(hi_v)
        } else {
            None::<V>
        } by {
            assert(blank.lookup(x) is None);
            assert(half.lookup(x) == if blank.slot_of(x) == s1 {
                slot_lookup(Slot::Data(lo_k, lo_v), x)
            } else {
                blank.lookup(x)
            });
        }
    }
    node
}

/// `after` is `before` with the pair stored in the place of its key.
///
/// Only the slot of the key changes in each node on the way. At the end of the
/// way an empty slot or a tombstone takes the pair. A pair with the same key
/// gives way to a one-entry child if `overwrite` is set and stays otherwise, and
/// a pair with another key gives way to a child that holds both. The number of
/// pairs of that node changes accordingly; all other counters stay as they were.
pub open spec fn is_placed<K: Key, V>(
    before: Node<K, V>,
    after: Node<K, V>,
    key: K,
    value: V,
    overwrite: bool,
) -> bool
    decreases before,
{
    let i = before.slot_of(key@);
    if 0 <= i < before.slots@.len() {
        let s = after.slots@[i];
        &&& after.predicts_like(before)
        &&& after.slots@ == before.slots@.update(i, s)
        &&& after.num_tombstones == before.num_tombstones
        &&& match before.slots@[i] {
            Slot::Empty | Slot::Tombstone => {
                &&& s == Slot::Data(key, value)
                &&& after.num_keys == before.num_keys.wrapping_add(1)
                &&& after.has_child_room == before.has_child_room
            },
            Slot::Data(k, v) => if k@ != key@ {
                &&& s is Child && s->stale
                &&& is_conflict_node(*s->node, k, v, key, value)
                &&& after.num_keys == before.num_keys.wrapping_sub(1)
                &&& after.has_child_room
            } else if overwrite {
                &&& s is Child && s->stale
                &&& is_single_entry(*s->node, key, value)
                &&& after.num_keys == before.num_keys
                &&& after.has_child_room
            } else {
                &&& s == before.slots@[i]
                &&& after.num_keys == before.num_keys
                &&& after.has_child_room == before.has_child_room
            },
            Slot::Child { node, stale } => {
                &&& s is Child && s->stale == stale
                &&& is_placed(*node, *s->node, key, value, overwrite)
                &&& after.num_keys == before.num_keys
                &&& after.has_child_room == before.has_child_room
            },
        }
    } else {
        false
    }
}

/// Storing a pair in the child of its slot stores it in the node.
proof fn lemma_placed_below<K: Key, V>(
    before: Node<K, V>,
    after: Node<K, V>,
    i: int,
    key: K,
    value: V,
    overwrite: bool,
)
    requires
        after.predicts_like(before),
        after.counts_like(before),
        after.has_child_room == before.has_child_room,
        0 <= i < before.slots@.len(),
        before.slot_of(key@) == i,
        before.slots@[i] is Child,
        after.slots@ == before.slots@.update(i, after.slots@[i]),
        after.slots@[i] is Child,
        after.slots@[i]->stale == before.slots@[i]->stale,
    ensures
        is_placed(*before.slots@[i]->node, *after.slots@[i]->node, key, value, overwrite)
            ==> is_placed(before, after, key, value, overwrite),
{
}

/// Storing a pair replaces no node of the tree.
pub proof fn lemma_placed_shape<K: Key, V>(
    before: Node<K, V>,
    after: Node<K, V>,
    key: K,
    value: V,
    overwrite: bool,
)
    requires
        is_placed(before, after, key, value, overwrite),
    ensures
        keeps_shape(before, after),
    decreases before,
{
    let i = before.slot_of(key@);
    if let Slot::Child { node, .. } = before.slots@[i] {
        lemma_placed_shape(*node, *after.slots@[i]->node, key, value, overwrite);
    }
    lemma_keeps_shape(before, after, i);
}

/// A pair whose key is there is not stored unless it may overwrite.
pub proof fn lemma_placed_nothing<K: Key, V>(n: Node<K, V>, key: K, value: V)
    requires
        n.lookup(key@) is Some,
    ensures
        is_placed(n, n, key, value, false),
    decreases n,
{
    let i = n.slot_of(key@);
    assert(n.slots@ =~= n.slots@.update(i, n.slots@[i]));
    if let Slot::Child { node, .. } = n.slots@[i] {
        lemma_placed_nothing(*node, key, value);
    }
}

/// Follow the predicted slots of `key` and store the pair there.
///
/// A value that is already present is replaced if `overwrite` is set and left
/// alone otherwise. Also returns whether the subtree at the slot of the root
/// has degraded.
fn place<K: Key, V>(
    node: &mut Node<K, V>,
    key: K,
    value: V,
    overwrite: bool,
    config: &Config,
) -> (r: (InsertResult, bool))
    requires
        old(node).wf(),
    ensures
        r.0 == insert_result(old(node).lookup(key@)),
        r.1 == is_degraded(*old(node), key@, *config),
        sets(
            *old(node),
            *final(node),
            key@,
            if old(node).lookup(key@) is Some && !overwrite {
                old(node).lookup(key@)
            } else {
                Some(value)
            },
        ),
        is_placed(*old(node), *final(node), key, value, overwrite),
{
    let ghost k = key@;
    let ghost start = *node;
    let ghost mut passed: nat = 0;
    let mut run: InsertRun = InsertRun::new();
    let mut current: &mut Node<K, V> = node;
    loop
        invariant
            k == key@,
            start == *old(node),
            current.wf(),
            current.lookup(k) == start.lookup(k),
            start.descent(k) == passed + current.descent(k),
            !run.was_new,
            run.depth == if passed <= usize::MAX {
                passed as usize
            } else {
                usize::MAX
            },
            forall|o: Option<V>| #[trigger]
                sets(*current, *final(current), k, o) ==> sets(start, *after_borrow(node), k, o),
            is_placed(*current, *final(current), key, value, overwrite) ==> is_placed(
                start,
                *after_borrow(node),
                key,
                value,
                overwrite,
            ),
        decreases *current,
    {
        let idx: usize = current.predict_slot(&key);
        let ghost here = *current;
        let state: u8 = current.slot_state(idx);
        let same_key: bool = state == SLOT_DATA && current.read_key(idx).same(&key);
        let step: InsertStep = insert_step(
            observe(state, same_key, ChildPointer::Node),
            overwrite,
        );
        if step == InsertStep::Descend {
            run.descend();
            proof {
                passed = passed + 1;
            }
            let ghost done = *final(current);
            current = current.child_mut(idx);
            proof {
                lemma_sets_below(here, done, idx as int, k);
                lemma_placed_below(here, done, idx as int, key, value, overwrite);
            }
        } else {
            let ghost mut slot = here.slots@[idx as int];
            match step {
                InsertStep::ClaimEmpty => {
                    current.cas_empty_to_data(idx, key, value);
                    proof {
                        slot = Slot::Data(key, value);
                    }
                },
                InsertStep::ClaimTombstone => {
                    current.cas_tombstone_to_data(idx, key, value);
                    proof {
                        slot = Slot::Data(key, value);
                    }
                },
                InsertStep::ReplaceValue => {
                    let child: Node<K, V> = build_single_entry_child(key, value);
                    current.cas_data_to_child_stale(idx, child);
                    proof {
                        slot = Slot::Child { node: Box::new(child), stale: true };
                    }
                },
                InsertStep::SplitConflict => {
                    let (existing_key, existing_value): (K, V) = current.take_data(idx);
                    let child: Node<K, V> = build_conflict_node(
                        existing_key,
                        existing_value,
                        key,
                        value,
                    );
                    proof {
                        slot = Slot::Child { node: Box::new(child), stale: true };
                    }
                    current.has_child_room = true;
                    current.slots[idx] = Slot::Child { node: Box::new(child), stale: true };
                },
                _ => {},
            }
            let change: i8 = pairs_change(step);
            if change > 0 {
                current.inc_keys();
            } else if change < 0 {
                current.dec_keys();
            }
            proof {
                assert(current.slots@ =~= here.slots@.update(idx as int, slot));
                assert(is_placed(here, *current, key, value, overwrite));
                if step is Keep {
                    assert(sets(here, *current, k, here.lookup(k)));
                } else {
                    lemma_sets(here, *current, idx as int, slot, k, Some(value));
                }
            }
            match run.finish(step, true, true, config) {
                InsertEnd::Done { result, rebuild } => {
                    return (result, rebuild);
                },
                _ => {
                    return vstd::pervasive::unreached();
                },
            }
        }
    }
}

/// What an insert reports when `found` was the value before.
pub open spec fn insert_result<V>(found: Option<V>) -> InsertResult {
    if found is Some {
        InsertResult::Updated
    } else {
        InsertResult::Inserted
    }
}

/// The insert of `k` descends far enough to rebuild the subtree of its slot.
pub open spec fn is_degraded<K: Key, V>(n: Node<K, V>, k: K::V, config: Config) -> bool {
    &&& n.lookup(k) is None
    &&& config.auto_rebuild
    &&& config.rebuild_depth_threshold < usize::MAX
    &&& n.descent(k) > config.rebuild_depth_threshold
}

/// The subtree in the slot of `k` is laid out afresh if it is worth it.
pub open spec fn is_restored<K: Key, V>(n: Node<K, V>, k: K::V, config: Config) -> bool {
    let slot = n.slots@[n.slot_of(k)];
    is_rebuildable(slot) ==> compact(*slot->node) && is_fitted(
        *slot->node,
        rebuild_settings(config),
    )
}

/// `after` is `before` with the pair stored in the place of its key, and with
/// the subtree in the slot of the key rebuilt if it has degraded.
pub open spec fn is_inserted<K: Key, V>(
    before: Node<K, V>,
    after: Node<K, V>,
    key: K,
    value: V,
    overwrite: bool,
    config: Config,
) -> bool {
    if is_degraded(before, key@, config) {
        exists|placed: Node<K, V>| #[trigger]
            is_placed(before, placed, key, value, overwrite) && is_rebuilt(
                placed,
                after,
                before.slot_of(key@),
                config,
            )
    } else {
        is_placed(before, after, key, value, overwrite)
    }
}

/// Insert a key-value pair into the tree rooted at `node`.
///
/// Returns [`InsertResult::Inserted`] if the key was new, or
/// [`InsertResult::Updated`] if an existing key's value was replaced.
///
/// When `config.auto_rebuild` is enabled, a localized subtree rebuild is
/// triggered if the descent depth exceeds `config.rebuild_depth_threshold`.
/// The rebuild starts at the shallowest child on the descent path, so that it
/// flattens the entire degraded chain.
pub fn insert<K: Key, V>(node: &mut Node<K, V>, key: K, value: V, config: &Config) -> (r:
    InsertResult)
    requires
        old(node).wf(),
        config.wf(),
    ensures
        r == insert_result(old(node).lookup(key@)),
        sets(*old(node), *final(node), key@, Some(value)),
        is_inserted(*old(node), *final(node), key, value, true, *config),
        if is_degraded(*old(node), key@, *config) {
            is_restored(*final(node), key@, *config)
        } else {
            keeps_shape(*old(node), *final(node))
        },
{
    let idx: usize = node.predict_slot(&key);
    let (result, degraded): (InsertResult, bool) = place(node, key, value, true, config);
    let ghost middle = *node;
    proof {
        lemma_placed_shape(*old(node), middle, key, value, true);
    }
    if degraded {
        try_rebuild_subtree(node, idx, config);
    }
    proof {
        assert forall|x: K::V| #[trigger] node.lookup(x) == if x == key@ {
            Some(value)
        } else {
            old(node).lookup(x)
        } by {
            assert(node.lookup(x) == middle.lookup(x));
        }
    }
    result
}

/// Get an existing value or insert a new one.
///
/// If the key already exists, returns a reference to the existing value and
/// [`InsertResult::Updated`] (signalling that no insert was performed). If the
/// key is absent, inserts the pair and returns a reference to the new value
/// with [`InsertResult::Inserted`].
///
/// Unlike [`insert`], this function never overwrites an existing value.
pub fn get_or_insert<'a, K: Key, V>(
    node: &'a mut Node<K, V>,
    key: K,
    value: V,
    config: &Config,
) -> (r: (&'a V, InsertResult))
    requires
        old(node).wf(),
        config.wf(),
    ensures
        r.1 == insert_result(old(node).lookup(key@)),
        *r.0 == match old(node).lookup(key@) {
            Some(v) => v,
            None => value,
        },
        sets(*old(node), *final(node), key@, Some(*r.0)),
        is_inserted(*old(node), *final(node), key, value, false, *config),
        if is_degraded(*old(node), key@, *config) {
            is_restored(*final(node), key@, *config)
        } else {
            keeps_shape(*old(node), *final(node))
        },
{
    let idx: usize = node.predict_slot(&key);
    let probe: K = key.duplicate();
    let (result, degraded): (InsertResult, bool) = place(node, key, value, false, config);
    let ghost middle = *node;
    proof {
        lemma_placed_shape(*old(node), middle, key, value, false);
    }
    if degraded {
        try_rebuild_subtree(node, idx, config);
    }
    proof {
        let o = if old(node).lookup(key@) is Some {
            old(node).lookup(key@)
        } else {
            Some(value)
        };
        assert forall|x: K::V| #[trigger] node.lookup(x) == if x == key@ {
            o
        } else {
            old(node).lookup(x)
        } by {
            assert(node.lookup(x) == middle.lookup(x));
        }
    }
    match get(node, &probe) {
        Some(found) => (found, result),
        None => vstd::pervasive::unreached(),
    }
}

} // verus!
