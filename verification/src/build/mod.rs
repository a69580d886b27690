//! Bulk-load construction for building a learned index from sorted data.

use vstd::prelude::*;

use crate::config::Config;
use crate::error::{Error, Result};
use crate::key::{before, Key};
use crate::model::{
    conflict_count, distance, fit_fmcd, flat_line, is_fit, lemma_adjacent, predicted,
    sorted_inputs, split_at, FmcdResult, LinearModel,
};
use crate::node::{
    ascending, lemma_blank, lemma_entries_from, lemma_replace_slot, lemma_slot_of_monotone, Node,
    Slot,
};

verus! {

/// The subtree is laid out as a fresh build lays it out: no tombstones, no
/// children that replaced a pair, no child for fewer than two pairs, and exact
/// counters.
pub open spec fn compact<K, V>(n: Node<K, V>) -> bool
    decreases n,
{
    &&& n.num_tombstones == 0
    &&& n.num_keys == inline_pairs(n.slots@)
    &&& forall|i: int|
        #![trigger n.slots@[i]]
        0 <= i < n.slots@.len() ==> match n.slots@[i] {
            Slot::Child { node, stale } => !stale && node.entries().len() >= 2 && compact(*node),
            Slot::Tombstone => false,
            _ => true,
        }
}

/// Number of slots that hold a pair.
pub open spec fn inline_pairs<K, V>(slots: Seq<Slot<K, V>>) -> nat
    decreases slots.len(),
{
    if slots.len() == 0 {
        0
    } else {
        inline_pairs(slots.drop_last()) + (if slots.last() is Data {
            1nat
        } else {
            0
        })
    }
}

/// Filling an empty slot with a pair adds one.
proof fn lemma_inline_pairs<K, V>(slots: Seq<Slot<K, V>>, i: int, s: Slot<K, V>)
    requires
        0 <= i < slots.len(),
        slots[i] is Empty,
    ensures
        inline_pairs(slots.update(i, s)) == inline_pairs(slots) + (if s is Data {
            1nat
        } else {
            0
        }),
        inline_pairs(slots.update(i, s)) <= slots.len(),
    decreases slots.len(),
{
    let after = slots.update(i, s);
    if i < slots.len() - 1 {
        assert(after.drop_last() =~= slots.drop_last().update(i, s));
        lemma_inline_pairs(slots.drop_last(), i, s);
    } else {
        assert(after.drop_last() =~= slots.drop_last());
        lemma_inline_limit(slots.drop_last());
    }
}

/// No more slots hold a pair than there are slots.
pub proof fn lemma_inline_limit<K, V>(slots: Seq<Slot<K, V>>)
    ensures
        inline_pairs(slots) <= slots.len(),
        (forall|i: int| 0 <= i < slots.len() ==> #[trigger] slots[i] is Empty) ==> inline_pairs(
            slots,
        ) == 0,
    decreases slots.len(),
{
    if slots.len() > 0 {
        lemma_inline_limit(slots.drop_last());
        assert(slots.last() == slots[slots.len() - 1]);
        if forall|i: int| 0 <= i < slots.len() ==> #[trigger] slots[i] is Empty {
            assert forall|i: int| 0 <= i < slots.drop_last().len() implies (
            #[trigger] slots.drop_last()[i]) is Empty by {
                assert(slots[i] is Empty);
            }
        }
    }
}

/// There are two keys or more, and all have the same model input.
pub open spec fn share_input<K: Key, V>(pairs: Seq<(K, V)>) -> bool {
    pairs.len() > 1 && K::model_input(pairs[0].0@) == K::model_input(pairs.last().0@)
}

/// The subtree splits its pairs in halves, down to single pairs: between the
/// ordinals of the keys where the halves meet or, if they have the same ordinal,
/// at the last key of the first half.
pub open spec fn is_balanced<K: Key, V>(n: Node<K, V>) -> bool
    decreases n,
{
    let pairs = n.entries();
    if pairs.len() <= 1 {
        &&& n.slots@.len() == 1
        &&& n.has_child_room
        &&& n.model == flat_line()
        &&& n.split_key is None
    } else {
        let mid = (pairs.len() / 2) as int;
        let (lo, hi) = (
            K::exact_ordinal(pairs[mid - 1].0@),
            K::exact_ordinal(pairs[mid].0@),
        );
        &&& if lo == hi {
            n.split_key matches Some(boundary) && boundary@ == pairs[mid - 1].0@
        } else {
            n.model == split_at(lo + (hi - lo) / 2) && n.split_key is None
        }
        &&& n.slots@.len() == 2
        &&& n.has_child_room
        &&& n.slots@[0].entries() == pairs.take(mid)
        &&& n.slots@[1].entries() == pairs.skip(mid)
        &&& forall|i: int|
            #![trigger n.slots@[i]]
            0 <= i < n.slots@.len() ==> match n.slots@[i] {
                Slot::Child { node, .. } => is_balanced(*node),
                _ => true,
            }
    }
}

/// The model inputs of pairs.
pub open spec fn inputs_of<K: Key, V>(pairs: Seq<(K, V)>) -> Seq<i128> {
    Seq::new(pairs.len(), |i: int| K::model_input(pairs[i].0@) as i128)
}

/// The models of the subtree are fitted to its pairs with the settings, and only
/// nodes with conflicts have room for children. Pairs that share their model input
/// are split in halves.
pub open spec fn is_fitted<K: Key, V>(n: Node<K, V>, config: Config) -> bool
    decreases n,
{
    let pairs = n.entries();
    if share_input(pairs) {
        is_balanced(n)
    } else {
        &&& n.split_key is None
        &&& is_fit(
            n.model,
            n.slots@.len() as int,
            inputs_of(pairs),
            config.expansion_factor,
            config.range_headroom,
        )
        &&& n.has_child_room == (conflict_count(
            n.model,
            inputs_of(pairs),
            n.slots@.len() as int,
        ) > 0)
        &&& forall|i: int|
            #![trigger n.slots@[i]]
            0 <= i < n.slots@.len() ==> match n.slots@[i] {
                Slot::Child { node, .. } => is_fitted(*node, config),
                _ => true,
            }
    }
}

/// The second pairs are copies of the first.
pub open spec fn copies<K: Key, V: Clone>(from: Seq<(K, V)>, to: Seq<(K, V)>) -> bool {
    &&& from.len() == to.len()
    &&& forall|i: int|
        0 <= i < from.len() ==> (#[trigger] to[i]).0@ == from[i].0@ && cloned(from[i].1, to[i].1)
}

/// Slots from `j` on that are the same in two nodes hold the same pairs.
proof fn lemma_same_tail<K, V>(n: Node<K, V>, m: Node<K, V>, j: nat)
    requires
        m.slots@.len() == n.slots@.len(),
        forall|i: int| j <= i < n.slots@.len() ==> m.slots@[i] == n.slots@[i],
    ensures
        m.entries_from(j) == n.entries_from(j),
    decreases n.slots@.len() - j,
{
    if j < n.slots@.len() {
        lemma_same_tail(n, m, (j + 1) as nat);
        assert(m.slots@[j as int] == n.slots@[j as int]);
    }
}

/// Slots without pairs can be skipped.
proof fn lemma_skip_empty<K, V>(n: Node<K, V>, j: nat, s: nat)
    requires
        j <= s <= n.slots@.len(),
        forall|i: int| j <= i < s ==> #[trigger] n.slots@[i] is Empty,
    ensures
        n.entries_from(j) == n.entries_from(s),
    decreases s - j,
{
    if j < s {
        lemma_skip_empty(n, (j + 1) as nat, s);
        assert(n.slots@[j as int] is Empty);
        assert(n.entries_from(j) == n.slots@[j as int].entries() + n.entries_from((j + 1) as nat));
        assert(n.entries_from(j) =~= n.entries_from((j + 1) as nat));
    }
}

/// Filling slot `s` in front of all filled slots puts its pairs in front.
proof fn lemma_fill_front<K, V>(n: Node<K, V>, m: Node<K, V>, s: nat, slot: Slot<K, V>)
    requires
        s < n.slots@.len(),
        m.slots@ == n.slots@.update(s as int, slot),
        forall|i: int| 0 <= i <= s ==> #[trigger] n.slots@[i] is Empty,
    ensures
        m.entries() == slot.entries() + n.entries(),
{
    lemma_same_tail(n, m, (s + 1) as nat);
    lemma_skip_empty(n, 0, (s + 1) as nat);
    lemma_skip_empty(m, 0, s);
    assert(m.entries_from(s) == m.slots@[s as int].entries() + m.entries_from((s + 1) as nat));
}

/// All keys of a subtree belong to slot `i` of `n` if all of its pairs do.
proof fn lemma_child_keys<K: Key, V>(n: Node<K, V>, child: Node<K, V>, i: int)
    requires
        child.wf(),
        forall|j: int|
            0 <= j < child.entries().len() ==> n.slot_of((#[trigger] child.entries()[j]).0@) == i,
    ensures
        forall|k: K::V| #[trigger] child.lookup(k) is Some ==> n.slot_of(k) == i,
{
    lemma_entries_from(child, 0);
    assert forall|k: K::V| #[trigger] child.lookup(k) is Some implies n.slot_of(k) == i by {
        crate::node::lemma_slot_of_in_range(child, k);
        let j = choose|j: int| 0 <= j < child.entries_from(0).len() && child.entries_from(0)[j].0@ == k;
        assert(child.entries()[j].0@ == k);
    }
}

/// Store a non-empty group of pairs in slot `s`, in front of all filled slots.
///
/// A single pair is stored inline. More pairs go into a child that is built
/// with `config`, or by splitting alone if there is none or if the keys share
/// their model input.
fn store_group<K: Key, V>(
    node: &mut Node<K, V>,
    s: usize,
    group: Vec<(K, V)>,
    config: Option<&Config>,
)
    requires
        old(node).wf(),
        compact(*old(node)),
        s < old(node).slots@.len(),
        forall|i: int| 0 <= i <= s ==> #[trigger] old(node).slots@[i] is Empty,
        group@.len() > 0,
        ascending(group@),
        forall|j: int|
            0 <= j < group@.len() ==> old(node).slot_of((#[trigger] group@[j]).0@) == s,
        config is Some ==> config->0.can_build(),
    ensures
        final(node).wf(),
        compact(*final(node)),
        final(node).predicts_like(*old(node)),
        final(node).has_child_room == (old(node).has_child_room || group@.len() > 1),
        final(node).entries() == group@ + old(node).entries(),
        final(node).slots@[s as int].entries() == group@,
        final(node).slots@ == old(node).slots@.update(s as int, final(node).slots@[s as int]),
        final(node).slots@[s as int] matches Slot::Child { node: child, .. } ==> match config {
            Some(config) => is_fitted(*child, *config),
            None => is_balanced(*child),
        },
    decreases
            (if group@.len() <= 1 {
                0
            } else {
                2 * group@.len() + 1
            }),
            2nat,
{
    let ghost start = *node;
    let mut group: Vec<(K, V)> = group;
    if group.len() == 1 {
        match group.pop() {
            Some((key, value)) => {
                node.store_data(s, key, value);
                node.inc_keys();
                proof {
                    let slot = Slot::Data(key, value);
                    lemma_inline_pairs(start.slots@, s as int, slot);
                    assert(start.slots@.len() == start.slots.len());
                    lemma_replace_slot(start, *node, s as int, slot);
                    lemma_fill_front(start, *node, s as nat, slot);
                    assert(slot.entries() =~= seq![(key, value)]);
                }
            },
            None => {},
        }
    } else {
        let ghost pairs = group@;
        let degenerate: bool = is_degenerate_group(&group);
        let child: Node<K, V> = match config {
            Some(config) => if degenerate {
                build_degenerate(group)
            } else {
                build_recursive(group, config)
            },
            None => build_degenerate(group),
        };
        node.store_child(s, child);
        proof {
            let slot = Slot::Child { node: Box::new(child), stale: false };
            lemma_inline_pairs(start.slots@, s as int, slot);
            lemma_child_keys(start, child, s as int);
            lemma_replace_slot(start, *node, s as int, slot);
            lemma_fill_front(start, *node, s as nat, slot);
            assert(slot.entries() == child.entries_from(0));
        }
    }
}

/// Check if all keys in a group have the same model input.
fn is_degenerate_group<K: Key, V>(pairs: &Vec<(K, V)>) -> (r: bool)
    ensures
        r == share_input(pairs@),
{
    if pairs.len() <= 1 {
        return false;
    }
    let first: i128 = pairs[0].0.to_model_input();
    let last: i128 = pairs[pairs.len() - 1].0.to_model_input();
    first == last
}

/// Build a balanced binary tree for keys that share the same model input.
pub fn build_degenerate<K: Key, V>(pairs: Vec<(K, V)>) -> (r: Node<K, V>)
    requires
        pairs@.len() > 0,
        ascending(pairs@),
    ensures
        r.wf(),
        compact(r),
        is_balanced(r),
        r.entries() == pairs@,
    decreases 2 * pairs@.len(), 0nat,
{
    let mut pairs: Vec<(K, V)> = pairs;
    let ghost all = pairs@;
    if pairs.len() == 1 {
        let mut node: Node<K, V> = Node::with_capacity(LinearModel::constant(), 1);
        proof {
            lemma_blank(node);
            lemma_inline_limit(node.slots@);
            lemma_skip_empty(node, 0, 1);
            crate::node::lemma_slot_of_in_range(node, all[0].0@);
        }
        store_group(&mut node, 0, pairs, None);
        assert(node.entries() =~= all);
        return node;
    }
    let mid_idx: usize = pairs.len() / 2;
    let hi_half: Vec<(K, V)> = pairs.split_off(mid_idx);
    let lo_half: Vec<(K, V)> = pairs;
    assert(lo_half@ + hi_half@ =~= all);
    let boundary: &K = &lo_half[lo_half.len() - 1].0;
    let lo_last_ord: i128 = boundary.to_exact_ordinal();
    let hi_first_ord: i128 = hi_half[0].0.to_exact_ordinal();
    proof {
        assert(lo_half@.last() == all[mid_idx - 1]);
        assert(hi_half@[0] == all[mid_idx as int]);
        assert(before::<K>(all[mid_idx - 1].0@, all[mid_idx as int].0@));
        K::lemma_inputs_follow_order(boundary@, hi_half@[0].0@);
    }
    let mut node: Node<K, V> = if lo_last_ord == hi_first_ord {
        Node::with_split_key(boundary.duplicate(), 2)
    } else {
        let midpoint: i128 = lo_last_ord + (distance(lo_last_ord, hi_first_ord) / 2) as i128;
        Node::with_capacity(LinearModel::binary_split(midpoint), 2)
    };
    proof {
        lemma_blank(node);
        lemma_inline_limit(node.slots@);
        lemma_skip_empty(node, 0, 2);
        assert forall|j: int| 0 <= j < lo_half@.len() implies node.slot_of(
            (#[trigger] lo_half@[j]).0@,
        ) == 0 by {
            assert(lo_half@[j] == all[j]);
            K::lemma_order(all[j].0@, all[j].0@, all[j].0@);
            assert(K::ordered(all[j].0@, all[mid_idx - 1].0@));
            K::lemma_inputs_follow_order(all[j].0@, all[mid_idx - 1].0@);
        }
        assert forall|j: int| 0 <= j < hi_half@.len() implies node.slot_of(
            (#[trigger] hi_half@[j]).0@,
        ) == 1 by {
            assert(hi_half@[j] == all[mid_idx + j]);
            K::lemma_order(all[mid_idx + j].0@, all[mid_idx - 1].0@, all[mid_idx + j].0@);
            assert(before::<K>(all[mid_idx - 1].0@, all[mid_idx + j].0@));
            K::lemma_order(all[mid_idx as int].0@, all[mid_idx + j].0@, all[mid_idx + j].0@);
            if j > 0 {
                assert(before::<K>(all[mid_idx as int].0@, all[mid_idx + j].0@));
            }
            K::lemma_inputs_follow_order(all[mid_idx as int].0@, all[mid_idx + j].0@);
        }
        assert forall|a: int, b: int| 0 <= a < b < hi_half@.len() implies before::<K>(
            #[trigger] hi_half@[a].0@,
            #[trigger] hi_half@[b].0@,
        ) by {
            assert(hi_half@[a] == all[mid_idx + a] && hi_half@[b] == all[mid_idx + b]);
        }
        assert forall|a: int, b: int| 0 <= a < b < lo_half@.len() implies before::<K>(
            #[trigger] lo_half@[a].0@,
            #[trigger] lo_half@[b].0@,
        ) by {
            assert(lo_half@[a] == all[a] && lo_half@[b] == all[b]);
        }
    }
    let ghost (lo, hi) = (lo_half@, hi_half@);
    store_group(&mut node, 1, hi_half, None);
    assert(node.entries() =~= hi);
    assert(node.slots@[0] is Empty);
    let ghost with_hi = node;
    store_group(&mut node, 0, lo_half, None);
    proof {
        assert(node.entries() =~= all);
        assert(node.slots@[1] == with_hi.slots@[1]);
        assert(lo =~= all.take(mid_idx as int));
        assert(hi =~= all.skip(mid_idx as int));
    }
    node
}

/// Recursively build a subtree from sorted key-value pairs.
pub(crate) fn build_recursive<K: Key, V>(pairs: Vec<(K, V)>, config: &Config) -> (r: Node<K, V>)
    requires
        pairs@.len() > 0,
        ascending(pairs@),
        config.can_build(),
    ensures
        r.wf(),
        compact(r),
        is_fitted(r, *config),
        r.entries() == pairs@,
    decreases 2 * pairs@.len(), 1nat,
{
    let n: usize = pairs.len();
    if is_degenerate_group(&pairs) {
        return build_degenerate(pairs);
    }
    let ghost all = pairs@;
    let mut inputs: Vec<i128> = Vec::new();
    let mut i: usize = 0;
    while i < n
        invariant
            n == pairs@.len(),
            i <= n,
            inputs@.len() == i,
            forall|j: int|
                0 <= j < i ==> #[trigger] inputs@[j] == K::model_input(pairs@[j].0@),
        decreases n - i,
    {
        inputs.push(pairs[i].0.to_model_input());
        i += 1;
    }
    proof {
        assert forall|a: int, b: int| 0 <= a <= b < n implies inputs@[a] <= inputs@[b] by {
            if a < b {
                assert(before::<K>(all[a].0@, all[b].0@));
                K::lemma_inputs_follow_order(all[a].0@, all[b].0@);
            }
        }
        assert(sorted_inputs(inputs@));
    }
    let fitted: FmcdResult = fit_fmcd(
        inputs.as_slice(),
        config.expansion_factor,
        config.range_headroom,
    );
    // Without conflicts no slot needs a child.
    let mut node: Node<K, V> = if fitted.conflicts == 0 {
        Node::with_capacity_leaf(fitted.model, fitted.array_size)
    } else {
        Node::with_capacity(fitted.model, fitted.array_size)
    };
    let mut rest: Vec<(K, V)> = pairs;
    let ghost blank = node;
    proof {
        lemma_blank(node);
        lemma_inline_limit(node.slots@);
        lemma_skip_empty(node, 0, node.slots@.len());
        assert(node.entries() =~= all.skip(n as int));
        assert(all.take(n as int) =~= all);
        assert(inputs@ =~= inputs_of(all));
        if n > 1 {
            assert(inputs@[0] < inputs@.last());
            assert(blank.slot_of(all[0].0@) < blank.slot_of(all.last().0@));
        }
    }
    // Fill the slots from the last one to the first one, one run of keys with
    // the same predicted slot at a time.
    while rest.len() > 0
        invariant
            n == all.len(),
            all == pairs@,
            ascending(all),
            config.can_build(),
            rest@ == all.take(rest@.len() as int),
            rest@.len() <= n,
            blank.slots@.len() > 0,
            blank.model.wf(),
            n > 1 ==> blank.slot_of(all[0].0@) < blank.slot_of(all.last().0@),
            node.wf(),
            compact(node),
            node.predicts_like(blank),
            node.has_child_room == (fitted.conflicts > 0),
            blank.model == fitted.model,
            blank.split_key is None,
            blank.slots@.len() == fitted.array_size,
            inputs@ == inputs_of(all),
            forall|j: int| 0 <= j < n ==> #[trigger] inputs@[j] == K::model_input(all[j].0@),
            n > 1 ==> fitted.model.midpoint is None,
            fitted.conflicts == conflict_count(
                fitted.model,
                inputs@,
                fitted.array_size as int,
            ),
            node.entries() == all.skip(rest@.len() as int),
            forall|i: int|
                #![trigger node.slots@[i]]
                0 <= i < node.slots@.len() ==> match node.slots@[i] {
                    Slot::Child { node: child, .. } => is_fitted(*child, *config),
                    _ => true,
                },
            rest@.len() > 0 ==> forall|i: int|
                0 <= i <= blank.slot_of(rest@.last().0@) ==> #[trigger] node.slots@[i] is Empty,
        decreases rest@.len(),
    {
        let end: usize = rest.len();
        let slot: usize = node.predict_slot(&rest[end - 1].0);
        let mut start: usize = end - 1;
        while start > 0 && node.predict_slot(&rest[start - 1].0) == slot
            invariant
                0 <= start < end,
                end == rest@.len(),
                node.wf(),
                forall|j: int|
                    start <= j < end ==> node.slot_of((#[trigger] rest@[j]).0@) == slot,
            decreases start,
        {
            start -= 1;
        }
        let ghost before_split = rest@;
        let group: Vec<(K, V)> = rest.split_off(start);
        proof {
            assert forall|a: int, b: int| 0 <= a < b < group@.len() implies before::<K>(
                #[trigger] group@[a].0@,
                #[trigger] group@[b].0@,
            ) by {
                assert(group@[a] == all[start + a] && group@[b] == all[start + b]);
            }
            assert forall|j: int| 0 <= j < group@.len() implies node.slot_of(
                (#[trigger] group@[j]).0@,
            ) == slot by {
                assert(group@[j] == before_split[start + j]);
            }
            if n > 1 && group@.len() == n {
                assert(before_split[0] == all[0]);
                assert(before_split[end - 1] == all.last());
                assert(node.slot_of(before_split[0].0@) == slot);
                assert(false);
            }
            if group@.len() > 1 {
                let slots = predicted(fitted.model, inputs@, fitted.array_size as int);
                assert(before_split[end - 1] == all[end - 1]);
                assert(before_split[end - 2] == all[end - 2]);
                assert(node.slot_of(before_split[end - 1].0@) == slot);
                assert(node.slot_of(before_split[end - 2].0@) == slot);
                assert(inputs@[end - 1] == K::model_input(all[end - 1].0@));
                assert(inputs@[end - 2] == K::model_input(all[end - 2].0@));
                assert(slots[end - 1] == slot && slots[end - 2] == slot);
                lemma_adjacent(slots, end - 1);
            }
            assert(group@ + all.skip(end as int) =~= all.skip(start as int));
            assert(rest@ =~= all.take(start as int));
            if start > 0 {
                assert(before_split[start - 1] == rest@.last());
                assert(before::<K>(all[start - 1].0@, all[end - 1].0@));
                lemma_slot_of_monotone(blank, all[start - 1].0@, all[end - 1].0@);
            }
        }
        store_group(&mut node, slot, group, Some(config));
    }
    proof {
        assert(all.skip(0) =~= all);
    }
    node
}

/// Build a learned index tree from sorted key-value pairs.
///
/// The input must be sorted by key in ascending order with no duplicates.
///
/// # Errors
///
/// Returns [`Error::EmptyData`] if the input is empty.
/// Returns [`Error::NotSorted`] if the input is not sorted.
pub fn bulk_load<K: Key, V: Clone>(pairs: &[(K, V)], config: &Config) -> (r: Result<Node<K, V>>)
    requires
        config.can_build(),
    ensures
        match r {
            Ok(node) => {
                &&& pairs@.len() > 0
                &&& ascending(pairs@)
                &&& node.wf()
                &&& compact(node)
                &&& is_fitted(node, *config)
                &&& copies(pairs@, node.entries())
            },
            Err(e) => {
                ||| e is EmptyData && pairs@.len() == 0
                ||| e is NotSorted && pairs@.len() > 0 && !ascending(pairs@)
            },
        },
{
    let n: usize = pairs.len();
    if n == 0 {
        return Err(Error::EmptyData);
    }
    let mut owned: Vec<(K, V)> = Vec::new();
    let mut i: usize = 0;
    while i < n
        invariant
            n == pairs@.len(),
            i <= n,
            owned@.len() == i,
            copies(pairs@.take(i as int), owned@),
            ascending(pairs@.take(i as int)),
        decreases n - i,
    {
        if i > 0 {
            // Verify sorted order.
            proof {
                K::lemma_order(pairs@[i - 1].0@, pairs@[i as int].0@, pairs@[i as int].0@);
            }
            if pairs[i].0.le(&pairs[i - 1].0) {
                assert(!before::<K>(pairs@[i - 1].0@, pairs@[i as int].0@));
                return Err(Error::NotSorted);
            }
        }
        let pair: &(K, V) = &pairs[i];
        owned.push((pair.0.duplicate(), pair.1.clone()));
        proof {
            let (shorter, longer) = (pairs@.take(i as int), pairs@.take(i + 1));
            assert forall|a: int, b: int| 0 <= a < b < longer.len() implies before::<K>(
                #[trigger] longer[a].0@,
                #[trigger] longer[b].0@,
            ) by {
                if b < i {
                    assert(before::<K>(shorter[a].0@, shorter[b].0@));
                } else {
                    let (x, y, z) = (pairs@[a].0@, pairs@[i - 1].0@, pairs@[i as int].0@);
                    if a < i - 1 {
                        assert(before::<K>(shorter[a].0@, shorter[i - 1].0@));
                    }
                    K::lemma_order(x, y, z);
                    K::lemma_order(y, z, x);
                    K::lemma_order(x, z, y);
                    K::lemma_order(z, x, y);
                }
            }
            assert forall|j: int| 0 <= j < longer.len() implies (#[trigger] owned@[j]).0@
                == longer[j].0@ && cloned(longer[j].1, owned@[j].1) by {
                if j < i {
                    assert(shorter[j] == longer[j]);
                }
            }
        }
        i += 1;
    }
    assert(pairs@.take(n as int) =~= pairs@);
    Ok(build_recursive(owned, config))
}

} // verus!
