//! What trees promise: every node is counted, a key is found where its predictions
//! lead, and a change touches one slot.

use vstd::layout::size_of;
use vstd::prelude::*;

use crate::build::{bulk_load, compact, inline_pairs};
use crate::config::{Config, Ratio};
use crate::error::{Error, Result};
use crate::insert::{
    build_conflict_node, build_single_entry_child, get_or_insert, insert, InsertResult,
};
use crate::iter::{first_entry, last_entry, sorted_pairs, Iter};
use crate::key::{before, Key};
use crate::lookup::get;
use crate::model::LinearModel;
use crate::node::{
    ascending, bytes_below, bytes_of, capped, depth_below, keeps_shape, lemma_entries_from,
    lemma_slot_of_in_range, lemma_slot_of_monotone, predict_among, share_exceeds, Node, Slot,
};
use crate::rebuild::{boosted_config, try_rebuild_subtree};
use crate::remove::{fills_up, is_crowded, remove};

use super::maps::is_sorted;

verus! {

/// The two nodes are the same but for slot `i`, which holds the child in `a` and no
/// child in `b`.
pub open spec fn has_one_child_more<K, V>(
    a: Node<K, V>,
    b: Node<K, V>,
    i: int,
    child: Node<K, V>,
    stale: bool,
) -> bool {
    &&& 0 <= i < b.slots@.len()
    &&& b.slots@[i] !is Child
    &&& a.slots@ == b.slots@.update(i, Slot::Child { node: Box::new(child), stale })
    &&& a.has_child_room == b.has_child_room
}

/// The memory below the slots changes by that of the child.
proof fn lemma_child_bytes<K, V>(
    a: Node<K, V>,
    b: Node<K, V>,
    i: int,
    child: Node<K, V>,
    stale: bool,
    n: nat,
)
    requires
        has_one_child_more(a, b, i, child, stale),
        n <= a.slots@.len(),
    ensures
        bytes_below(a, n) == bytes_below(b, n) + (if i < n {
            bytes_of(child)
        } else {
            0
        }),
    decreases n,
{
    if n > 0 {
        lemma_child_bytes(a, b, i, child, stale, (n - 1) as nat);
        if n - 1 != i {
            assert(a.slots@[n - 1] == b.slots@[n - 1]);
        }
    }
}

/// The estimate of the memory covers every node: a child adds its own estimate to
/// that of its node, in whatever slot it is and whether or not it took the place of a
/// pair.
pub proof fn law_memory_counts_every_child<K: Key, V>(
    a: &Node<K, V>,
    b: &Node<K, V>,
    i: int,
    child: &Node<K, V>,
    stale: bool,
    with_child: usize,
    without_child: usize,
    of_child: usize,
)
    requires
        has_one_child_more(*a, *b, i, *child, stale),
        call_ensures(Node::<K, V>::allocated_bytes, (a,), with_child),
        call_ensures(Node::<K, V>::allocated_bytes, (b,), without_child),
        call_ensures(Node::<K, V>::allocated_bytes, (child,), of_child),
    ensures
        with_child < usize::MAX ==> with_child == without_child + of_child,
        with_child >= of_child,
{
    lemma_child_bytes(*a, *b, i, *child, stale, a.slots@.len());
}

/// Without children, the estimate of the memory is the size of the node and, for each
/// slot, a byte, a key, a value and, if there is room for children, a pointer.
pub proof fn law_memory_counts_every_slot<K: Key, V>(n: &Node<K, V>, r: usize)
    requires
        forall|i: int| 0 <= i < n.slots@.len() ==> (#[trigger] n.slots@[i]) !is Child,
        call_ensures(Node::<K, V>::allocated_bytes, (n,), r),
        r < usize::MAX,
    ensures
        r == size_of::<Node<K, V>>() + n.slots@.len() * (1 + size_of::<K>() + size_of::<V>() + (
        if n.has_child_room {
            size_of::<usize>()
        } else {
            0
        })),
{
    lemma_childless(*n, n.slots@.len());
}

/// The memory of a node: itself, its slots, and the nodes in the first `n` slots.
pub open spec fn memory_up_to<K, V>(node: Node<K, V>, n: nat) -> nat
    decreases node, n,
{
    if n == 0 || n > node.slots@.len() {
        size_of::<Node<K, V>>() + node.slots@.len() * (1 + size_of::<K>() + size_of::<V>() + (
        if node.has_child_room {
            size_of::<usize>()
        } else {
            0
        }))
    } else {
        memory_up_to(node, (n - 1) as nat) + match node.slots@[n - 1] {
            Slot::Child { node: child, .. } => memory_up_to(*child, child.slots@.len()),
            _ => 0,
        }
    }
}

/// The memory is what is summed up.
proof fn lemma_memory<K, V>(node: Node<K, V>, n: nat)
    requires
        n <= node.slots@.len(),
    ensures
        memory_up_to(node, n) == size_of::<Node<K, V>>() + node.slots@.len() * (1 + size_of::<K>()
            + size_of::<V>() + (if node.has_child_room {
            size_of::<usize>()
        } else {
            0
        })) + bytes_below(node, n),
    decreases node, n,
{
    if n > 0 {
        lemma_memory(node, (n - 1) as nat);
        if let Slot::Child { node: child, .. } = node.slots@[n - 1] {
            lemma_memory(*child, child.slots@.len());
            assert(bytes_of(*child) == memory_up_to(*child, child.slots@.len()));
            assert(bytes_below(node, n) == bytes_below(node, (n - 1) as nat) + bytes_of(*child));
            assert(memory_up_to(node, n) == memory_up_to(node, (n - 1) as nat) + memory_up_to(
                *child,
                child.slots@.len(),
            ));
        }
    }
}

/// The estimate of the memory is the sum over all nodes of the tree, whatever marks their
/// slots have.
pub proof fn law_memory_is_the_sum_over_all_nodes<K: Key, V>(n: &Node<K, V>, r: usize)
    requires
        call_ensures(Node::<K, V>::allocated_bytes, (n,), r),
        r < usize::MAX,
    ensures
        r == memory_up_to(*n, n.slots@.len()),
{
    lemma_memory(*n, n.slots@.len());
}

/// Without children there is nothing below.
proof fn lemma_childless<K, V>(n: Node<K, V>, i: nat)
    requires
        i <= n.slots@.len(),
        forall|j: int| 0 <= j < n.slots@.len() ==> (#[trigger] n.slots@[j]) !is Child,
    ensures
        bytes_below(n, i) == 0,
        depth_below(n, (n.slots@.len() - i) as nat) == 0,
    decreases i,
{
    if i > 0 {
        lemma_childless(n, (i - 1) as nat);
        assert(n.slots@[i - 1] !is Child);
        let j = n.slots@.len() - i;
        assert(n.slots@[j] !is Child);
        assert((j + 1) as nat == (n.slots@.len() - (i - 1)) as nat);
    }
}

/// The depth below the slots from `n` on is at least that of the child.
proof fn lemma_child_depth<K, V>(
    a: Node<K, V>,
    b: Node<K, V>,
    i: int,
    child: Node<K, V>,
    stale: bool,
    n: nat,
)
    requires
        has_one_child_more(a, b, i, child, stale),
    ensures
        ({
            let deeper = 1 + depth_below(child, 0);
            depth_below(a, n) == if n <= i && deeper > depth_below(b, n) {
                deeper
            } else {
                depth_below(b, n)
            }
        }),
    decreases a.slots@.len() - n,
{
    if n < a.slots@.len() {
        lemma_child_depth(a, b, i, child, stale, n + 1);
        if n != i {
            assert(a.slots@[n as int] == b.slots@[n as int]);
        }
    }
}

/// The depth of a tree is 1 without children, and a child makes it one more than its
/// own depth if it was less.
pub proof fn law_depth_is_that_of_the_deepest_child<K: Key, V>(
    a: &Node<K, V>,
    b: &Node<K, V>,
    i: int,
    child: &Node<K, V>,
    stale: bool,
    with_child: usize,
    without_child: usize,
    of_child: usize,
)
    requires
        has_one_child_more(*a, *b, i, *child, stale),
        call_ensures(Node::<K, V>::max_depth, (a,), with_child),
        call_ensures(Node::<K, V>::max_depth, (b,), without_child),
        call_ensures(Node::<K, V>::max_depth, (child,), of_child),
        with_child < usize::MAX,
    ensures
        with_child == if of_child + 1 > without_child {
            of_child + 1
        } else {
            without_child as int
        },
        (forall|j: int| 0 <= j < b.slots@.len() ==> (#[trigger] b.slots@[j]) !is Child)
            ==> without_child == 1,
{
    lemma_child_depth(*a, *b, i, *child, stale, 0);
    if forall|j: int| 0 <= j < b.slots@.len() ==> (#[trigger] b.slots@[j]) !is Child {
        lemma_childless(*b, b.slots@.len());
    }
}

/// The keys of a tree are as many as a traversal yields. It yields them sorted, each
/// with the value that is found under it, and leaves out no key that is found. The
/// first and the last entry are its ends.
pub proof fn law_traversals_yield_what_is_found<K: Key, V>(
    n: &Node<K, V>,
    it: Iter<K, V>,
    count: usize,
    first: Option<(&K, &V)>,
    last: Option<(&K, &V)>,
    k: &K,
    found: Option<&V>,
)
    requires
        n.wf(),
        call_ensures(Iter::<K, V>::new, (n,), it),
        call_ensures(Node::<K, V>::total_keys, (n,), count),
        call_ensures(first_entry::<K, V>, (n,), first),
        call_ensures(last_entry::<K, V>, (n,), last),
        call_ensures(get::<K, V>, (n, k), found),
    ensures
        ({
            let s = it.pending();
            &&& is_sorted(s)
            &&& s.len() <= usize::MAX ==> count == s.len()
            &&& forall|i: int|
                0 <= i < s.len() && (#[trigger] s[i]).0@ == k@ ==> found == Some(&s[i].1)
            &&& found is Some ==> exists|i: int| 0 <= i < s.len() && (#[trigger] s[i]).0@ == k@
            &&& first is None <==> s.len() == 0
            &&& last is None <==> s.len() == 0
            &&& first matches Some((key, v)) ==> s[0] == (*key, *v)
            &&& last matches Some((key, v)) ==> s[s.len() - 1] == (*key, *v)
        }),
{
    let s = it.pending();
    lemma_entries_from(*n, 0);
    assert forall|i: int, j: int| 0 <= i < j < s.len() implies K::ordered(
        #[trigger] s[i].0@,
        #[trigger] s[j].0@,
    ) && s[i].0@ != s[j].0@ by {
        assert(before::<K>(s[i].0@, s[j].0@));
    }
    assert forall|i: int| 0 <= i < s.len() && (#[trigger] s[i]).0@ == k@ implies found == Some(
        &s[i].1,
    ) by {
        assert(n.entries_from(0)[i] == s[i]);
    }
    if found is Some {
        lemma_slot_of_in_range(*n, k@);
        let i = choose|i: int|
            0 <= i < n.entries_from(0).len() && n.entries_from(0)[i].0@ == k@;
        assert(s[i].0@ == k@);
    }
}

/// Copies of the pairs come in the order of a traversal, each with its key and a copy
/// of its value.
pub proof fn law_copies_follow_the_traversal<K: Key, V: Clone>(
    n: &Node<K, V>,
    it: Iter<K, V>,
    r: Vec<(K, V)>,
)
    requires
        call_ensures(Iter::<K, V>::new, (n,), it),
        call_ensures(sorted_pairs::<K, V>, (n,), r),
    ensures
        r@.len() == it.pending().len(),
        forall|i: int|
            0 <= i < r@.len() ==> (#[trigger] r@[i]).0@ == it.pending()[i].0@ && cloned(
                it.pending()[i].1,
                r@[i].1,
            ),
{
}

/// Keys in order are predicted to slots in order.
pub proof fn law_slots_follow_the_keys<K: Key, V>(
    n: &Node<K, V>,
    a: &K,
    b: &K,
    slot: usize,
    other: usize,
)
    requires
        n.wf(),
        K::ordered(a@, b@),
        call_ensures(Node::<K, V>::predict_slot, (n, a), slot),
        call_ensures(Node::<K, V>::predict_slot, (n, b), other),
    ensures
        slot <= other < n.slots@.len(),
{
    lemma_slot_of_monotone(*n, a@, b@);
}

/// A key is looked up in its predicted slot: in the pair there, or in the child.
pub proof fn law_keys_are_found_in_their_slots<K: Key, V>(
    n: &Node<K, V>,
    k: &K,
    slot: usize,
    found: Option<&V>,
    below: Option<&V>,
)
    requires
        n.wf(),
        call_ensures(Node::<K, V>::predict_slot, (n, k), slot),
        call_ensures(get::<K, V>, (n, k), found),
        n.slots@[slot as int] matches Slot::Child { node, .. } ==> call_ensures(
            get::<K, V>,
            (&*node, k),
            below,
        ),
    ensures
        found == match n.slots@[slot as int] {
            Slot::Data(key, value) => if key@ == k@ {
                Some(&value)
            } else {
                None
            },
            Slot::Child { .. } => below,
            _ => None,
        },
{
}

/// A pair that is inserted into a tree is found, and what other keys have stays the
/// same. The result says whether the key was new.
pub proof fn law_tree_inserts_are_found<K: Key, V>(
    n: &mut Node<K, V>,
    key: K,
    value: V,
    config: &Config,
    r: InsertResult,
    had: Option<&V>,
    k: &K,
    found_before: Option<&V>,
    found_after: Option<&V>,
)
    requires
        call_ensures(insert::<K, V>, (n, key, value, config), r),
        call_ensures(get::<K, V>, (&*old(n), &key), had),
        call_ensures(get::<K, V>, (&*old(n), k), found_before),
        call_ensures(get::<K, V>, (&*final(n), k), found_after),
    ensures
        r == InsertResult::Inserted <==> had is None,
        r == InsertResult::Updated <==> had is Some,
        found_after == if k@ == key@ {
            Some(&value)
        } else {
            found_before
        },
{
    assert(final(n).lookup(k@) == if k@ == key@ {
        Some(value)
    } else {
        old(n).lookup(k@)
    });
}

/// A value that is there is handed out and kept. Otherwise the given one is stored
/// and handed out.
pub proof fn law_tree_values_are_kept<'a, K: Key, V>(
    n: &'a mut Node<K, V>,
    key: K,
    value: V,
    config: &Config,
    r: (&'a V, InsertResult),
    had: Option<&V>,
    k: &K,
    found_before: Option<&V>,
    found_after: Option<&V>,
)
    requires
        call_ensures(get_or_insert::<K, V>, (n, key, value, config), r),
        call_ensures(get::<K, V>, (&*old(n), &key), had),
        call_ensures(get::<K, V>, (&*old(n), k), found_before),
        call_ensures(get::<K, V>, (&*final(n), k), found_after),
    ensures
        r.1 == InsertResult::Inserted <==> had is None,
        *r.0 == match had {
            Some(v) => *v,
            None => value,
        },
        found_after == if k@ == key@ {
            Some(r.0)
        } else {
            found_before
        },
{
    assert(final(n).lookup(k@) == if k@ == key@ {
        Some(*r.0)
    } else {
        old(n).lookup(k@)
    });
}

/// A key that is removed from a tree is not found, and what other keys have stays the
/// same. The result says whether the key was there.
pub proof fn law_tree_removes_are_not_found<K: Key, V>(
    n: &mut Node<K, V>,
    key: &K,
    config: &Config,
    r: bool,
    had: Option<&V>,
    k: &K,
    found_before: Option<&V>,
    found_after: Option<&V>,
)
    requires
        call_ensures(remove::<K, V>, (n, key, config), r),
        call_ensures(get::<K, V>, (&*old(n), key), had),
        call_ensures(get::<K, V>, (&*old(n), k), found_before),
        call_ensures(get::<K, V>, (&*final(n), k), found_after),
    ensures
        r == (had is Some),
        found_after == if k@ == key@ {
            None
        } else {
            found_before
        },
{
    assert(final(n).lookup(k@) == if k@ == key@ {
        None
    } else {
        old(n).lookup(k@)
    });
}

/// Where the slot of the key holds no child, an insert changes this slot alone: a free
/// slot takes the pair, a pair with the same key gives way to a child of one pair, and
/// a pair with another key to a child of two. The counters follow.
pub proof fn law_inserts_change_one_slot<K: Key, V>(
    n: &mut Node<K, V>,
    key: K,
    value: V,
    config: &Config,
    r: InsertResult,
    slot: usize,
)
    requires
        old(n).wf(),
        call_ensures(insert::<K, V>, (n, key, value, config), r),
        call_ensures(Node::<K, V>::predict_slot, (&*old(n), &key), slot),
        old(n).slots@[slot as int] !is Child,
        0 < old(n).num_keys < usize::MAX,
    ensures
        ({
            let (s, t) = (old(n).slots@[slot as int], final(n).slots@[slot as int]);
            &&& final(n).slots@ == old(n).slots@.update(slot as int, t)
            &&& final(n).model == old(n).model
            &&& final(n).num_tombstones == old(n).num_tombstones
            &&& final(n).has_child_room == (old(n).has_child_room || t is Child)
            &&& match s {
                Slot::Data(k, v) => {
                    &&& t is Child && t->stale
                    &&& t->node.slots@.len() == if k@ == key@ {
                        2nat
                    } else {
                        4nat
                    }
                    &&& t->node.num_keys == if k@ == key@ {
                        1int
                    } else {
                        2
                    }
                    &&& final(n).num_keys == old(n).num_keys - (if k@ == key@ {
                        0int
                    } else {
                        1
                    })
                },
                _ => t == Slot::Data(key, value) && final(n).num_keys == old(n).num_keys + 1,
            }
        }),
{
    lemma_slot_of_in_range(*old(n), key@);
    assert(old(n).descent(key@) == 0);
}

/// Where the slot of the key holds no child, a remove changes this slot alone, and
/// only if it holds the key: the pair gives way to a tombstone. The counters follow.
pub proof fn law_removes_change_one_slot<K: Key, V>(
    n: &mut Node<K, V>,
    key: &K,
    config: &Config,
    r: bool,
    slot: usize,
)
    requires
        old(n).wf(),
        call_ensures(remove::<K, V>, (n, key, config), r),
        call_ensures(Node::<K, V>::predict_slot, (&*old(n), key), slot),
        old(n).slots@[slot as int] !is Child,
        old(n).num_keys > 0,
        old(n).num_tombstones < usize::MAX,
    ensures
        r == (old(n).slots@[slot as int] matches Slot::Data(k, _) && k@ == key@),
        final(n).slots@ == if r {
            old(n).slots@.update(slot as int, Slot::Tombstone)
        } else {
            old(n).slots@
        },
        final(n).num_keys == old(n).num_keys - (if r {
            1int
        } else {
            0
        }),
        final(n).num_tombstones == old(n).num_tombstones + (if r {
            1int
        } else {
            0
        }),
        final(n).model == old(n).model,
        final(n).has_child_room == old(n).has_child_room,
{
    lemma_slot_of_in_range(*old(n), key@);
    assert(old(n).descent(key@) == 0);
    if !r {
        assert(final(n).slots@ =~= old(n).slots@);
    }
}

/// A child of one pair holds it in the first of two slots, and a child of two pairs
/// holds them in the first and the last of four, the smaller key first. All of them
/// are found there.
pub proof fn law_new_children_hold_their_pairs<K: Key, V>(
    key: K,
    value: V,
    other_key: K,
    other_value: V,
    one: Node<K, V>,
    two: Node<K, V>,
    found_in_one: Option<&V>,
    found_in_two: Option<&V>,
    other_in_two: Option<&V>,
)
    requires
        key@ != other_key@,
        call_ensures(build_single_entry_child::<K, V>, (key, value), one),
        call_ensures(
            build_conflict_node::<K, V>,
            (key, value, other_key, other_value),
            two,
        ),
        call_ensures(get::<K, V>, (&one, &key), found_in_one),
        call_ensures(get::<K, V>, (&two, &key), found_in_two),
        call_ensures(get::<K, V>, (&two, &other_key), other_in_two),
    ensures
        one.slots@ == seq![Slot::Data(key, value), Slot::Empty],
        one.num_keys == 1 && one.num_tombstones == 0,
        two.slots@.len() == 4 && two.slots@[1] is Empty && two.slots@[2] is Empty,
        two.slots@[0] == Slot::Data(key, value) && two.slots@[3] == Slot::Data(
            other_key,
            other_value,
        ) || two.slots@[3] == Slot::Data(key, value) && two.slots@[0] == Slot::Data(
            other_key,
            other_value,
        ),
        two.slots@[0] == Slot::Data(key, value) ==> K::ordered(key@, other_key@) || two.slots@[3]
            == Slot::Data(key, value),
        two.num_keys == 2 && two.num_tombstones == 0,
        found_in_one == Some(&value),
        found_in_two == Some(&value),
        other_in_two == Some(&other_value),
{
    K::lemma_order(key@, other_key@, key@);
}

/// A child of one pair predicts by a steep line from its key on. A child of two pairs
/// predicts by the line between their inputs, or splits between their ordinals if these
/// are the same, or at the smaller key if those are the same too.
pub proof fn law_new_children_predict_by_lines<K: Key, V>(
    key: K,
    value: V,
    other_key: K,
    other_value: V,
    one: Node<K, V>,
    two: Node<K, V>,
    inputs: (i128, i128),
    ordinals: (i128, i128),
    ray: LinearModel,
    line: LinearModel,
    middle: i128,
    split: LinearModel,
)
    requires
        key@ != other_key@,
        K::ordered(key@, other_key@),
        call_ensures(build_single_entry_child::<K, V>, (key, value), one),
        call_ensures(
            build_conflict_node::<K, V>,
            (key, value, other_key, other_value),
            two,
        ),
        call_ensures(K::to_model_input, (&key,), inputs.0),
        call_ensures(K::to_model_input, (&other_key,), inputs.1),
        call_ensures(K::to_exact_ordinal, (&key,), ordinals.0),
        call_ensures(K::to_exact_ordinal, (&other_key,), ordinals.1),
        call_ensures(LinearModel::through, (inputs.0, 1u64, 1u128), ray),
        inputs.0 < inputs.1 ==> call_ensures(
            LinearModel::between,
            (inputs.0, inputs.1, 3u64),
            line,
        ),
        middle == ordinals.0 + (ordinals.1 - ordinals.0) / 2,
        call_ensures(LinearModel::binary_split, (middle,), split),
    ensures
        one.model == ray && one.split_key is None,
        inputs.0 != inputs.1 ==> two.model == line && two.split_key is None,
        inputs.0 == inputs.1 && ordinals.0 != ordinals.1 ==> two.model == split && two.split_key
            is None,
        inputs.0 == inputs.1 && ordinals.0 == ordinals.1 ==> (two.split_key matches Some(b) && b@
            == key@),
{
    K::lemma_inputs_follow_order(key@, other_key@);
}

/// How many children are on the way to the place of a key.
pub open spec fn children_on_the_way<K: Key, V>(n: Node<K, V>, k: K::V) -> nat
    decreases n,
{
    match n.slots@[n.slot_of(k)] {
        Slot::Child { node, .. } if 0 <= n.slot_of(k) < n.slots@.len() => children_on_the_way(
            *node,
            k,
        ) + 1,
        _ => 0,
    }
}

/// The node that has the place of a key.
pub open spec fn home<K: Key, V>(n: Node<K, V>, k: K::V) -> Node<K, V>
    decreases n,
{
    match n.slots@[n.slot_of(k)] {
        Slot::Child { node, .. } if 0 <= n.slot_of(k) < n.slots@.len() => home(*node, k),
        _ => n,
    }
}

/// The way to a key is as long as the number of children on it, and ends where the
/// share of tombstones is looked at.
proof fn lemma_way<K: Key, V>(n: Node<K, V>, k: K::V, threshold: Ratio)
    requires
        n.wf(),
    ensures
        n.descent(k) == children_on_the_way(n, k),
        fills_up(n, k, threshold) <==> home(n, k).num_tombstones.wrapping_add(1) * threshold.den
            > threshold.num * home(n, k).slots@.len(),
    decreases n,
{
    lemma_slot_of_in_range(n, k);
    if let Slot::Child { node, .. } = n.slots@[n.slot_of(k)] {
        lemma_way(*node, k, threshold);
    }
}

/// Nothing was removed from the node or made a child later.
pub open spec fn is_tidy<K, V>(n: Node<K, V>) -> bool {
    &&& n.num_tombstones == 0
    &&& forall|i: int|
        #![trigger n.slots@[i]]
        0 <= i < n.slots@.len() ==> n.slots@[i] !is Tombstone && (n.slots@[i] is Child
            ==> !n.slots@[i]->stale)
}

/// The children of a node still stand where they did, each with its model and size.
pub open spec fn keeps_children<K, V>(before: Node<K, V>, after: Node<K, V>) -> bool {
    &&& after.slots@.len() == before.slots@.len()
    &&& after.model == before.model
    &&& forall|i: int|
        #![trigger before.slots@[i]]
        0 <= i < before.slots@.len() && before.slots@[i] is Child ==> after.slots@[i] is Child
            && after.slots@[i]->node.model == before.slots@[i]->node.model
            && after.slots@[i]->node.slots@.len() == before.slots@[i]->node.slots@.len()
}

/// With automatic rebuilds, a new key whose place is below more children than the
/// threshold has the subtree in its slot rebuilt. Any other insert rebuilds nothing.
pub proof fn law_deep_subtrees_are_rebuilt<K: Key, V>(
    n: &mut Node<K, V>,
    key: K,
    value: V,
    config: &Config,
    r: InsertResult,
    slot: usize,
)
    requires
        old(n).wf(),
        call_ensures(insert::<K, V>, (n, key, value, config), r),
        call_ensures(Node::<K, V>::predict_slot, (&*old(n), &key), slot),
        config.rebuild_depth_threshold < usize::MAX,
    ensures
        if r == InsertResult::Inserted && config.auto_rebuild && children_on_the_way(
            *old(n),
            key@,
        ) > config.rebuild_depth_threshold {
            final(n).slots@[slot as int] matches Slot::Child { node, .. }
                ==> (node.entries().len() >= 2 ==> is_tidy(*node))
        } else {
            keeps_children(*old(n), *final(n))
        },
{
    lemma_way(*old(n), key@, config.tombstone_ratio_threshold);
    lemma_slot_of_in_range(*old(n), key@);
    assert(final(n).slot_of(key@) == slot);
    if !(r == InsertResult::Inserted && config.auto_rebuild && children_on_the_way(*old(n), key@)
        > config.rebuild_depth_threshold) {
        reveal_with_fuel(keeps_shape, 2);
        assert(keeps_shape(*old(n), *final(n)));
    }
}

/// With automatic rebuilds, a key that is removed below the root and leaves more than
/// the allowed share of tombstones in its node has the subtree in its slot rebuilt.
/// Any other remove rebuilds nothing.
pub proof fn law_crowded_subtrees_are_rebuilt<K: Key, V>(
    n: &mut Node<K, V>,
    key: &K,
    config: &Config,
    r: bool,
    slot: usize,
)
    requires
        old(n).wf(),
        call_ensures(remove::<K, V>, (n, key, config), r),
        call_ensures(Node::<K, V>::predict_slot, (&*old(n), key), slot),
        home(*old(n), key@).num_tombstones < usize::MAX,
    ensures
        ({
            let (at, limit) = (home(*old(n), key@), config.tombstone_ratio_threshold);
            if r && config.auto_rebuild && children_on_the_way(*old(n), key@) > 0 && (
            at.num_tombstones + 1) * limit.den > limit.num * at.slots@.len() {
                final(n).slots@[slot as int] matches Slot::Child { node, .. }
                    ==> (node.entries().len() >= 2 ==> is_tidy(*node))
            } else {
                keeps_children(*old(n), *final(n))
            }
        }),
{
    lemma_way(*old(n), key@, config.tombstone_ratio_threshold);
    lemma_slot_of_in_range(*old(n), key@);
    assert(final(n).slot_of(key@) == slot);
    if !is_crowded(*old(n), key@, *config) {
        reveal_with_fuel(keeps_shape, 2);
        assert(keeps_shape(*old(n), *final(n)));
    }
}

/// A new node has the given number of slots, all of them empty, and no counts. One
/// that splits by a key leads the keys up to it to the first slot and the others to
/// the last.
pub proof fn law_new_nodes_are_empty<K: Key, V>(
    model: LinearModel,
    size: usize,
    boundary: K,
    node: Node<K, V>,
    leaf: Node<K, V>,
    split: Node<K, V>,
    i: usize,
    state: u8,
    k: &K,
    slot: usize,
)
    requires
        call_ensures(Node::<K, V>::with_capacity, (model, size), node),
        call_ensures(Node::<K, V>::with_capacity_leaf, (model, size), leaf),
        call_ensures(Node::<K, V>::with_split_key, (boundary, size), split),
        i < size,
        call_ensures(Node::<K, V>::slot_state, (&split, i), state),
        call_ensures(Node::<K, V>::predict_slot, (&split, k), slot),
    ensures
        node.slots@.len() == size && leaf.slots@.len() == size && split.slots@.len() == size,
        node.model == model && leaf.model == model,
        node.slots@[i as int] is Empty && leaf.slots@[i as int] is Empty
            && split.slots@[i as int] is Empty,
        state == 0,
        node.has_child_room && !leaf.has_child_room && split.has_child_room,
        node.num_keys == 0 && leaf.num_keys == 0 && split.num_keys == 0,
        node.num_tombstones == 0 && leaf.num_tombstones == 0 && split.num_tombstones == 0,
        slot == if K::ordered(k@, boundary@) {
            0int
        } else {
            size - 1
        },
{
    assert(split.slots@[i as int] is Empty);
    assert(node.slots@[i as int] is Empty);
    assert(leaf.slots@[i as int] is Empty);
}

/// What is stored in a slot is read from it, and the other slots keep what they have.
pub proof fn law_slots_hold_what_is_stored<K: Key, V>(
    with_pair: &mut Node<K, V>,
    with_child: &mut Node<K, V>,
    i: usize,
    key: K,
    value: V,
    child: Node<K, V>,
    j: int,
)
    requires
        i < old(with_pair).slots@.len(),
        i < old(with_child).slots@.len(),
        call_ensures(Node::<K, V>::store_data, (with_pair, i, key, value), ()),
        call_ensures(Node::<K, V>::store_child, (with_child, i, child), ()),
    ensures
        final(with_pair).slots@.len() == old(with_pair).slots@.len(),
        final(with_child).slots@.len() == old(with_child).slots@.len(),
        final(with_pair).slots@[i as int] == Slot::Data(key, value),
        final(with_child).slots@[i as int] == (Slot::Child { node: Box::new(child), stale: false }),
        final(with_child).has_child_room,
        0 <= j < old(with_pair).slots@.len() && j != i ==> final(with_pair).slots@[j] == old(
            with_pair,
        ).slots@[j],
        0 <= j < old(with_child).slots@.len() && j != i ==> final(with_child).slots@[j] == old(
            with_child,
        ).slots@[j],
{
}

/// A slot is read as what it holds. The states have the numbers 0 for an empty slot, 2
/// for a pair, 3 for a child, 4 for a child in place of a pair and 5 for a tombstone.
pub proof fn law_slots_are_read_as_they_are<K: Key, V>(
    n: &Node<K, V>,
    i: usize,
    state: u8,
    key: &K,
    value: &V,
    child: Option<&Node<K, V>>,
    size: usize,
)
    requires
        i < n.slots@.len(),
        call_ensures(Node::<K, V>::slot_state, (n, i), state),
        n.slots@[i as int] is Data ==> call_ensures(Node::<K, V>::read_key, (n, i), key)
            && call_ensures(Node::<K, V>::read_value, (n, i), value),
        call_ensures(Node::<K, V>::load_child, (n, i), child),
        call_ensures(Node::<K, V>::capacity, (n,), size),
    ensures
        size == n.slots@.len(),
        match n.slots@[i as int] {
            Slot::Empty => state == 0 && child is None,
            Slot::Data(k, v) => state == 2 && *key == k && *value == v && child is None,
            Slot::Child { node, stale } => child == Some(&*node) && state == if stale {
                4int
            } else {
                3
            },
            Slot::Tombstone => state == 5 && child is None,
        },
{
}

/// A slot changes hands only from the state that the caller expects. Then it holds what
/// the caller brought; otherwise nothing changes.
pub proof fn law_slots_change_from_what_is_expected<K: Key, V>(
    claimed: &mut Node<K, V>,
    reclaimed: &mut Node<K, V>,
    replaced: &mut Node<K, V>,
    buried: &mut Node<K, V>,
    i: usize,
    key: K,
    value: V,
    child: Node<K, V>,
    r: (bool, bool, bool, bool),
)
    requires
        i < old(claimed).slots@.len() && i < old(reclaimed).slots@.len(),
        i < old(replaced).slots@.len() && i < old(buried).slots@.len(),
        call_ensures(Node::<K, V>::cas_empty_to_data, (claimed, i, key, value), r.0),
        call_ensures(Node::<K, V>::cas_tombstone_to_data, (reclaimed, i, key, value), r.1),
        call_ensures(Node::<K, V>::cas_data_to_child_stale, (replaced, i, child), r.2),
        call_ensures(Node::<K, V>::cas_data_to_tombstone, (buried, i), r.3),
    ensures
        r.0 <==> old(claimed).slots@[i as int] is Empty,
        r.1 <==> old(reclaimed).slots@[i as int] is Tombstone,
        r.2 <==> old(replaced).slots@[i as int] is Data,
        r.3 <==> old(buried).slots@[i as int] is Data,
        final(claimed).slots@ == if r.0 {
            old(claimed).slots@.update(i as int, Slot::Data(key, value))
        } else {
            old(claimed).slots@
        },
        final(reclaimed).slots@ == if r.1 {
            old(reclaimed).slots@.update(i as int, Slot::Data(key, value))
        } else {
            old(reclaimed).slots@
        },
        final(replaced).slots@ == if r.2 {
            old(replaced).slots@.update(
                i as int,
                Slot::Child { node: Box::new(child), stale: true },
            )
        } else {
            old(replaced).slots@
        },
        final(buried).slots@ == if r.3 {
            old(buried).slots@.update(i as int, Slot::Tombstone)
        } else {
            old(buried).slots@
        },
        r.2 ==> final(replaced).has_child_room,
{
}

/// A share exceeds a threshold if the part times the denominator is more than the
/// whole times the numerator. A node's share is that of its tombstones in its slots.
pub proof fn law_shares_are_compared_exactly<K: Key, V>(
    part: usize,
    whole: usize,
    n: &Node<K, V>,
    threshold: Ratio,
    exceeds: bool,
    ratio: (usize, usize),
    node_exceeds: bool,
)
    requires
        call_ensures(share_exceeds, (part, whole, threshold), exceeds),
        call_ensures(Node::<K, V>::tombstone_ratio, (n,), ratio),
        call_ensures(Node::<K, V>::tombstone_ratio_exceeds, (n, threshold), node_exceeds),
    ensures
        exceeds <==> part * threshold.den > whole * threshold.num,
        ratio == (n.num_tombstones, n.slots@.len() as usize),
        node_exceeds <==> n.num_tombstones * threshold.den > n.slots@.len() * threshold.num,
{
    assert(whole * threshold.num == threshold.num * whole) by (nonlinear_arith);
    let len = n.slots@.len() as int;
    assert(len * threshold.num == threshold.num * len) by (nonlinear_arith);
}

/// A rebuild of a subtree changes nothing that is found. It is done exactly if the slot
/// holds a child with two pairs or more.
pub proof fn law_subtree_rebuilds_keep_everything<K: Key, V>(
    n: &mut Node<K, V>,
    i: usize,
    config: &Config,
    r: bool,
    k: &K,
    found_before: Option<&V>,
    found_after: Option<&V>,
)
    requires
        i < old(n).slots@.len(),
        call_ensures(try_rebuild_subtree::<K, V>, (n, i, config), r),
        call_ensures(get::<K, V>, (&*old(n), k), found_before),
        call_ensures(get::<K, V>, (&*final(n), k), found_after),
    ensures
        found_after == found_before,
        r <==> old(n).slots@[i as int] is Child && old(n).slots@[i as int].entries().len() >= 2,
        !r ==> final(n).slots@ == old(n).slots@,
        r ==> final(n).slots@[i as int] is Child,
        forall|j: int| 0 <= j < old(n).slots@.len() && j != i ==> final(n).slots@[j]
            == #[trigger] old(n).slots@[j],
{
    assert(final(n).lookup(k@) == old(n).lookup(k@));
    if !r {
        assert(final(n).slots@ =~= old(n).slots@);
    }
    if let Slot::Child { node, .. } = old(n).slots@[i as int] {
        assert(old(n).slots@[i as int].entries() == node.entries_from(0));
    }
}

/// The expansion factor of a rebuild is one and a half times the configured one, and
/// at most 4. The other settings stay.
pub proof fn law_rebuilds_expand_more(config: &Config, r: Config)
    requires
        config.wf(),
        call_ensures(boosted_config, (config,), r),
    ensures
        ({
            let (f, b) = (config.expansion_factor, r.expansion_factor);
            if 3 * f.num < 8 * f.den {
                b.num * (2 * f.den) == b.den * (3 * f.num)
            } else {
                b.num == 4 * b.den
            }
        }),
        r.expansion_factor.den > 0,
        r.range_headroom == config.range_headroom,
        r.auto_rebuild == config.auto_rebuild,
        r.rebuild_depth_threshold == config.rebuild_depth_threshold,
        r.tombstone_ratio_threshold == config.tombstone_ratio_threshold,
{
    let f = config.expansion_factor;
    assert((3 * f.num) * (2 * f.den) == (2 * f.den) * (3 * f.num)) by (nonlinear_arith);
}

/// A tree is built from sorted pairs and nothing else, and finds a copy of the value of
/// each.
pub proof fn law_trees_are_built_from_sorted_pairs<K: Key, V: Clone>(
    pairs: &[(K, V)],
    config: &Config,
    r: Result<Node<K, V>>,
    k: &K,
    found: Option<&V>,
)
    requires
        call_ensures(bulk_load::<K, V>, (pairs, config), r),
        r matches Ok(n) ==> call_ensures(get::<K, V>, (&n, k), found),
    ensures
        r is Ok <==> pairs@.len() > 0 && is_sorted(pairs@),
        r matches Err(e) ==> (e == Error::EmptyData || e == Error::NotSorted) && (e
            == Error::EmptyData <==> pairs@.len() == 0),
        r is Ok ==> {
            &&& forall|i: int|
                0 <= i < pairs@.len() && (#[trigger] pairs@[i]).0@ == k@ ==> found is Some
                    && cloned(pairs@[i].1, *found->0)
            &&& found is Some ==> exists|i: int|
                0 <= i < pairs@.len() && (#[trigger] pairs@[i]).0@ == k@
        },
{
    assert(is_sorted(pairs@) == ascending(pairs@)) by {
        if is_sorted(pairs@) {
            assert forall|i: int, j: int| 0 <= i < j < pairs@.len() implies before::<K>(
                #[trigger] pairs@[i].0@,
                #[trigger] pairs@[j].0@,
            ) by {
                assert(K::ordered(pairs@[i].0@, pairs@[j].0@));
            }
        }
        if ascending(pairs@) {
            assert forall|i: int, j: int| 0 <= i < j < pairs@.len() implies K::ordered(
                #[trigger] pairs@[i].0@,
                #[trigger] pairs@[j].0@,
            ) && pairs@[i].0@ != pairs@[j].0@ by {
                assert(before::<K>(pairs@[i].0@, pairs@[j].0@));
            }
        }
    }
    if let Ok(n) = r {
        lemma_entries_from(n, 0);
        assert forall|i: int| 0 <= i < pairs@.len() && (#[trigger] pairs@[i]).0@ == k@ implies found
            is Some && cloned(pairs@[i].1, *found->0) by {
            assert(n.entries_from(0)[i].0@ == k@);
        }
        if found is Some {
            lemma_slot_of_in_range(n, k@);
            let i = choose|i: int|
                0 <= i < n.entries_from(0).len() && n.entries_from(0)[i].0@ == k@;
            assert(pairs@[i].0@ == k@);
        }
    }
}

/// A tree that was just built has no tombstones, no child that took the place of a
/// pair, no child for fewer than two pairs, and counts its inline pairs exactly.
pub proof fn law_new_trees_are_tidy<K: Key, V>(n: Node<K, V>, i: int)
    requires
        compact(n),
        0 <= i < n.slots@.len(),
    ensures
        n.num_tombstones == 0,
        n.slots@[i] !is Tombstone,
        n.slots@[i] matches Slot::Child { node, stale } ==> !stale && node.entries().len() >= 2
            && compact(*node),
        n.num_keys == Set::new(|j: int| 0 <= j < n.slots@.len() && n.slots@[j] is Data).len(),
{
    lemma_inline_pairs_count(n.slots@);
}

/// The inline pairs are those slots that hold a pair.
proof fn lemma_inline_pairs_count<K, V>(s: Seq<Slot<K, V>>)
    ensures
        Set::new(|j: int| 0 <= j < s.len() && s[j] is Data).finite(),
        Set::new(|j: int| 0 <= j < s.len() && s[j] is Data).len() == inline_pairs(s),
    decreases s.len(),
{
    let a = Set::new(|j: int| 0 <= j < s.len() && s[j] is Data);
    if s.len() == 0 {
        assert(a =~= Set::empty());
    } else {
        let t = s.drop_last();
        let b = Set::new(|j: int| 0 <= j < t.len() && t[j] is Data);
        lemma_inline_pairs_count(t);
        if s.last() is Data {
            assert(a =~= b.insert(t.len() as int));
        } else {
            assert(a =~= b);
        }
    }
}

/// A traversal with a hint yields the same pairs and starts with the hint.
pub proof fn law_hints_change_no_traversal<K: Key, V>(
    n: &Node<K, V>,
    it: Iter<K, V>,
    count: usize,
    hinted: Iter<K, V>,
    hint: (usize, Option<usize>),
    no_hint: (usize, Option<usize>),
)
    requires
        call_ensures(Iter::<K, V>::new, (n,), it),
        call_ensures(Iter::<K, V>::with_hint, (n, count), hinted),
        call_ensures(Iter::<K, V>::size_hint, (&hinted,), hint),
        call_ensures(Iter::<K, V>::size_hint, (&it,), no_hint),
    ensures
        hinted.pending() == it.pending(),
        hint == (count, Some(count)),
        no_hint == (0usize, None::<usize>),
{
}

/// A node predicts by its model or its split key, whichever way it is asked.
pub proof fn law_predictions_need_no_node<K: Key, V>(
    n: &Node<K, V>,
    key: &K,
    size: usize,
    slot: usize,
    among: usize,
)
    requires
        size == n.slots@.len(),
        call_ensures(Node::<K, V>::predict_slot, (n, key), slot),
        call_ensures(predict_among::<K>, (&n.model, &n.split_key, size, key), among),
    ensures
        slot == among,
{
}

/// A borrowed child is that of the slot. What becomes of it becomes of the slot, and
/// nothing else changes.
pub proof fn law_children_are_borrowed_in_place<'a, K: Key, V>(
    n: &'a mut Node<K, V>,
    i: usize,
    child: &'a mut Node<K, V>,
)
    requires
        i < old(n).slots@.len(),
        old(n).slots@[i as int] is Child,
        call_ensures(Node::<K, V>::child_mut, (n, i), child),
    ensures
        old(n).slots@[i as int] matches Slot::Child { node, stale } && *node == *old(child)
            && final(n).slots@ == old(n).slots@.update(
            i as int,
            Slot::Child { node: Box::new(*final(child)), stale },
        ),
{
}

/// A number is limited by the largest `usize`, and not changed below it.
pub proof fn law_numbers_are_limited(n: nat)
    ensures
        capped(n) <= n,
        n <= usize::MAX ==> capped(n) == n,
        n > usize::MAX ==> capped(n) == usize::MAX,
{
}

/// Counters go up and down by one, each on its own.
pub proof fn law_counters_count_by_one<K: Key, V>(
    up: &mut Node<K, V>,
    down: &mut Node<K, V>,
    buried: &mut Node<K, V>,
)
    requires
        call_ensures(Node::<K, V>::inc_keys, (up,), ()),
        call_ensures(Node::<K, V>::dec_keys, (down,), ()),
        call_ensures(Node::<K, V>::inc_tombstones, (buried,), ()),
        old(up).num_keys < usize::MAX,
        old(down).num_keys > 0,
        old(buried).num_tombstones < usize::MAX,
    ensures
        final(up).num_keys == old(up).num_keys + 1,
        final(up).num_tombstones == old(up).num_tombstones,
        final(up).slots == old(up).slots,
        final(down).num_keys == old(down).num_keys - 1,
        final(down).num_tombstones == old(down).num_tombstones,
        final(down).slots == old(down).slots,
        final(buried).num_tombstones == old(buried).num_tombstones + 1,
        final(buried).num_keys == old(buried).num_keys,
        final(buried).slots == old(buried).slots,
{
}

} // verus!
