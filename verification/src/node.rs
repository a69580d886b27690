//! Node types for the learned index tree.
//!
//! Each node contains a linear model and a fixed-size array of slots. Slots
//! store keys and values inline or hold a child node for the keys that
//! predict to the same slot.

use vstd::layout::size_of;
use vstd::prelude::*;

use crate::config::Ratio;
use crate::iter::Iter;
use crate::key::{before, Key};
use crate::model::{lemma_slot_monotone, LinearModel};

verus! {

/// Slot is unused. No inline data, no child.
pub const SLOT_EMPTY: u8 = 0;

/// Slot is being claimed by a concurrent insert (transient).
pub const SLOT_WRITING: u8 = 1;

/// Slot contains a valid inline key-value pair.
pub const SLOT_DATA: u8 = 2;

/// Slot contains a child node and never held inline data.
pub const SLOT_CHILD: u8 = 3;

/// Slot contains a child node that replaced an inline key-value pair.
pub const SLOT_CHILD_STALE: u8 = 4;

/// Slot was logically removed.
pub const SLOT_TOMBSTONE: u8 = 5;

/// Returns `true` if the state indicates a child node is present.
pub fn is_child(state: u8) -> (r: bool)
    ensures
        r == (state == SLOT_CHILD || state == SLOT_CHILD_STALE),
{
    state == SLOT_CHILD || state == SLOT_CHILD_STALE
}

/// One slot of a node.
pub enum Slot<K, V> {
    /// Unused.
    Empty,
    /// An inline key-value pair.
    Data(K, V),
    /// A child node; `stale` tells whether it replaced an inline pair.
    Child {
        /// The child.
        node: Box<Node<K, V>>,
        /// Whether the child replaced an inline pair.
        stale: bool,
    },
    /// A removed pair.
    Tombstone,
}

/// A node in the learned index tree.
pub struct Node<K, V> {
    /// The linear model for this node, fixed at construction.
    pub model: LinearModel,
    /// The slots.
    pub slots: Vec<Slot<K, V>>,
    /// Approximate number of data entries in this node (not counting children).
    pub num_keys: usize,
    /// Approximate number of tombstones in this node.
    pub num_tombstones: usize,
    /// Boundary key for order-based binary splits.
    pub split_key: Option<K>,
    /// Whether room for children is set up. A node for keys that do not conflict
    /// gets it with its first child.
    pub has_child_room: bool,
}

impl<K, V> Slot<K, V> {
    /// The pairs below this slot, left to right.
    pub open spec fn entries(self) -> Seq<(K, V)>
        decreases self, 0nat,
    {
        match self {
            Slot::Data(k, v) => seq![(k, v)],
            Slot::Child { node, .. } => node.entries_from(0),
            _ => Seq::empty(),
        }
    }

    /// The state byte of this slot.
    pub open spec fn state(self) -> u8 {
        match self {
            Slot::Empty => SLOT_EMPTY,
            Slot::Data(_, _) => SLOT_DATA,
            Slot::Child { stale, .. } => if stale {
                SLOT_CHILD_STALE
            } else {
                SLOT_CHILD
            },
            Slot::Tombstone => SLOT_TOMBSTONE,
        }
    }
}

impl<K, V> Node<K, V> {
    /// The pairs in the slots from `i` on, left to right.
    pub open spec fn entries_from(self, i: nat) -> Seq<(K, V)>
        decreases self, self.slots@.len() - i,
    {
        if i < self.slots@.len() {
            self.slots@[i as int].entries() + self.entries_from((i + 1) as nat)
        } else {
            Seq::empty()
        }
    }

    /// The pairs in the slots before `i`, left to right.
    pub open spec fn entries_upto(self, i: nat) -> Seq<(K, V)>
        decreases i,
    {
        if i > 0 {
            self.entries_upto((i - 1) as nat) + self.slots@[i - 1].entries()
        } else {
            Seq::empty()
        }
    }

    /// All pairs of the subtree, left to right.
    pub open spec fn entries(self) -> Seq<(K, V)> {
        self.entries_from(0)
    }
}

/// The slot of a key among `size` slots, by a boundary key or else by a model.
pub open spec fn slot_among<K: Key>(
    model: LinearModel,
    split_key: Option<K>,
    size: int,
    k: K::V,
) -> int {
    match split_key {
        Some(boundary) => if K::ordered(k, boundary@) {
            0
        } else {
            size - 1
        },
        None => model.slot(K::model_input(k), K::exact_ordinal(k), size),
    }
}

/// Predict the slot of a key among `size` slots.
pub fn predict_among<K: Key>(
    model: &LinearModel,
    split_key: &Option<K>,
    size: usize,
    key: &K,
) -> (slot: usize)
    requires
        size > 0,
        model.wf(),
    ensures
        slot == slot_among(*model, *split_key, size as int, key@),
        slot < size,
{
    if let Some(boundary) = split_key {
        if key.le(boundary) {
            0
        } else {
            size - 1
        }
    } else {
        model.predict(key, size)
    }
}

impl<K: Key, V> Node<K, V> {
    /// The slot to which a key belongs.
    pub open spec fn slot_of(self, k: K::V) -> int {
        slot_among(self.model, self.split_key, self.slots@.len() as int, k)
    }

    /// The value found by following the predicted slots of a key.
    pub open spec fn lookup(self, k: K::V) -> Option<V>
        decreases self,
    {
        let i = self.slot_of(k);
        if 0 <= i < self.slots@.len() {
            match self.slots@[i] {
                Slot::Data(key, value) => if key@ == k {
                    Some(value)
                } else {
                    None
                },
                Slot::Child { node, .. } => node.lookup(k),
                _ => None,
            }
        } else {
            None
        }
    }

    /// Number of child nodes on the way to the place of a key.
    pub open spec fn descent(self, k: K::V) -> nat
        decreases self,
    {
        let i = self.slot_of(k);
        if 0 <= i < self.slots@.len() {
            match self.slots@[i] {
                Slot::Child { node, .. } => 1 + node.descent(k),
                _ => 0,
            }
        } else {
            0
        }
    }

    /// The contents of the subtree as a map.
    pub open spec fn view(self) -> Map<K::V, V> {
        Map::new(|k: K::V| self.lookup(k) is Some, |k: K::V| self.lookup(k).unwrap())
    }

    /// Every key of the subtree is where its predictions lead: slot `i` holds
    /// only keys that belong to slot `i`, and child nodes are well-formed.
    pub open spec fn wf(self) -> bool
        decreases self,
    {
        &&& self.slots@.len() > 0
        &&& self.model.wf()
        &&& forall|i: int|
            #![trigger self.slots@[i]]
            0 <= i < self.slots@.len() ==> match self.slots@[i] {
                Slot::Data(key, _) => self.slot_of(key@) == i,
                Slot::Child { node, .. } => node.wf() && (forall|k: K::V| #[trigger]
                    node.lookup(k) is Some ==> self.slot_of(k) == i),
                _ => true,
            }
    }

    /// The two nodes predict alike.
    pub open spec fn predicts_like(self, other: Self) -> bool {
        &&& self.model == other.model
        &&& self.split_key == other.split_key
        &&& self.slots@.len() == other.slots@.len()
    }
}

/// Keys in order predict to slots in order.
pub proof fn lemma_slot_of_monotone<K: Key, V>(n: Node<K, V>, a: K::V, b: K::V)
    requires
        n.slots@.len() > 0,
        n.model.wf(),
        K::ordered(a, b),
    ensures
        0 <= n.slot_of(a) <= n.slot_of(b) < n.slots@.len(),
{
    match n.split_key {
        Some(boundary) => {
            K::lemma_order(a, b, boundary@);
        },
        None => {
            K::lemma_inputs_follow_order(a, b);
            lemma_slot_monotone(
                n.model,
                K::model_input(a),
                K::exact_ordinal(a),
                K::model_input(b),
                K::exact_ordinal(b),
                n.slots@.len() as int,
            );
        },
    }
}

/// The predicted slot is a slot of the node.
pub proof fn lemma_slot_of_in_range<K: Key, V>(n: Node<K, V>, k: K::V)
    requires
        n.slots@.len() > 0,
        n.model.wf(),
    ensures
        0 <= n.slot_of(k) < n.slots@.len(),
{
    K::lemma_order(k, k, k);
    lemma_slot_of_monotone(n, k, k);
}

/// Keys strictly ascend.
pub open spec fn ascending<K: Key, V>(s: Seq<(K, V)>) -> bool {
    forall|i: int, j: int| 0 <= i < j < s.len() ==> before::<K>(#[trigger] s[i].0@, #[trigger] s[j].0@)
}

/// The pairs stored in the slots from `i` on are exactly those that lookup
/// finds there, in ascending key order.
pub proof fn lemma_entries_from<K: Key, V>(n: Node<K, V>, i: nat)
    requires
        n.wf(),
    ensures
        ascending(n.entries_from(i)),
        forall|j: int|
            0 <= j < n.entries_from(i).len() ==> {
                let e = #[trigger] n.entries_from(i)[j];
                n.lookup(e.0@) == Some(e.1) && n.slot_of(e.0@) >= i
            },
        forall|k: K::V|
            #![trigger n.lookup(k)]
            n.lookup(k) is Some && n.slot_of(k) >= i ==> exists|j: int|
                0 <= j < n.entries_from(i).len() && n.entries_from(i)[j].0@ == k,
    decreases n, n.slots@.len() - i,
{
    if i < n.slots@.len() {
        let s = n.slots@[i as int];
        let left = s.entries();
        let right = n.entries_from((i + 1) as nat);
        let all = n.entries_from(i);
        assert(all == left + right);
        lemma_entries_from(n, (i + 1) as nat);
        match s {
            Slot::Child { node, .. } => {
                lemma_entries_from(*node, 0);
                assert forall|j: int| 0 <= j < left.len() implies n.lookup((#[trigger] left[j]).0@)
                    == Some(left[j].1) && n.slot_of(left[j].0@) == i by {
                    assert(node.lookup(left[j].0@) is Some);
                }
            },
            _ => {},
        }
        assert forall|j: int| 0 <= j < left.len() implies n.lookup((#[trigger] left[j]).0@) == Some(
            left[j].1,
        ) && n.slot_of(left[j].0@) == i by {}
        assert(ascending(left));
        assert forall|a: int, b: int| 0 <= a < b < all.len() implies before::<K>(
            #[trigger] all[a].0@,
            #[trigger] all[b].0@,
        ) by {
            if b < left.len() {
                assert(all[a] == left[a] && all[b] == left[b]);
            } else if a >= left.len() {
                assert(all[a] == right[a - left.len()] && all[b] == right[b - left.len()]);
            } else {
                assert(all[a] == left[a] && all[b] == right[b - left.len()]);
                let x = left[a].0@;
                let y = right[b - left.len()].0@;
                K::lemma_order(x, y, x);
                if K::ordered(y, x) {
                    lemma_slot_of_monotone(n, y, x);
                }
            }
        }
        assert forall|j: int| 0 <= j < all.len() implies {
            let e = #[trigger] all[j];
            n.lookup(e.0@) == Some(e.1) && n.slot_of(e.0@) >= i
        } by {
            if j < left.len() {
                assert(all[j] == left[j]);
            } else {
                assert(all[j] == right[j - left.len()]);
            }
        }
        assert forall|k: K::V|
            #![trigger n.lookup(k)]
            n.lookup(k) is Some && n.slot_of(k) >= i implies exists|j: int|
            0 <= j < all.len() && all[j].0@ == k by {
            if n.slot_of(k) == i {
                match s {
                    Slot::Data(key, value) => {
                        assert(all[0] == left[0]);
                    },
                    Slot::Child { node, .. } => {
                        assert(node.lookup(k) is Some);
                        assert(node.wf());
                        lemma_slot_of_in_range(*node, k);
                        let j = choose|j: int| 0 <= j < left.len() && left[j].0@ == k;
                        assert(all[j] == left[j]);
                    },
                    _ => {},
                }
            } else {
                let j = choose|j: int| 0 <= j < right.len() && right[j].0@ == k;
                assert(all[j + left.len()] == right[j]);
            }
        }
    } else {
        assert forall|k: K::V| n.lookup(k) is Some implies n.slot_of(k) < i by {}
    }
}

/// The pairs of a node are those before slot `i` and those from slot `i` on.
pub proof fn lemma_split_entries<K, V>(n: Node<K, V>, i: nat)
    requires
        i <= n.slots@.len(),
    ensures
        n.entries() == n.entries_upto(i) + n.entries_from(i),
    decreases i,
{
    if i > 0 {
        lemma_split_entries(n, (i - 1) as nat);
        assert(n.entries_from((i - 1) as nat) == n.slots@[i - 1].entries() + n.entries_from(i));
        assert(n.entries() =~= n.entries_upto(i) + n.entries_from(i));
    } else {
        assert(n.entries() =~= n.entries_upto(i) + n.entries_from(i));
    }
}

/// The pairs before slot `i` have keys that belong to slots before `i`.
pub proof fn lemma_entries_upto<K: Key, V>(n: Node<K, V>, i: nat)
    requires
        n.wf(),
        i <= n.slots@.len(),
    ensures
        forall|j: int|
            0 <= j < n.entries_upto(i).len() ==> n.slot_of((#[trigger] n.entries_upto(i)[j]).0@)
                < i,
    decreases i,
{
    if i > 0 {
        lemma_entries_upto(n, (i - 1) as nat);
        let s = n.slots@[i - 1];
        let (left, right) = (n.entries_upto((i - 1) as nat), s.entries());
        if let Slot::Child { node, .. } = s {
            lemma_entries_from(*node, 0);
        }
        assert forall|j: int| 0 <= j < n.entries_upto(i).len() implies n.slot_of(
            (#[trigger] n.entries_upto(i)[j]).0@,
        ) < i by {
            if j < left.len() {
                assert(n.entries_upto(i)[j] == left[j]);
            } else {
                let e = right[j - left.len()];
                assert(n.entries_upto(i)[j] == e);
                if let Slot::Child { node, .. } = s {
                    assert(e == node.entries_from(0)[j - left.len()]);
                    assert(node.lookup(e.0@) is Some);
                }
            }
        }
    }
}

/// The value that a slot leads to for a key that belongs to it.
pub open spec fn slot_lookup<K: Key, V>(s: Slot<K, V>, k: K::V) -> Option<V> {
    match s {
        Slot::Data(key, value) => if key@ == k {
            Some(value)
        } else {
            None
        },
        Slot::Child { node, .. } => node.lookup(k),
        _ => None,
    }
}

/// Replacing slot `i` by one that holds only keys of slot `i` keeps the node
/// well-formed and changes nothing for keys of other slots.
pub proof fn lemma_replace_slot<K: Key, V>(n: Node<K, V>, m: Node<K, V>, i: int, s: Slot<K, V>)
    requires
        n.wf(),
        m.predicts_like(n),
        0 <= i < n.slots@.len(),
        m.slots@ == n.slots@.update(i, s),
        match s {
            Slot::Data(key, _) => n.slot_of(key@) == i,
            Slot::Child { node, .. } => node.wf() && forall|k: K::V| #[trigger]
                node.lookup(k) is Some ==> n.slot_of(k) == i,
            _ => true,
        },
    ensures
        m.wf(),
        forall|k: K::V|
            #[trigger] m.lookup(k) == if n.slot_of(k) == i {
                slot_lookup(s, k)
            } else {
                n.lookup(k)
            },
{
    assert forall|k: K::V| m.slot_of(k) == n.slot_of(k) by {}
    assert forall|k: K::V| #[trigger] m.lookup(k) == if n.slot_of(k) == i {
        slot_lookup(s, k)
    } else {
        n.lookup(k)
    } by {
        lemma_slot_of_in_range(n, k);
    }
}

/// `after` is `before` with `k` set to `o`, where `None` stands for no value.
pub open spec fn sets<K: Key, V>(
    before: Node<K, V>,
    after: Node<K, V>,
    k: K::V,
    o: Option<V>,
) -> bool {
    &&& after.wf()
    &&& after.predicts_like(before)
    &&& forall|x: K::V| #[trigger]
        after.lookup(x) == if x == k {
            o
        } else {
            before.lookup(x)
        }
}

/// Replacing the slot of a key sets the key if it does so within the slot.
pub proof fn lemma_sets<K: Key, V>(
    before: Node<K, V>,
    after: Node<K, V>,
    i: int,
    s: Slot<K, V>,
    k: K::V,
    o: Option<V>,
)
    requires
        before.wf(),
        after.predicts_like(before),
        0 <= i < before.slots@.len(),
        after.slots@ == before.slots@.update(i, s),
        before.slot_of(k) == i,
        match s {
            Slot::Data(key, _) => before.slot_of(key@) == i,
            Slot::Child { node, .. } => node.wf() && forall|x: K::V| #[trigger]
                node.lookup(x) is Some ==> before.slot_of(x) == i,
            _ => true,
        },
        forall|x: K::V|
            before.slot_of(x) == i ==> #[trigger] slot_lookup(s, x) == if x == k {
                o
            } else {
                slot_lookup(before.slots@[i], x)
            },
    ensures
        sets(before, after, k, o),
{
    lemma_replace_slot(before, after, i, s);
    assert forall|x: K::V| #[trigger] after.lookup(x) == if x == k {
        o
    } else {
        before.lookup(x)
    } by {
        assert(before.slot_of(x) == i ==> before.lookup(x) == slot_lookup(before.slots@[i], x));
    }
}

/// Setting a key in the child of its slot sets it in the node.
pub proof fn lemma_sets_below<K: Key, V>(before: Node<K, V>, after: Node<K, V>, i: int, k: K::V)
    requires
        before.wf(),
        after.predicts_like(before),
        0 <= i < before.slots@.len(),
        before.slot_of(k) == i,
        before.slots@[i] is Child,
        after.slots@ == before.slots@.update(i, after.slots@[i]),
        after.slots@[i] is Child,
    ensures
        forall|o: Option<V>| #[trigger]
            sets(*before.slots@[i]->node, *after.slots@[i]->node, k, o) ==> sets(
                before,
                after,
                k,
                o,
            ),
{
    let (old_child, child) = (before.slots@[i]->node, after.slots@[i]->node);
    assert forall|o: Option<V>| #[trigger] sets(*old_child, *child, k, o) implies sets(
        before,
        after,
        k,
        o,
    ) by {
        assert forall|x: K::V| #[trigger] child.lookup(x) is Some implies before.slot_of(x)
            == i by {
            assert(x == k || old_child.lookup(x) is Some);
        }
        lemma_sets(before, after, i, after.slots@[i], k, o);
    }
}

impl<K: Key, V> Node<K, V> {
    /// All slots are empty and the counters are zero.
    pub open spec fn is_blank(self) -> bool {
        &&& forall|i: int| 0 <= i < self.slots@.len() ==> #[trigger] self.slots@[i] is Empty
        &&& self.num_keys == 0
        &&& self.num_tombstones == 0
    }

    /// The counters of the two nodes agree.
    pub open spec fn counts_like(self, other: Self) -> bool {
        self.num_keys == other.num_keys && self.num_tombstones == other.num_tombstones
    }

    /// Create a new node with the given model and array size, all slots empty.
    pub fn with_capacity(model: LinearModel, array_size: usize) -> (r: Self)
        ensures
            r.is_blank(),
            r.model == model,
            r.slots@.len() == array_size,
            r.split_key is None,
            r.has_child_room,
    {
        let mut slots: Vec<Slot<K, V>> = Vec::new();
        let mut i: usize = 0;
        while i < array_size
            invariant
                i <= array_size,
                slots@.len() == i,
                forall|j: int| 0 <= j < i ==> #[trigger] slots@[j] is Empty,
            decreases array_size - i,
        {
            slots.push(Slot::Empty);
            i += 1;
        }
        Node {
            model,
            slots,
            num_keys: 0,
            num_tombstones: 0,
            split_key: None,
            has_child_room: true,
        }
    }

    /// Create a node for keys that are known not to conflict.
    ///
    /// Room for children is set up only when a conflict needs one.
    pub fn with_capacity_leaf(model: LinearModel, array_size: usize) -> (r: Self)
        ensures
            r.is_blank(),
            r.model == model,
            r.slots@.len() == array_size,
            r.split_key is None,
            !r.has_child_room,
    {
        let mut node: Node<K, V> = Node::with_capacity(model, array_size);
        node.has_child_room = false;
        node
    }

    /// Create a node that splits keys by comparison against `boundary`.
    ///
    /// Keys of at most `boundary` predict to slot 0; keys above predict to the
    /// last slot.
    pub fn with_split_key(boundary: K, array_size: usize) -> (r: Self)
        ensures
            r.is_blank(),
            r.model.wf(),
            r.slots@.len() == array_size,
            r.split_key == Some(boundary),
            r.has_child_room,
    {
        let mut node: Node<K, V> = Node::with_capacity(LinearModel::constant(), array_size);
        node.split_key = Some(boundary);
        node
    }

    /// Predict the slot index for a key.
    pub fn predict_slot(&self, key: &K) -> (slot: usize)
        requires
            self.slots@.len() > 0,
            self.model.wf(),
        ensures
            slot == self.slot_of(key@),
            slot < self.slots@.len(),
    {
        predict_among(&self.model, &self.split_key, self.slots.len(), key)
    }

    /// Return the number of slots in this node.
    pub fn capacity(&self) -> (r: usize)
        ensures
            r == self.slots@.len(),
    {
        self.slots.len()
    }

    /// Store an inline key-value pair in an empty slot.
    pub fn store_data(&mut self, idx: usize, key: K, value: V)
        requires
            idx < old(self).slots@.len(),
            old(self).slots@[idx as int] is Empty,
        ensures
            final(self).slots@ == old(self).slots@.update(idx as int, Slot::Data(key, value)),
            final(self).predicts_like(*old(self)),
            final(self).counts_like(*old(self)),
            final(self).has_child_room == old(self).has_child_room,
    {
        self.slots[idx] = Slot::Data(key, value);
    }

    /// Store a child node in an empty slot.
    pub fn store_child(&mut self, idx: usize, child: Self)
        requires
            idx < old(self).slots@.len(),
            old(self).slots@[idx as int] is Empty,
        ensures
            final(self).slots@ == old(self).slots@.update(
                idx as int,
                Slot::Child { node: Box::new(child), stale: false },
            ),
            final(self).predicts_like(*old(self)),
            final(self).counts_like(*old(self)),
            final(self).has_child_room,
    {
        self.has_child_room = true;
        self.slots[idx] = Slot::Child { node: Box::new(child), stale: false };
    }

    /// The state of a slot.
    pub fn slot_state(&self, idx: usize) -> (r: u8)
        requires
            idx < self.slots@.len(),
        ensures
            r == self.slots@[idx as int].state(),
    {
        match &self.slots[idx] {
            Slot::Empty => SLOT_EMPTY,
            Slot::Data(_, _) => SLOT_DATA,
            Slot::Child { stale, .. } => if *stale {
                SLOT_CHILD_STALE
            } else {
                SLOT_CHILD
            },
            Slot::Tombstone => SLOT_TOMBSTONE,
        }
    }

    /// Read the inline key at the given slot, which must hold a pair.
    pub fn read_key(&self, idx: usize) -> (r: &K)
        requires
            idx < self.slots@.len(),
            self.slots@[idx as int] is Data,
        ensures
            *r == self.slots@[idx as int]->Data_0,
    {
        match &self.slots[idx] {
            Slot::Data(key, _) => key,
            _ => vstd::pervasive::unreached(),
        }
    }

    /// Read the inline value at the given slot, which must hold a pair.
    pub fn read_value(&self, idx: usize) -> (r: &V)
        requires
            idx < self.slots@.len(),
            self.slots@[idx as int] is Data,
        ensures
            *r == self.slots@[idx as int]->Data_1,
    {
        match &self.slots[idx] {
            Slot::Data(_, value) => value,
            _ => vstd::pervasive::unreached(),
        }
    }

    /// Load the child at the given slot, `None` if it holds no child.
    pub fn load_child(&self, idx: usize) -> (r: Option<&Self>)
        requires
            idx < self.slots@.len(),
        ensures
            r == match self.slots@[idx as int] {
                Slot::Child { node, .. } => Some(&*node),
                _ => None,
            },
    {
        match &self.slots[idx] {
            Slot::Child { node, .. } => Some(node),
            _ => None,
        }
    }

    /// Borrow the child in a slot, which must hold one.
    pub fn child_mut(&mut self, idx: usize) -> (r: &mut Self)
        requires
            idx < old(self).slots@.len(),
            old(self).slots@[idx as int] is Child,
        ensures
            *r == *old(self).slots@[idx as int]->node,
            final(self).slots@ == old(self).slots@.update(
                idx as int,
                Slot::Child {
                    node: Box::new(*final(r)),
                    stale: old(self).slots@[idx as int]->stale,
                },
            ),
            final(self).predicts_like(*old(self)),
            final(self).counts_like(*old(self)),
            final(self).has_child_room == old(self).has_child_room,
    {
        match &mut self.slots[idx] {
            Slot::Child { node, .. } => node,
            _ => vstd::pervasive::unreached(),
        }
    }

    /// Claim an empty slot for a key-value pair.
    ///
    /// Returns `true` on success, `false` if the slot was not empty.
    pub fn cas_empty_to_data(&mut self, idx: usize, key: K, value: V) -> (r: bool)
        requires
            idx < old(self).slots@.len(),
        ensures
            r == (old(self).slots@[idx as int] is Empty),
            r ==> final(self).slots@ == old(self).slots@.update(
                idx as int,
                Slot::Data(key, value),
            ),
            !r ==> final(self).slots@ == old(self).slots@,
            final(self).predicts_like(*old(self)),
            final(self).counts_like(*old(self)),
            final(self).has_child_room == old(self).has_child_room,
    {
        if let Slot::Empty = &self.slots[idx] {
            self.slots[idx] = Slot::Data(key, value);
            true
        } else {
            false
        }
    }

    /// Claim a removed slot for a new key-value pair.
    ///
    /// Returns `true` on success, `false` if the slot was not a tombstone.
    pub fn cas_tombstone_to_data(&mut self, idx: usize, key: K, value: V) -> (r: bool)
        requires
            idx < old(self).slots@.len(),
        ensures
            r == (old(self).slots@[idx as int] is Tombstone),
            r ==> final(self).slots@ == old(self).slots@.update(
                idx as int,
                Slot::Data(key, value),
            ),
            !r ==> final(self).slots@ == old(self).slots@,
            final(self).predicts_like(*old(self)),
            final(self).counts_like(*old(self)),
            final(self).has_child_room == old(self).has_child_room,
    {
        if let Slot::Tombstone = &self.slots[idx] {
            self.slots[idx] = Slot::Data(key, value);
            true
        } else {
            false
        }
    }

    /// Replace the pair in a slot by the given child node.
    ///
    /// Returns `true` on success, `false` if the slot held no pair.
    pub fn cas_data_to_child_stale(&mut self, idx: usize, child: Self) -> (r: bool)
        requires
            idx < old(self).slots@.len(),
        ensures
            r == (old(self).slots@[idx as int] is Data),
            r ==> final(self).slots@ == old(self).slots@.update(
                idx as int,
                Slot::Child { node: Box::new(child), stale: true },
            ),
            !r ==> final(self).slots@ == old(self).slots@,
            final(self).predicts_like(*old(self)),
            final(self).counts_like(*old(self)),
            final(self).has_child_room == (r || old(self).has_child_room),
    {
        if let Slot::Data(_, _) = &self.slots[idx] {
            self.has_child_room = true;
            self.slots[idx] = Slot::Child { node: Box::new(child), stale: true };
            true
        } else {
            false
        }
    }

    /// Move the pair out of a slot, which must hold one, leaving it empty.
    pub(crate) fn take_data(&mut self, idx: usize) -> (r: (K, V))
        requires
            idx < old(self).slots@.len(),
            old(self).slots@[idx as int] is Data,
        ensures
            old(self).slots@[idx as int] == Slot::Data(r.0, r.1),
            final(self).slots@ == old(self).slots@.update(idx as int, Slot::Empty),
            final(self).predicts_like(*old(self)),
            final(self).counts_like(*old(self)),
            final(self).has_child_room == old(self).has_child_room,
    {
        let mut slot: Slot<K, V> = Slot::Empty;
        core::mem::swap(&mut self.slots[idx], &mut slot);
        match slot {
            Slot::Data(key, value) => (key, value),
            _ => vstd::pervasive::unreached(),
        }
    }

    /// Remove the pair in a slot, leaving a tombstone.
    ///
    /// Returns `true` on success, `false` if the slot held no pair.
    pub fn cas_data_to_tombstone(&mut self, idx: usize) -> (r: bool)
        requires
            idx < old(self).slots@.len(),
        ensures
            r == (old(self).slots@[idx as int] is Data),
            r ==> final(self).slots@ == old(self).slots@.update(idx as int, Slot::Tombstone),
            !r ==> final(self).slots@ == old(self).slots@,
            final(self).predicts_like(*old(self)),
            final(self).counts_like(*old(self)),
            final(self).has_child_room == old(self).has_child_room,
    {
        if let Slot::Data(_, _) = &self.slots[idx] {
            self.slots[idx] = Slot::Tombstone;
            true
        } else {
            false
        }
    }

    /// Increment the approximate key count.
    pub fn inc_keys(&mut self)
        ensures
            final(self).num_keys == old(self).num_keys.wrapping_add(1),
            final(self).num_tombstones == old(self).num_tombstones,
            final(self).slots == old(self).slots,
            final(self).predicts_like(*old(self)),
            final(self).has_child_room == old(self).has_child_room,
    {
        self.num_keys = self.num_keys.wrapping_add(1);
    }

    /// Decrement the approximate key count.
    pub fn dec_keys(&mut self)
        ensures
            final(self).num_keys == old(self).num_keys.wrapping_sub(1),
            final(self).num_tombstones == old(self).num_tombstones,
            final(self).slots == old(self).slots,
            final(self).predicts_like(*old(self)),
            final(self).has_child_room == old(self).has_child_room,
    {
        self.num_keys = self.num_keys.wrapping_sub(1);
    }

    /// Increment the approximate tombstone count.
    pub fn inc_tombstones(&mut self)
        ensures
            final(self).num_tombstones == old(self).num_tombstones.wrapping_add(1),
            final(self).num_keys == old(self).num_keys,
            final(self).slots == old(self).slots,
            final(self).predicts_like(*old(self)),
            final(self).has_child_room == old(self).has_child_room,
    {
        self.num_tombstones = self.num_tombstones.wrapping_add(1);
    }

    /// The share of tombstones in this node is above `threshold`.
    pub open spec fn tombstones_above(self, threshold: Ratio) -> bool {
        self.num_tombstones * threshold.den > threshold.num * self.slots@.len()
    }

    /// The approximate ratio of tombstones to total capacity, as the
    /// tombstone count over the capacity.
    pub fn tombstone_ratio(&self) -> (r: (usize, usize))
        ensures
            r.0 == self.num_tombstones,
            r.1 == self.slots@.len(),
    {
        (self.num_tombstones, self.slots.len())
    }

    /// Whether the tombstone ratio is above `threshold`.
    pub fn tombstone_ratio_exceeds(&self, threshold: Ratio) -> (r: bool)
        ensures
            r == self.tombstones_above(threshold),
    {
        let (tombstones, capacity): (usize, usize) = self.tombstone_ratio();
        share_exceeds(tombstones, capacity, threshold)
    }
}

/// Whether `part` is more than the share `threshold` of `whole`.
pub fn share_exceeds(part: usize, whole: usize, threshold: Ratio) -> (r: bool)
    ensures
        r == (part * threshold.den > threshold.num * whole),
{
    assert(part * threshold.den <= 0xffff_ffff_ffff_ffff * 0xffff_ffff) by (nonlinear_arith)
        requires
            part <= 0xffff_ffff_ffff_ffff,
            threshold.den <= 0xffff_ffff,
    ;
    assert(threshold.num * whole <= 0xffff_ffff * 0xffff_ffff_ffff_ffff) by (nonlinear_arith)
        requires
            whole <= 0xffff_ffff_ffff_ffff,
            threshold.num <= 0xffff_ffff,
    ;
    part as u128 * threshold.den as u128 > threshold.num as u128 * whole as u128
}

/// A blank node holds nothing.
pub proof fn lemma_blank<K: Key, V>(n: Node<K, V>)
    requires
        n.is_blank(),
        n.slots@.len() > 0,
        n.model.wf(),
    ensures
        n.wf(),
        forall|k: K::V| #[trigger] n.lookup(k) is None,
{
    assert forall|k: K::V| #[trigger] n.lookup(k) is None by {
        lemma_slot_of_in_range(n, k);
    }
}

/// No node of the tree was replaced: every node is still in its place, with its
/// model and its number of slots.
pub open spec fn keeps_shape<K, V>(before: Node<K, V>, after: Node<K, V>) -> bool
    decreases before,
{
    &&& after.model == before.model
    &&& after.split_key == before.split_key
    &&& after.slots@.len() == before.slots@.len()
    &&& forall|i: int|
        #![trigger before.slots@[i]]
        0 <= i < before.slots@.len() ==> match before.slots@[i] {
            Slot::Child { node, .. } => after.slots@[i] is Child && keeps_shape(
                *node,
                *after.slots@[i]->node,
            ),
            _ => true,
        }
}

/// A tree keeps its shape if nothing changes.
pub proof fn lemma_same_shape<K, V>(n: Node<K, V>)
    ensures
        keeps_shape(n, n),
    decreases n,
{
    assert forall|i: int|
        #![trigger n.slots@[i]]
        0 <= i < n.slots@.len() implies match n.slots@[i] {
        Slot::Child { node, .. } => keeps_shape(*node, *node),
        _ => true,
    } by {
        if let Slot::Child { node, .. } = n.slots@[i] {
            lemma_same_shape(*node);
        }
    }
}

/// A tree keeps its shape if one slot changes that holds no child, or whose
/// child keeps its shape.
pub proof fn lemma_keeps_shape<K: Key, V>(before: Node<K, V>, after: Node<K, V>, i: int)
    requires
        after.predicts_like(before),
        0 <= i < before.slots@.len(),
        after.slots@ == before.slots@.update(i, after.slots@[i]),
        match before.slots@[i] {
            Slot::Child { node, .. } => after.slots@[i] is Child && keeps_shape(
                *node,
                *after.slots@[i]->node,
            ),
            _ => true,
        },
    ensures
        keeps_shape(before, after),
{
    assert forall|j: int|
        #![trigger before.slots@[j]]
        0 <= j < before.slots@.len() implies match before.slots@[j] {
        Slot::Child { node, .. } => after.slots@[j] is Child && keeps_shape(
            *node,
            *after.slots@[j]->node,
        ),
        _ => true,
    } by {
        if j != i {
            assert(after.slots@[j] == before.slots@[j]);
            if let Slot::Child { node, .. } = before.slots@[j] {
                lemma_same_shape(*node);
            }
        }
    }
}

/// The depth of a tree that keeps its shape does not fall.
pub proof fn lemma_shape_depth<K, V>(before: Node<K, V>, after: Node<K, V>, i: nat)
    requires
        keeps_shape(before, after),
    ensures
        depth_below(before, i) <= depth_below(after, i),
    decreases before, before.slots@.len() - i,
{
    if i < before.slots@.len() {
        lemma_shape_depth(before, after, i + 1);
        if let Slot::Child { node, .. } = before.slots@[i as int] {
            lemma_shape_depth(*node, *after.slots@[i as int]->node, 0);
        }
    }
}

/// A blank node has no children.
pub proof fn lemma_blank_size<K: Key, V>(n: Node<K, V>, i: nat)
    requires
        n.is_blank(),
    ensures
        depth_below(n, i) == 0,
        bytes_below(n, i) == 0,
    decreases n.slots@.len() + i,
{
    lemma_blank_depth(n, i);
    if 0 < i <= n.slots@.len() {
        lemma_blank_size(n, (i - 1) as nat);
        assert(n.slots@[i - 1] is Empty);
    }
}

/// A blank node has no children below it.
proof fn lemma_blank_depth<K: Key, V>(n: Node<K, V>, i: nat)
    requires
        n.is_blank(),
    ensures
        depth_below(n, i) == 0,
    decreases n.slots@.len() - i,
{
    if i < n.slots@.len() {
        lemma_blank_depth(n, i + 1);
        assert(n.slots@[i as int] is Empty);
    }
}

/// `n`, limited to the largest `usize`.
pub open spec fn capped(n: nat) -> usize {
    if n <= usize::MAX {
        n as usize
    } else {
        usize::MAX
    }
}

/// The product of two numbers, limited to the largest `usize`.
fn capped_product(a: usize, b: usize) -> (r: usize)
    ensures
        r == capped(a as nat * b as nat),
{
    match a.checked_mul(b) {
        Some(p) => p,
        None => usize::MAX,
    }
}

/// Limiting a factor first does not change a product.
proof fn lemma_capped_product(a: nat, b: nat)
    ensures
        capped(a * capped(b) as nat) == capped(a * b),
{
    if b > usize::MAX && a > 0 {
        assert(a * b >= b && a * usize::MAX as nat >= usize::MAX as nat) by (nonlinear_arith)
            requires
                a >= 1,
        ;
    }
}

/// Depth of the deepest child in the slots from `i` on, 0 if there is none.
pub open spec fn depth_below<K, V>(n: Node<K, V>, i: nat) -> nat
    decreases n, n.slots@.len() - i,
{
    if i < n.slots@.len() {
        let rest = depth_below(n, (i + 1) as nat);
        match n.slots@[i as int] {
            Slot::Child { node, .. } => if 1 + depth_below(*node, 0) > rest {
                1 + depth_below(*node, 0)
            } else {
                rest
            },
            _ => rest,
        }
    } else {
        0
    }
}

/// Estimated heap memory of the children in the slots before `i`.
pub open spec fn bytes_below<K, V>(n: Node<K, V>, i: nat) -> nat
    decreases n, i,
{
    if 0 < i <= n.slots@.len() {
        let rest = bytes_below(n, (i - 1) as nat);
        match n.slots@[i - 1] {
            Slot::Child { node, .. } => rest + bytes_of(*node),
            _ => rest,
        }
    } else {
        0
    }
}

/// Estimated heap memory of one slot: a byte for its state, a key, a value and,
/// if there is room for children, a pointer.
pub open spec fn slot_bytes<K, V>(has_child_room: bool) -> nat {
    1 + size_of::<K>() + size_of::<V>() + (if has_child_room {
        size_of::<usize>()
    } else {
        0
    })
}

/// Estimated heap memory of a node and all its descendants: the node itself,
/// its slots, and its children.
pub open spec fn bytes_of<K, V>(n: Node<K, V>) -> nat
    decreases n, n.slots@.len() + 1,
{
    size_of::<Node<K, V>>() + n.slots@.len() * slot_bytes::<K, V>(n.has_child_room) + bytes_below(
        n,
        n.slots@.len(),
    )
}

impl<K: Key, V> Node<K, V> {
    /// Count total keys stored in this node and all descendants, up to the
    /// largest `usize`.
    pub fn total_keys(&self) -> (r: usize)
        ensures
            r == capped(self.entries().len()),
    {
        let mut iter: Iter<'_, K, V> = Iter::new(self);
        let mut count: usize = 0;
        while iter.next().is_some()
            invariant
                iter.pending().len() <= self.entries().len(),
                count == capped((self.entries().len() - iter.pending().len()) as nat),
            ensures
                iter.pending().len() == 0,
            decreases iter.pending().len(),
        {
            count = count.saturating_add(1);
        }
        count
    }

    /// Estimate the total heap memory used by this node and all descendants, up
    /// to the largest `usize`.
    pub fn allocated_bytes(&self) -> (r: usize)
        ensures
            r == capped(bytes_of(*self)),
        decreases self,
    {
        let cap: usize = self.slots.len();
        let node_size: usize = core::mem::size_of::<Self>();
        let pointer_size: usize = if self.has_child_room {
            core::mem::size_of::<usize>()
        } else {
            0
        };
        let pair_size: usize = core::mem::size_of::<K>().saturating_add(core::mem::size_of::<V>());
        let slot_size: usize = pair_size.saturating_add(1).saturating_add(pointer_size);
        let ghost bytes = slot_bytes::<K, V>(self.has_child_room);
        proof {
            assert(slot_size == capped(bytes));
            lemma_capped_product(cap as nat, bytes);
        }
        let mut total: usize = node_size.saturating_add(capped_product(cap, slot_size));
        let mut i: usize = 0;
        while i < cap
            invariant
                i <= cap,
                cap == self.slots@.len(),
                bytes == slot_bytes::<K, V>(self.has_child_room),
                total == capped(
                    size_of::<Self>() + cap as nat * bytes + bytes_below(*self, i as nat),
                ),
            decreases cap - i,
        {
            if let Slot::Child { node, .. } = &self.slots[i] {
                total = total.saturating_add(node.allocated_bytes());
            }
            i += 1;
        }
        total
    }

    /// Return the depth of the deepest path from this node, up to the largest
    /// `usize`.
    pub fn max_depth(&self) -> (r: usize)
        ensures
            r == capped(1 + depth_below(*self, 0)),
        decreases self,
    {
        let mut max_child_depth: usize = 0;
        let mut i: usize = self.slots.len();
        while i > 0
            invariant
                i <= self.slots@.len(),
                max_child_depth == capped(depth_below(*self, i as nat)),
            decreases i,
        {
            i -= 1;
            if let Slot::Child { node, .. } = &self.slots[i] {
                let depth: usize = node.max_depth();
                if depth > max_child_depth {
                    max_child_depth = depth;
                }
            }
        }
        max_child_depth.saturating_add(1)
    }
}

/// A well-formed tree maps as many keys as it has pairs.
pub proof fn lemma_view_len<K: Key, V>(n: Node<K, V>)
    requires
        n.wf(),
    ensures
        n.view().dom().finite(),
        n.view().dom().len() == n.entries().len(),
{
    lemma_entries_from(n, 0);
    let keys = n.entries().map_values(|e: (K, V)| e.0@);
    assert forall|i: int, j: int| 0 <= i < j < keys.len() implies keys[i] != keys[j] by {
        assert(before::<K>(n.entries()[i].0@, n.entries()[j].0@));
    }
    keys.unique_seq_to_set();
    assert(n.view().dom() =~= keys.to_set()) by {
        assert forall|k: K::V| n.view().dom().contains(k) <==> keys.to_set().contains(k) by {
            if n.lookup(k) is Some {
                lemma_slot_of_in_range(n, k);
                let j = choose|j: int|
                    0 <= j < n.entries_from(0).len() && n.entries_from(0)[j].0@ == k;
                assert(keys[j] == k);
            }
            if keys.contains(k) {
                let j = choose|j: int| 0 <= j < keys.len() && keys[j] == k;
                assert(n.lookup(n.entries_from(0)[j].0@) is Some);
            }
        }
    }
}

} // verus!
