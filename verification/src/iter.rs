//! In-order iteration and range queries for the learned index tree.

use vstd::prelude::*;

use crate::build::copies;
use crate::key::{before, Key};
use crate::node::{
    ascending, lemma_entries_from, lemma_entries_upto, lemma_slot_of_monotone, lemma_split_entries,
    Node, Slot,
};

verus! {

/// Number of steps that a traversal of the slots from `i` on takes.
pub open spec fn steps_from<K, V>(n: Node<K, V>, i: nat) -> nat
    decreases n, n.slots@.len() - i,
{
    if i < n.slots@.len() {
        let below: nat = match n.slots@[i as int] {
            Slot::Child { node, .. } => steps_from(*node, 0),
            _ => 0,
        };
        1 + below + steps_from(n, (i + 1) as nat)
    } else {
        1
    }
}

/// Number of steps that are left for a traversal stack.
pub open spec fn stack_steps<K, V>(stack: Seq<(&Node<K, V>, usize)>) -> nat
    decreases stack.len(),
{
    if stack.len() == 0 {
        0
    } else {
        steps_from(*stack.last().0, stack.last().1 as nat) + stack_steps(stack.drop_last())
    }
}

/// The pairs that are left for a traversal stack, in the order of the visit.
pub open spec fn stack_entries<K, V>(stack: Seq<(&Node<K, V>, usize)>) -> Seq<(K, V)>
    decreases stack.len(),
{
    if stack.len() == 0 {
        Seq::empty()
    } else {
        stack.last().0.entries_from(stack.last().1 as nat) + stack_entries(stack.drop_last())
    }
}

/// An iterator over the key-value pairs in a learned index in sorted order.
///
/// The left-to-right traversal produces keys in ascending order because
/// predictions follow the key order and the child at slot `s` contains only
/// keys whose predicted position is `s`.
pub struct Iter<'a, K, V> {
    /// Stack of (node, next slot index) for the traversal.
    pub stack: Vec<(&'a Node<K, V>, usize)>,
    /// Approximate remaining entries, used for `size_hint`.
    pub remaining: Option<usize>,
}

impl<'a, K: Key, V> Iter<'a, K, V> {
    /// The pairs that the iterator has yet to yield.
    pub open spec fn pending(self) -> Seq<(K, V)> {
        stack_entries(self.stack@)
    }

    /// Create a new iterator starting from the root node.
    pub fn new(root: &'a Node<K, V>) -> (r: Self)
        ensures
            r.pending() == root.entries(),
            r.remaining is None,
    {
        let mut stack: Vec<(&'a Node<K, V>, usize)> = Vec::new();
        stack.push((root, 0));
        proof {
            lemma_push(Seq::<(&Node<K, V>, usize)>::empty(), (root, 0usize));
            assert(stack@ == Seq::<(&Node<K, V>, usize)>::empty().push((root, 0usize)));
        }
        Iter { stack, remaining: None }
    }

    /// Create a new iterator with an approximate entry count hint.
    ///
    /// The hint is reported by [`size_hint`](Self::size_hint). It does not
    /// need to be exact.
    pub fn with_hint(root: &'a Node<K, V>, count: usize) -> (r: Self)
        ensures
            r.pending() == root.entries(),
            r.remaining == Some(count),
    {
        let mut iter: Iter<'a, K, V> = Iter::new(root);
        iter.remaining = Some(count);
        iter
    }

    /// Yield the next key-value pair, `None` at the end.
    pub fn next(&mut self) -> (r: Option<(&'a K, &'a V)>)
        ensures
            match r {
                Some(e) => {
                    &&& old(self).pending().len() > 0
                    &&& *e.0 == old(self).pending()[0].0
                    &&& *e.1 == old(self).pending()[0].1
                    &&& final(self).pending() == old(self).pending().drop_first()
                    &&& final(self).remaining == match old(self).remaining {
                        Some(n) => Some(if n > 0 {
                            (n - 1) as usize
                        } else {
                            0
                        }),
                        None => None,
                    }
                },
                None => {
                    &&& old(self).pending().len() == 0
                    &&& final(self).pending().len() == 0
                    &&& final(self).remaining == old(self).remaining
                },
            },
    {
        match next_entry(&mut self.stack) {
            Some(e) => {
                if let Some(n) = self.remaining {
                    self.remaining = Some(
                        if n > 0 {
                            n - 1
                        } else {
                            0
                        },
                    );
                }
                Some(e)
            },
            None => None,
        }
    }

    /// The hint on the number of remaining entries.
    pub fn size_hint(&self) -> (r: (usize, Option<usize>))
        ensures
            r == match self.remaining {
                Some(n) => (n, Some(n)),
                None => (0usize, None::<usize>),
            },
    {
        match self.remaining {
            Some(n) => (n, Some(n)),
            None => (0, None),
        }
    }
}

/// Pushing a frame puts its pairs in front.
proof fn lemma_push<K, V>(stack: Seq<(&Node<K, V>, usize)>, frame: (&Node<K, V>, usize))
    ensures
        stack_entries(stack.push(frame)) == frame.0.entries_from(frame.1 as nat) + stack_entries(
            stack,
        ),
        stack_steps(stack.push(frame)) == steps_from(*frame.0, frame.1 as nat) + stack_steps(stack),
{
    assert(stack.push(frame).drop_last() =~= stack);
}

/// Advance a traversal to the next pair.
fn next_entry<'a, K, V>(stack: &mut Vec<(&'a Node<K, V>, usize)>) -> (r: Option<(&'a K, &'a V)>)
    ensures
        match r {
            Some(e) => {
                let pending = stack_entries(old(stack)@);
                &&& pending.len() > 0
                &&& *e.0 == pending[0].0
                &&& *e.1 == pending[0].1
                &&& stack_entries(final(stack)@) == pending.drop_first()
            },
            None => {
                &&& stack_entries(old(stack)@).len() == 0
                &&& stack_entries(final(stack)@).len() == 0
            },
        },
{
    loop
        invariant
            stack_entries(stack@) == stack_entries(old(stack)@),
        decreases stack_steps(stack@),
    {
        let ghost before_step = stack@;
        match stack.pop() {
            None => {
                return None;
            },
            Some((node, idx)) => {
                assert(stack@ =~= before_step.drop_last());
                if idx < node.slots.len() {
                    proof {
                        let ghost_slot = node.slots@[idx as int];
                        assert(node.entries_from(idx as nat) == ghost_slot.entries()
                            + node.entries_from((idx + 1) as nat));
                        assert(ghost_slot.entries() == match ghost_slot {
                            Slot::Data(k, v) => seq![(k, v)],
                            Slot::Child { node: c, .. } => c.entries_from(0),
                            _ => Seq::empty(),
                        });
                        lemma_push(stack@, (node, (idx + 1) as usize));
                    }
                    stack.push((node, idx + 1));
                    match &node.slots[idx] {
                        Slot::Data(key, value) => {
                            proof {
                                let pending = stack_entries(before_step);
                                assert(pending =~= seq![(*key, *value)] + stack_entries(stack@));
                                assert(pending.drop_first() =~= stack_entries(stack@));
                            }
                            return Some((key, value));
                        },
                        Slot::Child { node: child, .. } => {
                            let child: &'a Node<K, V> = child;
                            proof {
                                lemma_push(stack@, (child, 0usize));
                            }
                            stack.push((child, 0));
                            assert(stack_entries(stack@) =~= stack_entries(before_step));
                        },
                        _ => {
                            assert(stack_entries(stack@) =~= stack_entries(before_step));
                        },
                    }
                } else {
                    assert(stack_entries(stack@) =~= stack_entries(before_step));
                }
            },
        }
    }
}

/// Collect copies of all key-value pairs of a tree in sorted order.
pub fn sorted_pairs<K: Key, V: Clone>(root: &Node<K, V>) -> (r: Vec<(K, V)>)
    ensures
        copies(root.entries(), r@),
{
    let mut iter: Iter<'_, K, V> = Iter::new(root);
    let mut pairs: Vec<(K, V)> = Vec::new();
    loop
        invariant
            pairs@.len() + iter.pending().len() == root.entries().len(),
            iter.pending() == root.entries().skip(pairs@.len() as int),
            copies(root.entries().take(pairs@.len() as int), pairs@),
        ensures
            copies(root.entries(), pairs@),
        decreases iter.pending().len(),
    {
        let ghost done = pairs@.len() as int;
        match iter.next() {
            Some((key, value)) => {
                pairs.push((key.duplicate(), value.clone()));
                proof {
                    let (shorter, longer) = (
                        root.entries().take(done),
                        root.entries().take(done + 1),
                    );
                    assert forall|i: int| 0 <= i < longer.len() implies (#[trigger] pairs@[i]).0@
                        == longer[i].0@ && cloned(longer[i].1, pairs@[i].1) by {
                        if i < done {
                            assert(shorter[i] == longer[i]);
                        }
                    }
                    assert(root.entries().skip(done).drop_first() =~= root.entries().skip(done + 1));
                }
            },
            None => {
                assert(root.entries().take(done) =~= root.entries());
                break;
            },
        }
    }
    pairs
}

/// The pairs below a stack of slots, from the top of the stack on.
spec fn slots_entries<K, V>(stack: Seq<Slot<K, V>>) -> Seq<(K, V)>
    decreases stack.len(),
{
    if stack.len() == 0 {
        Seq::empty()
    } else {
        stack.last().entries() + slots_entries(stack.drop_last())
    }
}

/// Number of steps for taking a stack of slots apart.
spec fn slots_steps<K, V>(stack: Seq<Slot<K, V>>) -> nat
    decreases stack.len(),
{
    if stack.len() == 0 {
        0
    } else {
        let below: nat = match stack.last() {
            Slot::Child { node, .. } => steps_from(*node, 0),
            _ => 0,
        };
        1 + below + slots_steps(stack.drop_last())
    }
}

/// Take a subtree apart into its key-value pairs in sorted order.
pub(crate) fn into_pairs<K, V>(root: Node<K, V>) -> (r: Vec<(K, V)>)
    ensures
        r@ == root.entries(),
{
    let mut pairs: Vec<(K, V)> = Vec::new();
    let mut stack: Vec<Slot<K, V>> = Vec::new();
    stack.push(Slot::Child { node: Box::new(root), stale: false });
    proof {
        let slot = Slot::Child { node: Box::new(root), stale: false };
        assert(stack@.drop_last() =~= Seq::empty());
        assert(slots_entries(stack@) == slot.entries() + slots_entries(stack@.drop_last()));
        assert(slot.entries() == root.entries_from(0));
        assert(slots_entries(stack@) =~= root.entries());
    }
    loop
        invariant
            pairs@ + slots_entries(stack@) == root.entries(),
        ensures
            pairs@ == root.entries(),
        decreases slots_steps(stack@),
    {
        let ghost (done, above) = (pairs@, stack@);
        match stack.pop() {
            None => {
                assert(pairs@ =~= root.entries());
                break;
            },
            Some(slot) => {
                assert(stack@ =~= above.drop_last());
                match slot {
                    Slot::Data(key, value) => {
                        pairs.push((key, value));
                        proof {
                            assert(slot.entries() =~= seq![(key, value)]);
                            assert(pairs@ + slots_entries(stack@) =~= done + slots_entries(above));
                        }
                    },
                    Slot::Child { node, .. } => {
                        let ghost child = *node;
                        let ghost below = stack@;
                        let mut node: Node<K, V> = *node;
                        assert(slot.entries() == child.entries_from(0));
                        while node.slots.len() > 0
                            invariant
                                node.slots@.len() <= child.slots@.len(),
                                node.slots@ == child.slots@.take(node.slots@.len() as int),
                                slots_entries(stack@) == child.entries_from(
                                    node.slots@.len(),
                                ) + slots_entries(below),
                                slots_steps(stack@) + 1 == steps_from(child, node.slots@.len())
                                    + slots_steps(below),
                            decreases node.slots@.len(),
                        {
                            let ghost len = node.slots@.len();
                            let ghost over = stack@;
                            match node.slots.pop() {
                                Some(inner) => {
                                    stack.push(inner);
                                    proof {
                                        assert(stack@.drop_last() =~= over);
                                        assert(inner == child.slots@[len - 1]);
                                        assert(child.entries_from((len - 1) as nat)
                                            == inner.entries() + child.entries_from(len));
                                        assert(slots_entries(stack@) =~= child.entries_from(
                                            (len - 1) as nat,
                                        ) + slots_entries(below));
                                        assert(node.slots@ =~= child.slots@.take(len - 1));
                                    }
                                },
                                None => {},
                            }
                        }
                        assert(pairs@ + slots_entries(stack@) =~= done + slots_entries(above));
                    },
                    _ => {
                        assert(pairs@ + slots_entries(stack@) =~= done + slots_entries(above));
                    },
                }
            },
        }
    }
    pairs
}

/// An end point of a range of keys.
pub enum Bound<K> {
    /// The range ends at this key and holds it.
    Included(K),
    /// The range ends at this key and does not hold it.
    Excluded(K),
    /// The range does not end.
    Unbounded,
}

/// The key is not before the lower end point.
pub open spec fn after_start<K: Key>(start: Bound<K>, k: K::V) -> bool {
    match start {
        Bound::Included(b) => K::ordered(b@, k),
        Bound::Excluded(b) => before::<K>(b@, k),
        Bound::Unbounded => true,
    }
}

/// The key is not past the upper end point.
pub open spec fn before_end<K: Key>(end: Bound<K>, k: K::V) -> bool {
    match end {
        Bound::Included(b) => K::ordered(k, b@),
        Bound::Excluded(b) => before::<K>(k, b@),
        Bound::Unbounded => true,
    }
}

/// The test for pairs with a key between the end points.
pub open spec fn in_range<K: Key, V>(start: Bound<K>, end: Bound<K>) -> spec_fn((K, V)) -> bool {
    |e: (K, V)| after_start(start, e.0@) && before_end(end, e.0@)
}

/// A range iterator over key-value pairs in a learned index.
///
/// Yields only entries whose keys fall within the specified bounds, in
/// ascending key order. Uses model-guided seek for initialization when the
/// start bound is specified.
pub struct Range<'a, K, V> {
    /// Stack of (node, next slot index) for the traversal.
    pub stack: Vec<(&'a Node<K, V>, usize)>,
    /// Lower bound of the range.
    pub start: Bound<K>,
    /// Upper bound of the range.
    pub end: Bound<K>,
    /// Whether the traversal is past the start bound.
    pub started: bool,
    /// Whether the traversal is past the end bound.
    pub done: bool,
}

impl<'a, K: Key, V> Range<'a, K, V> {
    /// The traversal is in key order, and past the start bound once started.
    pub open spec fn wf(self) -> bool {
        let left = stack_entries(self.stack@);
        &&& ascending(left)
        &&& self.started ==> forall|i: int|
            0 <= i < left.len() ==> after_start(self.start, (#[trigger] left[i]).0@)
    }

    /// The pairs that the iterator has yet to yield.
    pub open spec fn pending(self) -> Seq<(K, V)> {
        if self.done {
            Seq::empty()
        } else {
            stack_entries(self.stack@).filter(in_range(self.start, self.end))
        }
    }

    /// Create a new range iterator over the given bounds.
    pub fn new(root: &'a Node<K, V>, start: Bound<K>, end: Bound<K>) -> (r: Self)
        requires
            root.wf(),
        ensures
            r.wf(),
            r.pending() == root.entries().filter(in_range(start, end)),
    {
        let mut stack: Vec<(&'a Node<K, V>, usize)> = Vec::new();
        let started: bool = match &start {
            Bound::Unbounded => true,
            _ => false,
        };
        let ghost all = root.entries();
        let ghost mut skipped: int = 0;
        match &start {
            Bound::Included(key) | Bound::Excluded(key) => {
                let Ghost(n) = seek_to(&mut stack, root, key);
                proof {
                    skipped = n;
                }
            },
            Bound::Unbounded => {
                proof {
                    lemma_push(Seq::<(&Node<K, V>, usize)>::empty(), (root, 0usize));
                }
                stack.push((root, 0));
                assert(stack@ =~= Seq::<(&Node<K, V>, usize)>::empty().push((root, 0usize)));
                assert(all.skip(0) =~= all);
            },
        }
        proof {
            lemma_entries_from(*root, 0);
            let left = stack_entries(stack@);
            assert forall|a: int, b: int| 0 <= a < b < left.len() implies before::<K>(
                #[trigger] left[a].0@,
                #[trigger] left[b].0@,
            ) by {
                assert(left[a] == all[skipped + a] && left[b] == all[skipped + b]);
            }
            let p = in_range::<K, V>(start, end);
            assert forall|i: int| 0 <= i < all.take(skipped).len() implies !p(
                #[trigger] all.take(skipped)[i],
            ) by {
                let k = match start {
                    Bound::Included(key) => key@,
                    Bound::Excluded(key) => key@,
                    Bound::Unbounded => all[i].0@,
                };
                K::lemma_order(all[i].0@, k, k);
            }
            lemma_filter_none(all.take(skipped), p);
            assert(all.take(skipped) + left =~= all);
            Seq::filter_distributes_over_add(all.take(skipped), left, p);
            assert(all.filter(p) =~= left.filter(p));
        }
        Range { stack, start, end, started, done: false }
    }

    /// Check if a key is past the end bound.
    fn past_end(&self, key: &K) -> (r: bool)
        ensures
            r == !before_end(self.end, key@),
    {
        is_past_end(&self.end, key)
    }

    /// Check if a key is before the start bound.
    fn before_start(&self, key: &K) -> (r: bool)
        ensures
            r == !after_start(self.start, key@),
    {
        is_before_start(&self.start, key)
    }

    /// Yield the next key-value pair within the bounds, `None` at the end.
    pub fn next(&mut self) -> (r: Option<(&'a K, &'a V)>)
        requires
            old(self).wf(),
        ensures
            final(self).wf(),
            match r {
                Some(e) => {
                    &&& old(self).pending().len() > 0
                    &&& *e.0 == old(self).pending()[0].0
                    &&& *e.1 == old(self).pending()[0].1
                    &&& final(self).pending() == old(self).pending().drop_first()
                },
                None => {
                    &&& old(self).pending().len() == 0
                    &&& final(self).pending().len() == 0
                },
            },
    {
        if self.done {
            return None;
        }
        let ghost p = in_range::<K, V>(self.start, self.end);
        loop
            invariant
                self.wf(),
                !self.done,
                p == in_range::<K, V>(self.start, self.end),
                !old(self).done,
                old(self).wf(),
                self.pending() == old(self).pending(),
            decreases stack_entries(self.stack@).len(),
        {
            let ghost left = stack_entries(self.stack@);
            proof {
                if left.len() > 0 {
                    assert(left =~= seq![left[0]] + left.drop_first());
                    left.lemma_filter_eq_filter_alt(p);
                    assert(left.first() == left[0]);
                    assert forall|i: int| 0 < i < left.len() implies before::<K>(
                        left[0].0@,
                        (#[trigger] left[i]).0@,
                    ) by {
                    }
                    assert forall|a: int, b: int|
                        0 <= a < b < left.drop_first().len() implies before::<K>(
                        #[trigger] left.drop_first()[a].0@,
                        #[trigger] left.drop_first()[b].0@,
                    ) by {
                        assert(left[a + 1].0@ == left.drop_first()[a].0@);
                        assert(left[b + 1].0@ == left.drop_first()[b].0@);
                    }
                    assert(ascending(left.drop_first()));
                    lemma_bounds_follow_order(left, self.start, self.end);
                }
            }
            match next_entry(&mut self.stack) {
                Some((key, value)) => {
                    if self.past_end(key) {
                        self.done = true;
                        proof {
                            lemma_filter_none(left, p);
                        }
                        return None;
                    }
                    if !self.started {
                        if self.before_start(key) {
                            continue ;
                        }
                        self.started = true;
                    }
                    proof {
                        assert(p(left[0]));
                        assert(left.filter(p) =~= seq![left[0]] + left.drop_first().filter(p));
                        assert(left.filter(p).drop_first() =~= left.drop_first().filter(p));
                    }
                    return Some((key, value));
                },
                None => {
                    proof {
                        reveal_with_fuel(Seq::filter, 1);
                    }
                    return None;
                },
            }
        }
    }
}

/// A sequence of which no element passes the test has nothing left.
proof fn lemma_filter_none<A>(s: Seq<A>, p: spec_fn(A) -> bool)
    requires
        forall|i: int| 0 <= i < s.len() ==> !p(#[trigger] s[i]),
    ensures
        s.filter(p).len() == 0,
{
    broadcast use vstd::seq_lib::group_filter_ensures;

    if s.filter(p).len() > 0 {
        let e = s.filter(p)[0];
        assert(p(e));
        assert(s.filter(p).contains(e));
        s.lemma_filter_contains_rev(p, e);
        let i = choose|i: int| 0 <= i < s.len() && s[i] == e;
        assert(!p(s[i]));
    }
}

/// What follows a key that is past an end point is past it too.
proof fn lemma_bounds_follow_order<K: Key, V>(s: Seq<(K, V)>, start: Bound<K>, end: Bound<K>)
    requires
        s.len() > 0,
        ascending(s),
    ensures
        after_start(start, s[0].0@) ==> forall|i: int|
            0 <= i < s.len() ==> after_start(start, (#[trigger] s[i]).0@),
        !before_end(end, s[0].0@) ==> forall|i: int|
            0 <= i < s.len() ==> !before_end(end, (#[trigger] s[i]).0@),
{
    assert forall|i: int| 0 <= i < s.len() implies (after_start(start, s[0].0@) ==> after_start(
        start,
        (#[trigger] s[i]).0@,
    )) && (!before_end(end, s[0].0@) ==> !before_end(end, s[i].0@)) by {
        if i > 0 {
            let (x, y) = (s[0].0@, s[i].0@);
            assert(before::<K>(x, y));
            match start {
                Bound::Included(b) | Bound::Excluded(b) => {
                    K::lemma_order(b@, x, y);
                    K::lemma_order(x, y, b@);
                    K::lemma_order(y, b@, x);
                },
                Bound::Unbounded => {},
            }
            match end {
                Bound::Included(b) | Bound::Excluded(b) => {
                    K::lemma_order(x, y, b@);
                    K::lemma_order(y, b@, x);
                    K::lemma_order(b@, x, y);
                },
                Bound::Unbounded => {},
            }
        }
    }
}

/// Whether a key is past an end bound.
pub fn is_past_end<K: Key>(end: &Bound<K>, key: &K) -> (r: bool)
    ensures
        r == !before_end(*end, key@),
{
    match end {
        Bound::Included(end) => !key.le(end),
        Bound::Excluded(end) => {
            proof {
                K::lemma_order(end@, key@, end@);
                K::lemma_order(key@, end@, key@);
            }
            end.le(key)
        },
        Bound::Unbounded => false,
    }
}

/// Whether a key is before a start bound.
pub fn is_before_start<K: Key>(start: &Bound<K>, key: &K) -> (r: bool)
    ensures
        r == !after_start(*start, key@),
{
    match start {
        Bound::Included(start) => !start.le(key),
        Bound::Excluded(start) => {
            proof {
                K::lemma_order(start@, key@, start@);
                K::lemma_order(key@, start@, key@);
            }
            key.le(start)
        },
        Bound::Unbounded => false,
    }
}

/// Set up a traversal that starts at the predicted position of `key`.
///
/// At each level, predicts the slot for `key` and pushes the node starting at
/// that slot. If the slot contains a child, pushes a continuation for the
/// parent at the next slot and goes on in the child. The number of pairs that
/// the traversal leaves out, all of them with smaller keys, is the result.
fn seek_to<'a, K: Key, V>(
    stack: &mut Vec<(&'a Node<K, V>, usize)>,
    node: &'a Node<K, V>,
    key: &K,
) -> (r: Ghost<int>)
    requires
        node.wf(),
        old(stack)@.len() == 0,
    ensures
        0 <= r@ <= node.entries().len(),
        stack_entries(final(stack)@) == node.entries().skip(r@),
        forall|i: int|
            0 <= i < r@ ==> before::<K>((#[trigger] node.entries()[i]).0@, key@),
{
    let mut current: &'a Node<K, V> = node;
    let ghost mut skipped: Seq<(K, V)> = Seq::empty();
    let ghost all = node.entries();
    assert(skipped + (current.entries() + stack_entries(stack@)) =~= all);
    loop
        invariant
            all == node.entries(),
            current.wf(),
            skipped + (current.entries() + stack_entries(stack@)) == all,
            forall|i: int|
                0 <= i < skipped.len() ==> before::<K>((#[trigger] skipped[i]).0@, key@),
        decreases current,
    {
        let p: usize = current.predict_slot(key);
        let ghost (gone, here, later) = (skipped, *current, stack_entries(stack@));
        proof {
            lemma_split_entries(here, p as nat);
            lemma_entries_upto(here, p as nat);
            let left = here.entries_upto(p as nat);
            assert(here.entries_from(p as nat) == here.slots@[p as int].entries()
                + here.entries_from((p + 1) as nat));
            skipped = skipped + left;
            assert forall|i: int| 0 <= i < skipped.len() implies before::<K>(
                (#[trigger] skipped[i]).0@,
                key@,
            ) by {
                if i < gone.len() {
                    assert(skipped[i] == gone[i]);
                } else {
                    let e = left[i - gone.len()];
                    assert(skipped[i] == e);
                    K::lemma_order(e.0@, key@, e.0@);
                    if K::ordered(key@, e.0@) {
                        lemma_slot_of_monotone(here, key@, e.0@);
                    }
                }
            }
        }
        match &current.slots[p] {
            Slot::Child { node: child, .. } => {
                let child: &'a Node<K, V> = child;
                proof {
                    assert(p < current.slots.len());
                    lemma_push(stack@, (current, (p + 1) as usize));
                    assert(here.slots@[p as int].entries() == child.entries_from(0));
                }
                stack.push((current, p + 1));
                current = child;
                assert(skipped + (current.entries() + stack_entries(stack@)) =~= all);
            },
            _ => {
                proof {
                    lemma_push(stack@, (current, p));
                }
                stack.push((current, p));
                proof {
                    assert(skipped + stack_entries(stack@) =~= all);
                    assert(all.skip(skipped.len() as int) =~= stack_entries(stack@));
                    assert forall|i: int| 0 <= i < skipped.len() implies before::<K>(
                        (#[trigger] all[i]).0@,
                        key@,
                    ) by {
                        assert(all[i] == skipped[i]);
                    }
                }
                return Ghost(skipped.len() as int);
            },
        }
    }
}

/// Return the first (minimum) key-value pair in the tree.
///
/// Returns `None` if the tree is empty.
pub fn first_entry<'a, K: Key, V>(root: &'a Node<K, V>) -> (r: Option<(&'a K, &'a V)>)
    ensures
        match r {
            Some(e) => root.entries().len() > 0 && *e.0 == root.entries()[0].0 && *e.1
                == root.entries()[0].1,
            None => root.entries().len() == 0,
        },
{
    let mut iter: Iter<'a, K, V> = Iter::new(root);
    iter.next()
}

/// Number of steps that a backward traversal of the slots before `i` takes.
spec fn steps_upto<K, V>(n: Node<K, V>, i: nat) -> nat
    decreases n, i,
{
    if 0 < i <= n.slots@.len() {
        let below: nat = match n.slots@[i - 1] {
            Slot::Child { node, .. } => steps_upto(*node, node.slots@.len()),
            _ => 0,
        };
        1 + below + steps_upto(n, (i - 1) as nat)
    } else {
        1
    }
}

/// Number of steps that are left for a backward traversal stack.
spec fn stack_steps_back<K, V>(stack: Seq<(&Node<K, V>, usize)>) -> nat
    decreases stack.len(),
{
    if stack.len() == 0 {
        0
    } else {
        steps_upto(*stack.last().0, stack.last().1 as nat) + stack_steps_back(stack.drop_last())
    }
}

/// The pairs that are left for a backward traversal stack, left to right.
spec fn stack_entries_back<K, V>(stack: Seq<(&Node<K, V>, usize)>) -> Seq<(K, V)>
    decreases stack.len(),
{
    if stack.len() == 0 {
        Seq::empty()
    } else {
        stack_entries_back(stack.drop_last()) + stack.last().0.entries_upto(stack.last().1 as nat)
    }
}

/// Pushing a frame puts its pairs at the end.
proof fn lemma_push_back<K, V>(stack: Seq<(&Node<K, V>, usize)>, frame: (&Node<K, V>, usize))
    ensures
        stack_entries_back(stack.push(frame)) == stack_entries_back(stack)
            + frame.0.entries_upto(frame.1 as nat),
        stack_steps_back(stack.push(frame)) == steps_upto(*frame.0, frame.1 as nat)
            + stack_steps_back(stack),
{
    assert(stack.push(frame).drop_last() =~= stack);
}

/// All pairs of a node are before the end of its slots.
proof fn lemma_entries_upto_end<K, V>(n: Node<K, V>)
    ensures
        n.entries_upto(n.slots@.len()) == n.entries(),
{
    lemma_split_entries(n, n.slots@.len());
    assert(n.entries_from(n.slots@.len()) =~= Seq::empty());
    assert(n.entries_upto(n.slots@.len()) =~= n.entries());
}

/// Return the last (maximum) key-value pair in the tree.
///
/// Scans slots right-to-left at each level, following the rightmost non-empty
/// slot, and goes back to the left of a child that turns out to hold nothing.
/// Returns `None` if the tree is empty.
pub fn last_entry<'a, K: Key, V>(root: &'a Node<K, V>) -> (r: Option<(&'a K, &'a V)>)
    ensures
        match r {
            Some(e) => root.entries().len() > 0 && *e.0 == root.entries().last().0 && *e.1
                == root.entries().last().1,
            None => root.entries().len() == 0,
        },
{
    let mut stack: Vec<(&'a Node<K, V>, usize)> = Vec::new();
    proof {
        lemma_push_back(stack@, (root, root.slots.len()));
        lemma_entries_upto_end(*root);
        assert(stack_entries_back(stack@) + root.entries() =~= root.entries());
    }
    stack.push((root, root.slots.len()));
    loop
        invariant
            stack_entries_back(stack@) == root.entries(),
            forall|i: int|
                0 <= i < stack@.len() ==> (#[trigger] stack@[i]).1 <= stack@[i].0.slots@.len(),
        decreases stack_steps_back(stack@),
    {
        let ghost before_step = stack@;
        match stack.pop() {
            None => {
                return None;
            },
            Some((node, idx)) => {
                proof {
                    assert(before_step =~= stack@.push((node, idx)));
                    lemma_push_back(stack@, (node, idx));
                    assert(before_step[before_step.len() - 1].1 <= node.slots@.len());
                }
                if idx > 0 {
                    let i: usize = idx - 1;
                    let ghost s = node.slots@[i as int];
                    proof {
                        lemma_push_back(stack@, (node, i));
                        assert(node.entries_upto(idx as nat) == node.entries_upto(i as nat)
                            + s.entries());
                        assert(s.entries() == match s {
                            Slot::Data(k, v) => seq![(k, v)],
                            Slot::Child { node: c, .. } => c.entries_from(0),
                            _ => Seq::empty(),
                        });
                    }
                    stack.push((node, i));
                    assert(root.entries() =~= stack_entries_back(stack@) + s.entries());
                    match &node.slots[i] {
                        Slot::Data(key, value) => {
                            assert(root.entries().last() == (*key, *value));
                            return Some((key, value));
                        },
                        Slot::Child { node: child, .. } => {
                            let child: &'a Node<K, V> = child;
                            proof {
                                lemma_push_back(stack@, (child, child.slots.len()));
                                lemma_entries_upto_end(*child);
                            }
                            stack.push((child, child.slots.len()));
                        },
                        _ => {
                            assert(stack_entries_back(stack@) =~= root.entries());
                        },
                    }
                } else {
                    assert(stack_entries_back(stack@) =~= root.entries());
                }
            },
        }
    }
}

} // verus!
