//! What handles of maps promise: they do what the map does.

use vstd::prelude::*;

use crate::iter::{Bound, Iter, Range};
use crate::key::Key;
use crate::map::{law_iteration_is_sorted_and_complete, EpochGuard, LearnedMap, MapRef};

verus! {

/// A handle is for the map that it was made from.
pub proof fn law_handles_are_for_their_map<'a, K: Key, V>(
    m: &'a mut LearnedMap<K, V>,
    h: MapRef<'a, K, V>,
)
    requires
        call_ensures(LearnedMap::<K, V>::pin, (m,), h),
    ensures
        h.target() == *old(m),
        *final(m) == *final(h.map),
{
}

/// A handle answers as its map does.
pub proof fn law_handles_answer_like_the_map<'a, K: Key, V>(
    h: &MapRef<'a, K, V>,
    g: &EpochGuard,
    k: &K,
    found: (Option<&V>, Option<&V>),
    has: (bool, bool),
    len: (usize, usize),
    empty: (bool, bool),
    bytes: (usize, usize),
    depth: (usize, usize),
)
    requires
        call_ensures(MapRef::<'a, K, V>::get, (h, k), found.0),
        call_ensures(LearnedMap::<K, V>::get, (&h.target(), k, g), found.1),
        call_ensures(MapRef::<'a, K, V>::contains_key, (h, k), has.0),
        call_ensures(LearnedMap::<K, V>::contains_key, (&h.target(), k, g), has.1),
        call_ensures(MapRef::<'a, K, V>::len, (h,), len.0),
        call_ensures(LearnedMap::<K, V>::len, (&h.target(),), len.1),
        call_ensures(MapRef::<'a, K, V>::is_empty, (h,), empty.0),
        call_ensures(LearnedMap::<K, V>::is_empty, (&h.target(),), empty.1),
        call_ensures(MapRef::<'a, K, V>::allocated_bytes, (h,), bytes.0),
        call_ensures(LearnedMap::<K, V>::allocated_bytes, (&h.target(), g), bytes.1),
        call_ensures(MapRef::<'a, K, V>::max_depth, (h,), depth.0),
        call_ensures(LearnedMap::<K, V>::max_depth, (&h.target(), g), depth.1),
    ensures
        found.0 == found.1,
        has.0 == has.1,
        has.0 <==> found.0 is Some,
        len.0 == len.1,
        empty.0 == empty.1,
        bytes.0 == bytes.1,
        depth.0 == depth.1,
{
}

/// A handle iterates as its map does.
pub proof fn law_handles_iterate_like_the_map<'a, K: Key, V>(
    h: &MapRef<'a, K, V>,
    g: &EpochGuard,
    start: Bound<K>,
    end: Bound<K>,
    iters: (Iter<K, V>, Iter<K, V>),
    ranges: (Range<K, V>, Range<K, V>),
    counts: (usize, usize),
    first: (Option<(&K, &V)>, Option<(&K, &V)>),
    last: (Option<(&K, &V)>, Option<(&K, &V)>),
)
    requires
        h.target().wf(),
        call_ensures(MapRef::<'a, K, V>::iter, (h,), iters.0),
        call_ensures(LearnedMap::<K, V>::iter, (&h.target(), g), iters.1),
        call_ensures(MapRef::<'a, K, V>::range, (h, start, end), ranges.0),
        call_ensures(LearnedMap::<K, V>::range, (&h.target(), start, end, g), ranges.1),
        call_ensures(MapRef::<'a, K, V>::range_count, (h, start, end), counts.0),
        call_ensures(LearnedMap::<K, V>::range_count, (&h.target(), start, end, g), counts.1),
        call_ensures(MapRef::<'a, K, V>::first_key_value, (h,), first.0),
        call_ensures(LearnedMap::<K, V>::first_key_value, (&h.target(), g), first.1),
        call_ensures(MapRef::<'a, K, V>::last_key_value, (h,), last.0),
        call_ensures(LearnedMap::<K, V>::last_key_value, (&h.target(), g), last.1),
    ensures
        iters.0.pending() == iters.1.pending(),
        iters.0.remaining == iters.1.remaining,
        ranges.0.pending() == ranges.1.pending(),
        counts.0 == counts.1,
        first.0 == first.1,
        last.0 == last.1,
{
    let m = h.target();
    law_iteration_is_sorted_and_complete(m);
    if m.entries().len() > 0 {
        assert(m@.dom().contains(m.entries()[0].0@));
    }
}

/// A handle copies and drains as its map does.
pub proof fn law_handles_hand_out_like_the_map<'a, K: Key, V: Clone>(
    h: &MapRef<'a, K, V>,
    copied: Vec<(K, V)>,
    drained: &mut MapRef<'a, K, V>,
    all: Vec<(K, V)>,
    i: int,
)
    requires
        call_ensures(MapRef::<'a, K, V>::iter_sorted, (h,), copied),
        call_ensures(MapRef::<'a, K, V>::drain, (drained,), all),
    ensures
        copied@.len() == h.target().entries().len(),
        0 <= i < copied@.len() ==> copied@[i].0@ == h.target().entries()[i].0@ && cloned(
            h.target().entries()[i].1,
            copied@[i].1,
        ),
        all@ == old(drained).target().entries(),
        final(drained).target()@ == Map::<K::V, V>::empty(),
{
}

/// A handle changes its map as the map itself does.
pub proof fn law_handles_change_the_map<'a, K: Key, V>(
    put: &mut MapRef<'a, K, V>,
    cut: &mut MapRef<'a, K, V>,
    key: K,
    value: V,
    gone: &K,
    r: (bool, bool),
    k: &K,
    had: (Option<&V>, Option<&V>),
    found_before: (Option<&V>, Option<&V>),
    found_after: (Option<&V>, Option<&V>),
)
    requires
        call_ensures(MapRef::<'a, K, V>::insert, (put, key, value), r.0),
        call_ensures(MapRef::<'a, K, V>::remove, (cut, gone), r.1),
        call_ensures(MapRef::<'a, K, V>::get, (&*old(put), &key), had.0),
        call_ensures(MapRef::<'a, K, V>::get, (&*old(cut), gone), had.1),
        call_ensures(MapRef::<'a, K, V>::get, (&*old(put), k), found_before.0),
        call_ensures(MapRef::<'a, K, V>::get, (&*final(put), k), found_after.0),
        call_ensures(MapRef::<'a, K, V>::get, (&*old(cut), k), found_before.1),
        call_ensures(MapRef::<'a, K, V>::get, (&*final(cut), k), found_after.1),
    ensures
        r.0 == (had.0 is None),
        r.1 == (had.1 is Some),
        found_after.0 == if k@ == key@ {
            Some(&value)
        } else {
            found_before.0
        },
        found_after.1 == if k@ == gone@ {
            None
        } else {
            found_before.1
        },
{
}

/// A handle keeps a value that is there, and stores the given or computed one otherwise.
pub proof fn law_handles_keep_values<'a, K: Key, V, F: FnOnce() -> V>(
    given: &mut MapRef<'a, K, V>,
    computed: &mut MapRef<'a, K, V>,
    key: K,
    value: V,
    f: F,
    r: (&V, &V),
    had: (Option<&V>, Option<&V>),
    k: &K,
    found_before: (Option<&V>, Option<&V>),
    found_after: (Option<&V>, Option<&V>),
)
    requires
        call_ensures(MapRef::<'a, K, V>::get_or_insert, (given, key, value), r.0),
        call_ensures(MapRef::<'a, K, V>::get_or_insert_with::<F>, (computed, key, f), r.1),
        call_ensures(MapRef::<'a, K, V>::get, (&*old(given), &key), had.0),
        call_ensures(MapRef::<'a, K, V>::get, (&*old(computed), &key), had.1),
        call_ensures(MapRef::<'a, K, V>::get, (&*old(given), k), found_before.0),
        call_ensures(MapRef::<'a, K, V>::get, (&*final(given), k), found_after.0),
        call_ensures(MapRef::<'a, K, V>::get, (&*old(computed), k), found_before.1),
        call_ensures(MapRef::<'a, K, V>::get, (&*final(computed), k), found_after.1),
    ensures
        *r.0 == match had.0 {
            Some(v) => *v,
            None => value,
        },
        had.1 matches Some(v) ==> *r.1 == *v,
        had.1 is None ==> f.ensures((), *r.1),
        found_after.0 == if k@ == key@ {
            Some(r.0)
        } else {
            found_before.0
        },
        found_after.1 == if k@ == key@ {
            Some(r.1)
        } else {
            found_before.1
        },
{
}

/// A rebuild through a handle keeps everything, and clearing removes everything.
pub proof fn law_handles_rebuild_and_clear<'a, K: Key, V>(
    rebuilt: &mut MapRef<'a, K, V>,
    cleared: &mut MapRef<'a, K, V>,
    k: &K,
    found_before: Option<&V>,
    found_after: Option<&V>,
    found: Option<&V>,
    empty: bool,
)
    requires
        call_ensures(MapRef::<'a, K, V>::rebuild, (rebuilt,), ()),
        call_ensures(MapRef::<'a, K, V>::clear, (cleared,), ()),
        call_ensures(MapRef::<'a, K, V>::get, (&*old(rebuilt), k), found_before),
        call_ensures(MapRef::<'a, K, V>::get, (&*final(rebuilt), k), found_after),
        call_ensures(MapRef::<'a, K, V>::get, (&*final(cleared), k), found),
        call_ensures(MapRef::<'a, K, V>::is_empty, (&*final(cleared),), empty),
    ensures
        found_after == found_before,
        found is None,
        empty,
{
}

} // verus!
