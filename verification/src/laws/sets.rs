//! What sets promise, by themselves and through their handles.

use vstd::prelude::*;

use crate::error::Error;
use crate::iter::{Bound, Range};
use crate::key::{before, Key};
use crate::map::{law_iteration_is_sorted_and_complete, EpochGuard, LearnedMap};
use crate::set::{
    ascending_keys, key_values, law_set_iteration_is_sorted_and_complete, LearnedSet, SetRef,
};
use crate::{Config, Result};

use super::maps::{is_between, is_sorted, lemma_range_pairs};

verus! {

/// A key that is inserted is in the set, and the other keys stay or stay away. The insert
/// reports whether the key was new.
pub proof fn law_inserted_keys_are_in_the_set<K: Key>(
    s: &mut LearnedSet<K>,
    key: K,
    g: &EpochGuard,
    r: bool,
    had: bool,
    k: &K,
    was_in: bool,
    is_in: bool,
)
    requires
        call_ensures(LearnedSet::<K>::insert, (s, key, g), r),
        call_ensures(LearnedSet::<K>::contains, (&*old(s), &key, g), had),
        call_ensures(LearnedSet::<K>::contains, (&*old(s), k, g), was_in),
        call_ensures(LearnedSet::<K>::contains, (&*final(s), k, g), is_in),
    ensures
        r == !had,
        is_in == (k@ == key@ || was_in),
{
}

/// A key that is removed is not in the set, and the other keys stay or stay away. The
/// remove reports whether the key was there.
pub proof fn law_removed_keys_are_not_in_the_set<K: Key>(
    s: &mut LearnedSet<K>,
    key: &K,
    g: &EpochGuard,
    r: bool,
    had: bool,
    k: &K,
    was_in: bool,
    is_in: bool,
)
    requires
        call_ensures(LearnedSet::<K>::remove, (s, key, g), r),
        call_ensures(LearnedSet::<K>::contains, (&*old(s), key, g), had),
        call_ensures(LearnedSet::<K>::contains, (&*old(s), k, g), was_in),
        call_ensures(LearnedSet::<K>::contains, (&*final(s), k, g), is_in),
    ensures
        r == had,
        is_in == (k@ != key@ && was_in),
{
}

/// Inserting a new key makes a set larger by one, and removing a key smaller by one.
pub proof fn law_keys_are_counted<K: Key>(
    grown: &mut LearnedSet<K>,
    shrunk: &mut LearnedSet<K>,
    key: K,
    gone: &K,
    g: &EpochGuard,
    r: (bool, bool),
    lens: (usize, usize, usize, usize),
    empty: (bool, bool),
)
    requires
        old(grown).wf(),
        old(shrunk).wf(),
        call_ensures(LearnedSet::<K>::insert, (grown, key, g), r.0),
        call_ensures(LearnedSet::<K>::remove, (shrunk, gone, g), r.1),
        call_ensures(LearnedSet::<K>::len, (&*old(grown),), lens.0),
        call_ensures(LearnedSet::<K>::len, (&*final(grown),), lens.1),
        call_ensures(LearnedSet::<K>::len, (&*old(shrunk),), lens.2),
        call_ensures(LearnedSet::<K>::len, (&*final(shrunk),), lens.3),
        call_ensures(LearnedSet::<K>::is_empty, (&*old(grown),), empty.0),
        call_ensures(LearnedSet::<K>::is_empty, (&*final(grown),), empty.1),
    ensures
        lens.1 == lens.0 + (if r.0 {
            1int
        } else {
            0
        }),
        lens.3 == lens.2 - (if r.1 {
            1int
        } else {
            0
        }),
        empty.0 <==> lens.0 == 0,
        !empty.1,
{
    law_set_iteration_is_sorted_and_complete(*old(grown));
    law_set_iteration_is_sorted_and_complete(*old(shrunk));
    if lens.0 == 0 {
        assert(old(grown)@ =~= Set::<K::V>::empty());
    }
    assert(final(grown)@.contains(key@));
    if !r.0 {
        assert(final(grown)@ =~= old(grown)@);
    }
    if !r.1 {
        assert(final(shrunk)@ =~= old(shrunk)@);
    }
}

/// A range holds the keys between its end points, sorted, and no others.
pub proof fn law_set_ranges_hold_the_keys_between<'a, K: Key>(
    s: &'a LearnedSet<K>,
    start: Bound<K>,
    end: Bound<K>,
    g: &EpochGuard,
    r: Range<'a, K, ()>,
    k: &K,
    is_in: bool,
)
    requires
        s.wf(),
        call_ensures(LearnedSet::<K>::range, (s, start, end, g), r),
        call_ensures(LearnedSet::<K>::contains, (s, k, g), is_in),
    ensures
        is_sorted(r.pending()),
        (exists|i: int| 0 <= i < r.pending().len() && (#[trigger] r.pending()[i]).0@ == k@)
            <==> is_in && is_between(start, end, k@),
{
    law_set_iteration_is_sorted_and_complete(*s);
    let all = s.entries();
    let p = r.pending();
    lemma_range_pairs(all, start, end);
    if exists|i: int| 0 <= i < p.len() && (#[trigger] p[i]).0@ == k@ {
        let i = choose|i: int| 0 <= i < p.len() && (#[trigger] p[i]).0@ == k@;
        assert(all.contains(p[i]));
        let j = choose|j: int| 0 <= j < all.len() && all[j] == p[i];
        assert(s@.contains(all[j].0@));
    }
    if is_in && is_between(start, end, k@) {
        assert(s@.contains(k@));
        let j = choose|j: int| 0 <= j < all.len() && (#[trigger] all[j]).0@ == k@;
        assert(p.contains(all[j]));
        let i = choose|i: int| 0 <= i < p.len() && p[i] == all[j];
        assert(p[i].0@ == k@);
    }
}

/// The first and the last key are keys of the set, and no key is before or after them.
pub proof fn law_set_ends_are_the_extreme_keys<K: Key>(
    s: &LearnedSet<K>,
    g: &EpochGuard,
    first: Option<&K>,
    last: Option<&K>,
    k: &K,
    is_in: bool,
)
    requires
        s.wf(),
        call_ensures(LearnedSet::<K>::first, (s, g), first),
        call_ensures(LearnedSet::<K>::last, (s, g), last),
        call_ensures(LearnedSet::<K>::contains, (s, k, g), is_in),
    ensures
        is_in ==> first is Some && last is Some && K::ordered(first->0@, k@) && K::ordered(
            k@,
            last->0@,
        ),
        first matches Some(a) ==> s@.contains(a@),
        last matches Some(a) ==> s@.contains(a@),
{
    law_set_iteration_is_sorted_and_complete(*s);
    let e = s.entries();
    if is_in {
        let i = choose|i: int| 0 <= i < e.len() && (#[trigger] e[i]).0@ == k@;
        K::lemma_order(k@, k@, k@);
        if i > 0 {
            assert(before::<K>(e[0].0@, e[i].0@));
        }
        if i < e.len() - 1 {
            assert(before::<K>(e[i].0@, e[e.len() - 1].0@));
        }
    }
}

/// A set is made of sorted keys and nothing else.
pub proof fn law_sorted_keys_are_loaded<K: Key>(
    keys: &[K],
    g: &EpochGuard,
    r: Result<LearnedSet<K>>,
    k: &K,
    is_in: bool,
    len: usize,
)
    requires
        call_ensures(LearnedSet::<K>::bulk_load, (keys,), r),
        r matches Ok(s) ==> call_ensures(LearnedSet::<K>::contains, (&s, k, g), is_in)
            && call_ensures(LearnedSet::<K>::len, (&s,), len),
    ensures
        r is Ok <==> keys@.len() > 0 && forall|i: int, j: int|
            0 <= i < j < keys@.len() ==> K::ordered(#[trigger] keys@[i]@, #[trigger] keys@[j]@)
                && keys@[i]@ != keys@[j]@,
        r matches Err(e) ==> (e == Error::EmptyData <==> keys@.len() == 0) && (e
            == Error::NotSorted <==> keys@.len() > 0),
        r is Ok ==> len == keys@.len() && (is_in <==> exists|i: int|
            0 <= i < keys@.len() && #[trigger] keys@[i]@ == k@),
{
    let sorted = forall|i: int, j: int|
        0 <= i < j < keys@.len() ==> K::ordered(#[trigger] keys@[i]@, #[trigger] keys@[j]@)
            && keys@[i]@ != keys@[j]@;
    assert(sorted == ascending_keys(keys@)) by {
        if sorted {
            assert forall|i: int, j: int| 0 <= i < j < keys@.len() implies before::<K>(
                #[trigger] keys@[i]@,
                #[trigger] keys@[j]@,
            ) by {
                assert(K::ordered(keys@[i]@, keys@[j]@));
            }
        }
        if ascending_keys(keys@) {
            assert forall|i: int, j: int| 0 <= i < j < keys@.len() implies K::ordered(
                #[trigger] keys@[i]@,
                #[trigger] keys@[j]@,
            ) && keys@[i]@ != keys@[j]@ by {
                assert(before::<K>(keys@[i]@, keys@[j]@));
            }
        }
    }
    if let Ok(s) = r {
        assert(is_in == key_values(keys@).contains(k@));
    }
}

/// Keys that are added or collected are in the set, with those that were there.
pub proof fn law_collected_keys_are_in_the_set<K: Key>(
    s: &mut LearnedSet<K>,
    keys: Vec<K>,
    g: &EpochGuard,
    made: LearnedSet<K>,
    k: &K,
    was_in: bool,
    is_in: bool,
    in_made: bool,
)
    requires
        call_ensures(LearnedSet::<K>::extend, (s, keys), ()),
        call_ensures(LearnedSet::<K>::from_iter, (keys,), made),
        call_ensures(LearnedSet::<K>::contains, (&*old(s), k, g), was_in),
        call_ensures(LearnedSet::<K>::contains, (&*final(s), k, g), is_in),
        call_ensures(LearnedSet::<K>::contains, (&made, k, g), in_made),
    ensures
        in_made <==> exists|i: int| 0 <= i < keys@.len() && #[trigger] keys@[i]@ == k@,
        is_in <==> was_in || in_made,
{
    assert(in_made == key_values(keys@).contains(k@));
}

/// A new set is empty and has the default settings or those that are given.
pub proof fn law_new_sets_are_empty<K: Key>(
    config: Config,
    fresh: LearnedSet<K>,
    made: LearnedSet<K>,
    usual: LearnedSet<K>,
    empty: (bool, bool, bool),
    defaults: Config,
)
    requires
        call_ensures(LearnedSet::<K>::new, (), fresh),
        call_ensures(LearnedSet::<K>::with_config, (config,), made),
        call_ensures(<LearnedSet<K> as Default>::default, (), usual),
        call_ensures(LearnedSet::<K>::is_empty, (&fresh,), empty.0),
        call_ensures(LearnedSet::<K>::is_empty, (&made,), empty.1),
        call_ensures(LearnedSet::<K>::is_empty, (&usual,), empty.2),
        call_ensures(Config::new, (), defaults),
    ensures
        empty.0 && empty.1 && empty.2,
        fresh.settings() == defaults,
        made.settings() == config,
        usual.settings() == defaults,
{
}

/// A handle is for the set that it was made from.
pub proof fn law_set_handles_are_for_their_set<'a, K: Key>(
    s: &'a mut LearnedSet<K>,
    h: SetRef<'a, K>,
)
    requires
        call_ensures(LearnedSet::<K>::pin, (s,), h),
    ensures
        h@ == old(s)@,
        final(s)@ == final(h.inner.map)@.dom(),
{
}

/// A handle answers as its set does.
pub proof fn law_set_handles_answer_like_the_set<'a, K: Key>(
    h: &SetRef<'a, K>,
    s: &LearnedSet<K>,
    g: &EpochGuard,
    k: &K,
    is_in: (bool, bool),
    len: (usize, usize),
    empty: (bool, bool),
)
    requires
        h@ == s@,
        call_ensures(SetRef::<'a, K>::contains, (h, k), is_in.0),
        call_ensures(LearnedSet::<K>::contains, (s, k, g), is_in.1),
        call_ensures(SetRef::<'a, K>::len, (h,), len.0),
        call_ensures(LearnedSet::<K>::len, (s,), len.1),
        call_ensures(SetRef::<'a, K>::is_empty, (h,), empty.0),
        call_ensures(LearnedSet::<K>::is_empty, (s,), empty.1),
    ensures
        is_in.0 == is_in.1,
        len.0 == len.1,
        empty.0 == empty.1,
{
}

/// A handle of a set gives the ends and the ranges of the map under it.
pub proof fn law_set_handles_give_the_same_keys<'a, K: Key>(
    h: &SetRef<'a, K>,
    g: &EpochGuard,
    first: Option<&K>,
    last: Option<&K>,
    first_pair: Option<(&K, &())>,
    last_pair: Option<(&K, &())>,
    start: Bound<K>,
    end: Bound<K>,
    r: Range<K, ()>,
    pairs: Range<K, ()>,
)
    requires
        h.wf(),
        call_ensures(SetRef::<'a, K>::first, (h,), first),
        call_ensures(SetRef::<'a, K>::last, (h,), last),
        call_ensures(LearnedMap::<K, ()>::first_key_value, (&h.inner.target(), g), first_pair),
        call_ensures(LearnedMap::<K, ()>::last_key_value, (&h.inner.target(), g), last_pair),
        call_ensures(SetRef::<'a, K>::range, (h, start, end), r),
        call_ensures(LearnedMap::<K, ()>::range, (&h.inner.target(), start, end, g), pairs),
    ensures
        first is Some <==> first_pair is Some,
        last is Some <==> last_pair is Some,
        first_pair matches Some((key, _)) ==> *first->0 == *key,
        last_pair matches Some((key, _)) ==> *last->0 == *key,
        r.pending() == pairs.pending(),
{
    let m = h.inner.target();
    law_iteration_is_sorted_and_complete(m);
    if m.entries().len() > 0 {
        assert(m@.dom().contains(m.entries()[0].0@));
    }
}

/// A handle changes its set as the set itself does.
pub proof fn law_set_handles_change_the_set<'a, K: Key>(
    put: &mut SetRef<'a, K>,
    cut: &mut SetRef<'a, K>,
    key: K,
    gone: &K,
    r: (bool, bool),
    k: &K,
    was_in: (bool, bool),
    is_in: (bool, bool),
    had: (bool, bool),
)
    requires
        call_ensures(SetRef::<'a, K>::insert, (put, key), r.0),
        call_ensures(SetRef::<'a, K>::remove, (cut, gone), r.1),
        call_ensures(SetRef::<'a, K>::contains, (&*old(put), &key), had.0),
        call_ensures(SetRef::<'a, K>::contains, (&*old(cut), gone), had.1),
        call_ensures(SetRef::<'a, K>::contains, (&*old(put), k), was_in.0),
        call_ensures(SetRef::<'a, K>::contains, (&*final(put), k), is_in.0),
        call_ensures(SetRef::<'a, K>::contains, (&*old(cut), k), was_in.1),
        call_ensures(SetRef::<'a, K>::contains, (&*final(cut), k), is_in.1),
    ensures
        r.0 == !had.0,
        r.1 == had.1,
        is_in.0 == (k@ == key@ || was_in.0),
        is_in.1 == (k@ != gone@ && was_in.1),
{
}

} // verus!
