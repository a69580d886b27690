//! What maps promise: reads see the writes, iteration is sorted and complete, and
//! ranges hold the keys between their end points.

use vstd::prelude::*;

use crate::error::Error;
use crate::iter::{after_start, before_end, in_range, is_before_start, is_past_end, Bound, Iter, Range};
use crate::key::Key;
use crate::map::{
    is_last_of_key, law_first_and_last_are_extreme, law_iteration_is_sorted_and_complete,
    law_last_pair_of_a_key_is_kept, next_threshold, root_rebuild_claim, EpochGuard, LearnedMap,
};
use crate::node::ascending;
use crate::{Config, Result};

verus! {

/// Each key comes before the next ones, and none is repeated.
pub open spec fn is_sorted<K: Key, V>(s: Seq<(K, V)>) -> bool {
    forall|i: int, j: int|
        0 <= i < j < s.len() ==> K::ordered(#[trigger] s[i].0@, #[trigger] s[j].0@) && s[i].0@
            != s[j].0@
}

/// The key is between the end points of a range.
pub open spec fn is_between<K: Key>(start: Bound<K>, end: Bound<K>, k: K::V) -> bool {
    &&& start matches Bound::Included(a) ==> K::ordered(a@, k)
    &&& start matches Bound::Excluded(a) ==> K::ordered(a@, k) && k != a@
    &&& end matches Bound::Included(b) ==> K::ordered(k, b@)
    &&& end matches Bound::Excluded(b) ==> K::ordered(k, b@) && k != b@
}

/// A pair that is inserted is found under its key, and what other keys have stays
/// the same. The insert reports whether the key was absent.
pub proof fn law_inserted_pairs_are_found<K: Key, V>(
    m: &mut LearnedMap<K, V>,
    key: K,
    value: V,
    g: &EpochGuard,
    is_new: bool,
    had: Option<&V>,
    k: &K,
    found_before: Option<&V>,
    found_after: Option<&V>,
)
    requires
        call_ensures(LearnedMap::<K, V>::insert, (m, key, value, g), is_new),
        call_ensures(LearnedMap::<K, V>::get, (&*old(m), &key, g), had),
        call_ensures(LearnedMap::<K, V>::get, (&*old(m), k, g), found_before),
        call_ensures(LearnedMap::<K, V>::get, (&*final(m), k, g), found_after),
    ensures
        is_new == (had is None),
        found_after == if k@ == key@ {
            Some(&value)
        } else {
            found_before
        },
{
}

/// A key that is removed is not found any more, and what other keys have stays the
/// same. The remove reports whether the key was there.
pub proof fn law_removed_keys_are_not_found<K: Key, V>(
    m: &mut LearnedMap<K, V>,
    key: &K,
    g: &EpochGuard,
    was_there: bool,
    had: Option<&V>,
    k: &K,
    found_before: Option<&V>,
    found_after: Option<&V>,
)
    requires
        call_ensures(LearnedMap::<K, V>::remove, (m, key, g), was_there),
        call_ensures(LearnedMap::<K, V>::get, (&*old(m), key, g), had),
        call_ensures(LearnedMap::<K, V>::get, (&*old(m), k, g), found_before),
        call_ensures(LearnedMap::<K, V>::get, (&*final(m), k, g), found_after),
    ensures
        was_there == (had is Some),
        found_after == if k@ == key@ {
            None
        } else {
            found_before
        },
{
}

/// A value that is there is handed out and kept. Otherwise the given one is stored
/// and handed out. What other keys have stays the same.
pub proof fn law_existing_values_are_kept<K: Key, V>(
    m: &mut LearnedMap<K, V>,
    key: K,
    value: V,
    g: &EpochGuard,
    r: &V,
    had: Option<&V>,
    k: &K,
    found_before: Option<&V>,
    found_after: Option<&V>,
)
    requires
        call_ensures(LearnedMap::<K, V>::get_or_insert, (m, key, value, g), r),
        call_ensures(LearnedMap::<K, V>::get, (&*old(m), &key, g), had),
        call_ensures(LearnedMap::<K, V>::get, (&*old(m), k, g), found_before),
        call_ensures(LearnedMap::<K, V>::get, (&*final(m), k, g), found_after),
    ensures
        *r == match had {
            Some(v) => *v,
            None => value,
        },
        found_after == if k@ == key@ {
            Some(r)
        } else {
            found_before
        },
{
}

/// A value is computed only if there is none. Then it is stored and handed out. What
/// other keys have stays the same.
pub proof fn law_values_are_computed_if_absent<K: Key, V, F: FnOnce() -> V>(
    m: &mut LearnedMap<K, V>,
    key: K,
    f: F,
    g: &EpochGuard,
    r: &V,
    had: Option<&V>,
    k: &K,
    found_before: Option<&V>,
    found_after: Option<&V>,
)
    requires
        call_ensures(LearnedMap::<K, V>::get_or_insert_with::<F>, (m, key, f, g), r),
        call_ensures(LearnedMap::<K, V>::get, (&*old(m), &key, g), had),
        call_ensures(LearnedMap::<K, V>::get, (&*old(m), k, g), found_before),
        call_ensures(LearnedMap::<K, V>::get, (&*final(m), k, g), found_after),
    ensures
        had matches Some(v) ==> *r == *v,
        had is None ==> f.ensures((), *r),
        found_after == if k@ == key@ {
            Some(r)
        } else {
            found_before
        },
{
}

/// A key is contained exactly if it is found, and a map is empty exactly if its
/// length is 0, in which case no key is found.
pub proof fn law_answers_agree<K: Key, V>(
    m: &LearnedMap<K, V>,
    k: &K,
    g: &EpochGuard,
    found: Option<&V>,
    contained: bool,
    len: usize,
    empty: bool,
)
    requires
        m.wf(),
        call_ensures(LearnedMap::<K, V>::get, (m, k, g), found),
        call_ensures(LearnedMap::<K, V>::contains_key, (m, k, g), contained),
        call_ensures(LearnedMap::<K, V>::len, (m,), len),
        call_ensures(LearnedMap::<K, V>::is_empty, (m,), empty),
    ensures
        contained == (found is Some),
        empty == (len == 0),
        empty ==> found is None,
{
    law_iteration_is_sorted_and_complete(*m);
    if len == 0 {
        assert(m@.dom() =~= Set::empty());
        assert(m@ =~= Map::<K::V, V>::empty());
    }
}

/// An insert adds one to the length if its key is new, and a remove takes one away if
/// its key was there.
pub proof fn law_length_counts_the_keys<K: Key, V>(
    m: &mut LearnedMap<K, V>,
    key: K,
    value: V,
    g: &EpochGuard,
    r: bool,
    before: usize,
    after: usize,
)
    requires
        old(m).wf(),
        call_ensures(LearnedMap::<K, V>::len, (&*old(m),), before),
        call_ensures(LearnedMap::<K, V>::len, (&*final(m),), after),
    ensures
        call_ensures(LearnedMap::<K, V>::insert, (m, key, value, g), r) ==> after == before + (
        if r {
            1int
        } else {
            0
        }),
        call_ensures(LearnedMap::<K, V>::remove, (m, &key, g), r) ==> after == before - (if r {
            1int
        } else {
            0
        }),
{
    law_iteration_is_sorted_and_complete(*old(m));
}

/// Iteration yields as many pairs as the map has, sorted by key, each with the value
/// that is found under its key, and no key that is found is left out.
pub proof fn law_iteration_yields_what_is_found<K: Key, V>(
    m: &LearnedMap<K, V>,
    g: &EpochGuard,
    it: Iter<K, V>,
    len: usize,
    k: &K,
    found: Option<&V>,
)
    requires
        m.wf(),
        call_ensures(LearnedMap::<K, V>::iter, (m, g), it),
        call_ensures(LearnedMap::<K, V>::len, (m,), len),
        call_ensures(LearnedMap::<K, V>::get, (m, k, g), found),
    ensures
        it.pending().len() == len,
        is_sorted(it.pending()),
        forall|i: int|
            0 <= i < it.pending().len() && (#[trigger] it.pending()[i]).0@ == k@ ==> found == Some(
                &it.pending()[i].1,
            ),
        found is Some ==> exists|i: int|
            0 <= i < it.pending().len() && (#[trigger] it.pending()[i]).0@ == k@,
{
    law_iteration_is_sorted_and_complete(*m);
    assert forall|i: int, j: int| 0 <= i < j < it.pending().len() implies K::ordered(
        #[trigger] it.pending()[i].0@,
        #[trigger] it.pending()[j].0@,
    ) && it.pending()[i].0@ != it.pending()[j].0@ by {
        assert(crate::key::before::<K>(m.entries()[i].0@, m.entries()[j].0@));
    }
    if found is Some {
        assert(m@.dom().contains(k@));
        let i = choose|i: int| 0 <= i < m.entries().len() && (#[trigger] m.entries()[i]).0@ == k@;
        assert(it.pending()[i].0@ == k@);
    }
}

/// An iterator yields the first pair that is left and goes on with the others. Its
/// hint falls with every pair.
pub proof fn law_iterators_yield_pair_by_pair<'a, K: Key, V>(
    it: &mut Iter<'a, K, V>,
    r: Option<(&'a K, &'a V)>,
    hint: (usize, Option<usize>),
    hint_after: (usize, Option<usize>),
)
    requires
        call_ensures(Iter::<K, V>::next, (it,), r),
        call_ensures(Iter::<K, V>::size_hint, (&*old(it),), hint),
        call_ensures(Iter::<K, V>::size_hint, (&*final(it),), hint_after),
    ensures
        r is None <==> old(it).pending().len() == 0,
        r matches Some((k, v)) ==> {
            &&& old(it).pending() == seq![(*k, *v)] + final(it).pending()
            &&& hint_after.0 + 1 == hint.0 || hint.0 == 0 && hint_after.0 == 0
        },
        hint.1 matches Some(n) ==> n == hint.0,
        hint.1 is Some <==> hint_after.1 is Some,
{
    if let Some((k, v)) = r {
        assert(old(it).pending() =~= seq![(*k, *v)] + final(it).pending());
    }
}

/// A new iterator with a count has that count as its hint.
pub proof fn law_hints_start_at_the_length<K: Key, V>(
    m: &LearnedMap<K, V>,
    g: &EpochGuard,
    it: Iter<K, V>,
    len: usize,
    hint: (usize, Option<usize>),
)
    requires
        m.wf(),
        call_ensures(LearnedMap::<K, V>::iter, (m, g), it),
        call_ensures(LearnedMap::<K, V>::len, (m,), len),
        call_ensures(Iter::<K, V>::size_hint, (&it,), hint),
    ensures
        hint == (len, Some(len)),
{
}

/// A sorted copy of a map has as many pairs as the map, sorted by key, each with a
/// copy of the value that is found under its key, and no key that is found is left
/// out.
pub proof fn law_sorted_copies_are_complete<K: Key, V: Clone>(
    m: &LearnedMap<K, V>,
    g: &EpochGuard,
    r: Vec<(K, V)>,
    len: usize,
    k: &K,
    found: Option<&V>,
)
    requires
        m.wf(),
        call_ensures(LearnedMap::<K, V>::iter_sorted, (m, g), r),
        call_ensures(LearnedMap::<K, V>::len, (m,), len),
        call_ensures(LearnedMap::<K, V>::get, (m, k, g), found),
    ensures
        r@.len() == len,
        is_sorted(r@),
        forall|i: int|
            0 <= i < r@.len() && (#[trigger] r@[i]).0@ == k@ ==> found is Some && cloned(
                *found->0,
                r@[i].1,
            ),
        found is Some ==> exists|i: int| 0 <= i < r@.len() && (#[trigger] r@[i]).0@ == k@,
{
    law_iteration_is_sorted_and_complete(*m);
    assert forall|i: int, j: int| 0 <= i < j < r@.len() implies K::ordered(
        #[trigger] r@[i].0@,
        #[trigger] r@[j].0@,
    ) && r@[i].0@ != r@[j].0@ by {
        assert(crate::key::before::<K>(m.entries()[i].0@, m.entries()[j].0@));
    }
    assert forall|i: int| 0 <= i < r@.len() && (#[trigger] r@[i]).0@ == k@ implies found is Some
        && cloned(*found->0, r@[i].1) by {
        assert(m.entries()[i].0@ == k@);
    }
    if found is Some {
        assert(m@.dom().contains(k@));
        let i = choose|i: int| 0 <= i < m.entries().len() && (#[trigger] m.entries()[i]).0@ == k@;
        assert(r@[i].0@ == k@);
    }
}

/// A bound cuts at its key: an included end keeps the keys up to it and the key
/// itself, an excluded end only the keys before it, and no end keeps all keys.
pub proof fn law_bounds_cut_at_their_keys<K: Key>(
    bound: &Bound<K>,
    key: &K,
    before: bool,
    past: bool,
)
    requires
        call_ensures(is_before_start::<K>, (bound, key), before),
        call_ensures(is_past_end::<K>, (bound, key), past),
    ensures
        before == !match *bound {
            Bound::Included(b) => K::ordered(b@, key@),
            Bound::Excluded(b) => K::ordered(b@, key@) && key@ != b@,
            Bound::Unbounded => true,
        },
        past == !match *bound {
            Bound::Included(b) => K::ordered(key@, b@),
            Bound::Excluded(b) => K::ordered(key@, b@) && key@ != b@,
            Bound::Unbounded => true,
        },
{
}

/// A key is on exactly one side of a cut: what an excluded end leaves out, a start
/// that is included lets in, and the other way round.
pub proof fn law_cuts_have_two_sides<K: Key>(b: K, k: K::V)
    ensures
        before_end(Bound::Excluded(b), k) == !after_start(Bound::Included(b), k),
        before_end(Bound::Included(b), k) == !after_start(Bound::Excluded(b), k),
        before_end(Bound::Included(b), k) && after_start(Bound::Included(b), k) <==> k == b@,
{
    K::lemma_order(b@, k, b@);
    K::lemma_order(k, b@, k);
}

/// Where the elements that pass a test come from.
proof fn lemma_filter_source<A>(s: Seq<A>, p: spec_fn(A) -> bool, i: int, j: int) -> (at: (int, int))
    requires
        0 <= i <= j < s.filter(p).len(),
    ensures
        0 <= at.0 <= at.1 < s.len(),
        s.filter(p)[i] == s[at.0],
        s.filter(p)[j] == s[at.1],
        p(s[at.0]),
        p(s[at.1]),
        i < j ==> at.0 < at.1,
    decreases s.len(),
{
    reveal(Seq::filter);
    let rest = s.drop_last();
    let last = s.len() - 1;
    if p(s.last()) && j == s.filter(p).len() - 1 {
        if i < j {
            let at = lemma_filter_source(rest, p, i, i);
            (at.0, last)
        } else {
            (last, last)
        }
    } else {
        lemma_filter_source(rest, p, i, j)
    }
}

/// An element that passes a test is kept.
proof fn lemma_passed<A>(s: Seq<A>, p: spec_fn(A) -> bool, i: int)
    requires
        0 <= i < s.len(),
        p(s[i]),
    ensures
        s.filter(p).contains(s[i]),
    decreases s.len(),
{
    reveal(Seq::filter);
    let rest = s.drop_last();
    if i < s.len() - 1 {
        lemma_passed(rest, p, i);
        let j = choose|j: int| 0 <= j < rest.filter(p).len() && rest.filter(p)[j] == rest[i];
        assert(s.filter(p)[j] == s[i]);
    } else {
        assert(s.filter(p).last() == s[i]);
        assert(s.filter(p)[s.filter(p).len() - 1] == s[i]);
    }
}

/// The pairs of a range: those of all pairs whose keys are between the end points.
pub proof fn lemma_range_pairs<K: Key, V>(all: Seq<(K, V)>, start: Bound<K>, end: Bound<K>)
    requires
        ascending(all),
    ensures
        ({
            let s = all.filter(in_range(start, end));
            &&& is_sorted(s)
            &&& forall|i: int|
                0 <= i < s.len() ==> is_between(start, end, (#[trigger] s[i]).0@) && all.contains(
                    s[i],
                )
            &&& forall|i: int|
                0 <= i < all.len() && is_between(start, end, (#[trigger] all[i]).0@)
                    ==> s.contains(all[i])
        }),
{
    let p = in_range::<K, V>(start, end);
    let s = all.filter(p);
    assert forall|i: int, j: int| 0 <= i < j < s.len() implies K::ordered(
        #[trigger] s[i].0@,
        #[trigger] s[j].0@,
    ) && s[i].0@ != s[j].0@ by {
        let at = lemma_filter_source(all, p, i, j);
        assert(crate::key::before::<K>(all[at.0].0@, all[at.1].0@));
    }
    assert forall|i: int| 0 <= i < s.len() implies is_between(start, end, (#[trigger] s[i]).0@)
        && all.contains(s[i]) by {
        let at = lemma_filter_source(all, p, i, i);
        assert(p(all[at.0]));
    }
    assert forall|i: int|
        0 <= i < all.len() && is_between(start, end, (#[trigger] all[i]).0@) implies s.contains(
        all[i],
    ) by {
        assert(p(all[i]));
        lemma_passed(all, p, i);
    }
}

/// A range yields the keys that are found between its end points, all of them and no
/// others, sorted by key, each with the value that is found under it. Its count is
/// their number.
pub proof fn law_ranges_hold_the_keys_between<K: Key, V>(
    m: &LearnedMap<K, V>,
    start: Bound<K>,
    end: Bound<K>,
    g: &EpochGuard,
    range: Range<K, V>,
    count: usize,
    k: &K,
    found: Option<&V>,
)
    requires
        m.wf(),
        call_ensures(LearnedMap::<K, V>::range, (m, start, end, g), range),
        call_ensures(LearnedMap::<K, V>::range_count, (m, start, end, g), count),
        call_ensures(LearnedMap::<K, V>::get, (m, k, g), found),
    ensures
        count == range.pending().len(),
        is_sorted(range.pending()),
        forall|i: int|
            0 <= i < range.pending().len() ==> is_between(
                start,
                end,
                (#[trigger] range.pending()[i]).0@,
            ),
        forall|i: int|
            0 <= i < range.pending().len() && (#[trigger] range.pending()[i]).0@ == k@ ==> found
                == Some(&range.pending()[i].1),
        found is Some && is_between(start, end, k@) ==> exists|i: int|
            0 <= i < range.pending().len() && (#[trigger] range.pending()[i]).0@ == k@,
{
    law_iteration_is_sorted_and_complete(*m);
    let all = m.entries();
    let s = range.pending();
    lemma_range_pairs(all, start, end);
    assert forall|i: int| 0 <= i < s.len() && (#[trigger] s[i]).0@ == k@ implies found == Some(
        &s[i].1,
    ) by {
        assert(all.contains(s[i]));
        let j = choose|j: int| 0 <= j < all.len() && all[j] == s[i];
        assert(all[j].0@ == k@);
    }
    if found is Some && is_between(start, end, k@) {
        assert(m@.dom().contains(k@));
        let j = choose|j: int| 0 <= j < all.len() && (#[trigger] all[j]).0@ == k@;
        assert(s.contains(all[j]));
        let i = choose|i: int| 0 <= i < s.len() && s[i] == all[j];
        assert(s[i].0@ == k@);
    }
}

/// A range yields the first pair that is left and goes on with the others.
pub proof fn law_ranges_yield_pair_by_pair<'a, K: Key, V>(
    range: &mut Range<'a, K, V>,
    r: Option<(&'a K, &'a V)>,
)
    requires
        call_ensures(Range::<K, V>::next, (range,), r),
    ensures
        r is None <==> old(range).pending().len() == 0,
        r matches Some((k, v)) ==> old(range).pending() == seq![(*k, *v)] + final(range).pending(),
        final(range).wf(),
{
    if let Some((k, v)) = r {
        assert(old(range).pending() =~= seq![(*k, *v)] + final(range).pending());
    }
}

/// The first pair has the smallest key of all keys that are found and the last pair
/// the largest one, both with the value that is found. There is none only if no key
/// is found.
pub proof fn law_ends_are_the_extreme_keys<K: Key, V>(
    m: &LearnedMap<K, V>,
    g: &EpochGuard,
    first: Option<(&K, &V)>,
    last: Option<(&K, &V)>,
    k: &K,
    found: Option<&V>,
)
    requires
        m.wf(),
        call_ensures(LearnedMap::<K, V>::first_key_value, (m, g), first),
        call_ensures(LearnedMap::<K, V>::last_key_value, (m, g), last),
        call_ensures(LearnedMap::<K, V>::get, (m, k, g), found),
    ensures
        found is Some ==> {
            &&& first matches Some((key, _)) && K::ordered(key@, k@)
            &&& last matches Some((key, _)) && K::ordered(k@, key@)
        },
        first matches Some((key, v)) ==> (key@ == k@ ==> found == Some(v)),
        last matches Some((key, v)) ==> (key@ == k@ ==> found == Some(v)),
{
    law_iteration_is_sorted_and_complete(*m);
    if found is Some {
        law_first_and_last_are_extreme(*m, k@);
    }
    if let Some((key, v)) = first {
        assert(m@.dom().contains(m.entries()[0].0@));
    }
    if let Some((key, v)) = last {
        let n = m.entries().len() - 1;
        assert(m@.dom().contains(m.entries()[n].0@));
    }
}

/// A new map is empty.
pub proof fn law_new_maps_are_empty<K: Key, V>(
    m: LearnedMap<K, V>,
    config: Config,
    g: &EpochGuard,
    k: &K,
    found: Option<&V>,
    len: usize,
)
    requires
        call_ensures(LearnedMap::<K, V>::new, (), m) || call_ensures(
            LearnedMap::<K, V>::with_config,
            (config,),
            m,
        ) || call_ensures(<LearnedMap<K, V> as Default>::default, (), m),
        call_ensures(LearnedMap::<K, V>::get, (&m, k, g), found),
        call_ensures(LearnedMap::<K, V>::len, (&m,), len),
    ensures
        found is None,
        len == 0,
        m.wf(),
{
}

/// Sorted pairs can be loaded, and nothing else: at least one, each key before the
/// next ones. Then the map has as many keys as there are pairs, and a copy of the
/// value of each. Without pairs, and only then, the input is called empty.
pub proof fn law_sorted_pairs_are_loaded<K: Key, V: Clone>(
    pairs: &[(K, V)],
    config: Config,
    r: Result<LearnedMap<K, V>>,
    g: &EpochGuard,
    k: &K,
    found: Option<&V>,
    len: usize,
)
    requires
        call_ensures(LearnedMap::<K, V>::bulk_load, (pairs,), r) || call_ensures(
            LearnedMap::<K, V>::bulk_load_with_config,
            (pairs, config),
            r,
        ),
        r matches Ok(m) ==> call_ensures(LearnedMap::<K, V>::get, (&m, k, g), found)
            && call_ensures(LearnedMap::<K, V>::len, (&m,), len),
    ensures
        r is Ok <==> pairs@.len() > 0 && is_sorted(pairs@),
        r matches Err(e) ==> (e == Error::EmptyData || e == Error::NotSorted) && (e
            == Error::EmptyData <==> pairs@.len() == 0),
        r is Ok ==> {
            &&& len == pairs@.len()
            &&& forall|i: int|
                0 <= i < pairs@.len() && (#[trigger] pairs@[i]).0@ == k@ ==> found is Some
                    && cloned(pairs@[i].1, *found->0)
            &&& found is Some ==> exists|i: int|
                0 <= i < pairs@.len() && (#[trigger] pairs@[i]).0@ == k@
        },
{
    assert(is_sorted(pairs@) == ascending(pairs@)) by {
        if is_sorted(pairs@) {
            assert forall|i: int, j: int| 0 <= i < j < pairs@.len() implies crate::key::before::<
                K,
            >(#[trigger] pairs@[i].0@, #[trigger] pairs@[j].0@) by {
                assert(K::ordered(pairs@[i].0@, pairs@[j].0@));
            }
        }
        if ascending(pairs@) {
            assert forall|i: int, j: int| 0 <= i < j < pairs@.len() implies K::ordered(
                #[trigger] pairs@[i].0@,
                #[trigger] pairs@[j].0@,
            ) && pairs@[i].0@ != pairs@[j].0@ by {
                assert(crate::key::before::<K>(pairs@[i].0@, pairs@[j].0@));
            }
        }
    }
    if let Ok(m) = r {
        crate::map::law_loaded_pairs_are_found(m, pairs@);
    }
}

/// Pairs whose keys do not descend can be loaded with repeated keys, and nothing
/// else. Then the map has a copy of the last value of each key, and no other keys.
pub proof fn law_last_values_are_loaded<K: Key, V: Clone>(
    pairs: &[(K, V)],
    config: Config,
    r: Result<LearnedMap<K, V>>,
    g: &EpochGuard,
    k: &K,
    found: Option<&V>,
)
    requires
        call_ensures(LearnedMap::<K, V>::bulk_load_dedup, (pairs,), r) || call_ensures(
            LearnedMap::<K, V>::bulk_load_dedup_with_config,
            (pairs, config),
            r,
        ),
        r matches Ok(m) ==> call_ensures(LearnedMap::<K, V>::get, (&m, k, g), found),
    ensures
        r is Ok <==> pairs@.len() > 0 && forall|i: int, j: int|
            0 <= i <= j < pairs@.len() ==> K::ordered(
                #[trigger] pairs@[i].0@,
                #[trigger] pairs@[j].0@,
            ),
        r matches Err(e) ==> (e == Error::EmptyData || e == Error::NotSorted) && (e
            == Error::EmptyData <==> pairs@.len() == 0),
        r is Ok ==> {
            &&& forall|i: int|
                0 <= i < pairs@.len() && (#[trigger] pairs@[i]).0@ == k@ && (forall|j: int|
                    i < j < pairs@.len() ==> (#[trigger] pairs@[j]).0@ != k@) ==> found is Some
                    && cloned(pairs@[i].1, *found->0)
            &&& found is Some ==> exists|i: int|
                0 <= i < pairs@.len() && (#[trigger] pairs@[i]).0@ == k@
        },
{
    if let Ok(m) = r {
        assert forall|i: int|
            0 <= i < pairs@.len() && (#[trigger] pairs@[i]).0@ == k@ && (forall|j: int|
                i < j < pairs@.len() ==> (#[trigger] pairs@[j]).0@ != k@) implies found is Some
            && cloned(pairs@[i].1, *found->0) by {
            assert(is_last_of_key(pairs@, i));
        }
        if found is Some {
            assert(m@.dom().contains(k@));
            let i = choose|i: int| #[trigger] is_last_of_key(pairs@, i) && pairs@[i].0@ == k@;
            assert(pairs@[i].0@ == k@);
        }
    }
}

/// Pairs that are added one by one are found under their keys, the last one of each
/// key, and what other keys have stays the same.
pub proof fn law_added_pairs_are_found<K: Key, V>(
    m: &mut LearnedMap<K, V>,
    pairs: Vec<(K, V)>,
    g: &EpochGuard,
    k: &K,
    found_before: Option<&V>,
    found_after: Option<&V>,
)
    requires
        call_ensures(LearnedMap::<K, V>::extend, (m, pairs), ()),
        call_ensures(LearnedMap::<K, V>::get, (&*old(m), k, g), found_before),
        call_ensures(LearnedMap::<K, V>::get, (&*final(m), k, g), found_after),
    ensures
        forall|i: int|
            0 <= i < pairs@.len() && (#[trigger] pairs@[i]).0@ == k@ && (forall|j: int|
                i < j < pairs@.len() ==> (#[trigger] pairs@[j]).0@ != k@) ==> found_after == Some(
                &pairs@[i].1,
            ),
        (forall|i: int| 0 <= i < pairs@.len() ==> (#[trigger] pairs@[i]).0@ != k@)
            ==> found_after == found_before,
{
    law_last_pair_of_a_key_is_kept(old(m)@, pairs@, k@);
    assert forall|i: int|
        0 <= i < pairs@.len() && (#[trigger] pairs@[i]).0@ == k@ && (forall|j: int|
            i < j < pairs@.len() ==> (#[trigger] pairs@[j]).0@ != k@) implies found_after == Some(
        &pairs@[i].1,
    ) by {
        assert(is_last_of_key(pairs@, i));
    }
}

/// A map that is collected from pairs has the last one of each key, and no other
/// keys.
pub proof fn law_collected_pairs_are_found<K: Key, V>(
    pairs: Vec<(K, V)>,
    m: LearnedMap<K, V>,
    g: &EpochGuard,
    k: &K,
    found: Option<&V>,
)
    requires
        call_ensures(LearnedMap::<K, V>::from_iter, (pairs,), m),
        call_ensures(LearnedMap::<K, V>::get, (&m, k, g), found),
    ensures
        forall|i: int|
            0 <= i < pairs@.len() && (#[trigger] pairs@[i]).0@ == k@ && (forall|j: int|
                i < j < pairs@.len() ==> (#[trigger] pairs@[j]).0@ != k@) ==> found == Some(
                &pairs@[i].1,
            ),
        (forall|i: int| 0 <= i < pairs@.len() ==> (#[trigger] pairs@[i]).0@ != k@) ==> found
            is None,
{
    law_last_pair_of_a_key_is_kept(Map::<K::V, V>::empty(), pairs@, k@);
    assert forall|i: int|
        0 <= i < pairs@.len() && (#[trigger] pairs@[i]).0@ == k@ && (forall|j: int|
            i < j < pairs@.len() ==> (#[trigger] pairs@[j]).0@ != k@) implies found == Some(
        &pairs@[i].1,
    ) by {
        assert(is_last_of_key(pairs@, i));
    }
}

/// Draining hands out what iteration would have yielded, and leaves the map empty.
pub proof fn law_draining_hands_out_everything<K: Key, V>(
    m: &mut LearnedMap<K, V>,
    g: &EpochGuard,
    r: Vec<(K, V)>,
    it: Iter<K, V>,
    k: &K,
    found: Option<&V>,
    len: usize,
)
    requires
        call_ensures(LearnedMap::<K, V>::iter, (&*old(m), g), it),
        call_ensures(LearnedMap::<K, V>::drain, (m, g), r),
        call_ensures(LearnedMap::<K, V>::get, (&*final(m), k, g), found),
        call_ensures(LearnedMap::<K, V>::len, (&*final(m),), len),
    ensures
        r@ == it.pending(),
        found is None,
        len == 0,
        final(m).settings() == old(m).settings(),
{
}

/// Clearing leaves the map empty.
pub proof fn law_cleared_maps_are_empty<K: Key, V>(
    m: &mut LearnedMap<K, V>,
    g: &EpochGuard,
    k: &K,
    found: Option<&V>,
    len: usize,
)
    requires
        call_ensures(LearnedMap::<K, V>::clear, (m, g), ()),
        call_ensures(LearnedMap::<K, V>::get, (&*final(m), k, g), found),
        call_ensures(LearnedMap::<K, V>::len, (&*final(m),), len),
    ensures
        found is None,
        len == 0,
        final(m).settings() == old(m).settings(),
{
}

/// A rebuild changes nothing that is found.
pub proof fn law_rebuilds_keep_everything<K: Key, V>(
    m: &mut LearnedMap<K, V>,
    g: &EpochGuard,
    k: &K,
    found_before: Option<&V>,
    found_after: Option<&V>,
    len_before: usize,
    len_after: usize,
)
    requires
        call_ensures(LearnedMap::<K, V>::rebuild, (m, g), ()),
        call_ensures(LearnedMap::<K, V>::get, (&*old(m), k, g), found_before),
        call_ensures(LearnedMap::<K, V>::get, (&*final(m), k, g), found_after),
        call_ensures(LearnedMap::<K, V>::len, (&*old(m),), len_before),
        call_ensures(LearnedMap::<K, V>::len, (&*final(m),), len_after),
    ensures
        found_after == found_before,
        len_after == len_before,
        final(m).settings() == old(m).settings(),
{
}

/// A new map rebuilds its tree with its 64th key, a loaded one when it has twice as
/// many keys as were loaded. After that the number doubles with each rebuild.
pub proof fn law_trees_are_rebuilt_as_they_double<K: Key, V>(
    m: &mut LearnedMap<K, V>,
    key: K,
    value: V,
    g: &EpochGuard,
    is_new: bool,
    len: usize,
)
    requires
        call_ensures(LearnedMap::<K, V>::insert, (m, key, value, g), is_new),
        call_ensures(LearnedMap::<K, V>::len, (&*final(m),), len),
        2 * len <= usize::MAX,
    ensures
        is_new && old(m).settings().auto_rebuild && len >= old(m).rebuild_at()
            ==> final(m).rebuild_at() == 2 * len,
        !(is_new && old(m).settings().auto_rebuild && len >= old(m).rebuild_at())
            ==> final(m).rebuild_at() == old(m).rebuild_at(),
        forall|fresh: LearnedMap<K, V>| #[trigger]
            call_ensures(LearnedMap::<K, V>::new, (), fresh) ==> fresh.rebuild_at() == 64,
{
}

/// A loaded map rebuilds its tree when it has twice as many keys as were loaded.
pub proof fn law_loaded_trees_are_rebuilt_as_they_double<K: Key, V: Clone>(
    pairs: &[(K, V)],
    r: Result<LearnedMap<K, V>>,
)
    requires
        call_ensures(LearnedMap::<K, V>::bulk_load, (pairs,), r),
        2 * pairs@.len() <= usize::MAX,
    ensures
        r matches Ok(m) ==> m.rebuild_at() == 2 * pairs@.len(),
{
}

/// The claim on a rebuild doubles the threshold, up to the largest number, and is
/// granted exactly if rebuilds are on and the threshold is reached.
pub proof fn law_thresholds_double(
    config: &Config,
    len: usize,
    threshold: usize,
    claim: Option<usize>,
    next: usize,
)
    requires
        call_ensures(root_rebuild_claim, (config, len, threshold), claim),
        call_ensures(next_threshold, (threshold,), next),
    ensures
        claim is Some <==> config.auto_rebuild && len >= threshold,
        claim matches Some(n) ==> n == next,
        2 * threshold <= usize::MAX ==> next == 2 * threshold,
        2 * threshold > usize::MAX ==> next == usize::MAX,
{
}

} // verus!
