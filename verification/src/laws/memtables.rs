//! What memtables promise: they answer like a sorted map, and count the bytes that
//! they are given.

use vstd::prelude::*;

use crate::lsm::memtable::{
    grown, BTreeMemtable, LearnedMemtable, Memtable, SkipListMemtable,
};
use crate::lsm::pairs::{has_key, lemma_lex, lemma_pair_map, lex_lt, lower_bound, pairs};

use super::keys::{is_alphabetical, law_byte_order_is_alphabetical};

verus! {

/// The bytes of a value that was found.
pub open spec fn found_bytes(r: Option<Vec<u8>>) -> Option<Seq<u8>> {
    match r {
        Some(v) => Some(v@),
        None => None,
    }
}

/// Keys come in alphabetical order, none of them twice.
pub open spec fn is_in_order(v: Seq<(Vec<u8>, Vec<u8>)>) -> bool {
    forall|i: int, j: int|
        0 <= i < j < v.len() ==> is_alphabetical(#[trigger] v[i].0@, #[trigger] v[j].0@)
            && v[i].0@ != v[j].0@
}

/// A pair that is written is read back, and the other keys keep what they have.
pub proof fn law_written_pairs_are_read<M: Memtable>(
    m: &mut M,
    key: Vec<u8>,
    value: Vec<u8>,
    k: &[u8],
    found_before: Option<Vec<u8>>,
    found_after: Option<Vec<u8>>,
)
    requires
        call_ensures(M::insert, (m, key, value), ()),
        call_ensures(M::get, (&*old(m), k), found_before),
        call_ensures(M::get, (&*final(m), k), found_after),
    ensures
        found_bytes(found_after) == if k@ == key@ {
            Some(value@)
        } else {
            found_bytes(found_before)
        },
{
}

/// A key that is deleted is read back as an empty value, and the other keys keep what
/// they have.
pub proof fn law_deleted_keys_are_marked<M: Memtable>(
    m: &mut M,
    key: &[u8],
    k: &[u8],
    found_before: Option<Vec<u8>>,
    found_after: Option<Vec<u8>>,
)
    requires
        call_ensures(M::delete, (m, key), ()),
        call_ensures(M::get, (&*old(m), k), found_before),
        call_ensures(M::get, (&*final(m), k), found_after),
    ensures
        found_bytes(found_after) == if k@ == key@ {
            Some(Seq::<u8>::empty())
        } else {
            found_bytes(found_before)
        },
{
}

/// A new key adds one entry, whether it is written or deleted. A known key adds none.
pub proof fn law_entries_are_counted<M: Memtable>(
    written: &mut M,
    deleted: &mut M,
    key: Vec<u8>,
    same_key: &[u8],
    value: Vec<u8>,
    gone: &[u8],
    found: Option<Vec<u8>>,
    gone_found: Option<Vec<u8>>,
    lens: (usize, usize, usize, usize),
    empty: (bool, bool),
)
    requires
        same_key@ == key@,
        old(written).wf(),
        old(deleted).wf(),
        call_ensures(M::insert, (written, key, value), ()),
        call_ensures(M::delete, (deleted, gone), ()),
        call_ensures(M::get, (&*old(written), same_key), found),
        call_ensures(M::get, (&*old(deleted), gone), gone_found),
        call_ensures(M::len, (&*old(written),), lens.0),
        call_ensures(M::len, (&*final(written),), lens.1),
        call_ensures(M::len, (&*old(deleted),), lens.2),
        call_ensures(M::len, (&*final(deleted),), lens.3),
        call_ensures(M::is_empty, (&*old(written),), empty.0),
        call_ensures(M::is_empty, (&*final(written),), empty.1),
    ensures
        lens.1 == lens.0 + (if found is None {
            1int
        } else {
            0
        }),
        lens.3 == lens.2 + (if gone_found is None {
            1int
        } else {
            0
        }),
        empty.0 <==> lens.0 == 0,
        !empty.1,
{
    old(written).lemma_finite();
    old(deleted).lemma_finite();
    let m = old(written).contents();
    if lens.0 == 0 {
        assert(m.dom() =~= Set::empty());
        assert(m =~= Map::<Seq<u8>, Seq<u8>>::empty());
    }
    assert(final(written).contents().dom().contains(key@));
}

/// A pair with a new key raises the byte count by the length of its key and its value.
pub proof fn law_new_pairs_count_their_bytes<M: Memtable>(
    m: &mut M,
    key: Vec<u8>,
    same_key: &[u8],
    value: Vec<u8>,
    found: Option<Vec<u8>>,
    before: usize,
    after: usize,
)
    requires
        same_key@ == key@,
        call_ensures(M::insert, (m, key, value), ()),
        call_ensures(M::get, (&*old(m), same_key), found),
        call_ensures(M::approximate_bytes, (&*old(m),), before),
        call_ensures(M::approximate_bytes, (&*final(m),), after),
        found is None,
        before + key@.len() + value@.len() <= usize::MAX,
    ensures
        after == before + key@.len() + value@.len(),
{
}

/// Deleting a new key raises the byte count by the length of the key.
pub proof fn law_new_marks_count_their_keys<M: Memtable>(
    m: &mut M,
    key: &[u8],
    found: Option<Vec<u8>>,
    before: usize,
    after: usize,
)
    requires
        call_ensures(M::delete, (m, key), ()),
        call_ensures(M::get, (&*old(m), key), found),
        call_ensures(M::approximate_bytes, (&*old(m),), before),
        call_ensures(M::approximate_bytes, (&*final(m),), after),
        found is None,
        before + key@.len() <= usize::MAX,
    ensures
        after == before + key@.len(),
{
}

/// A sorted vector and a skip list count the bytes of every pair, also where its key
/// was there.
pub proof fn law_overwrites_count_their_bytes(
    b: &mut BTreeMemtable,
    s: &mut SkipListMemtable,
    key: Vec<u8>,
    value: Vec<u8>,
    before: (usize, usize),
    after: (usize, usize),
)
    requires
        call_ensures(<BTreeMemtable as Memtable>::insert, (b, key, value), ()),
        call_ensures(<SkipListMemtable as Memtable>::insert, (s, key, value), ()),
        call_ensures(<BTreeMemtable as Memtable>::approximate_bytes, (&*old(b),), before.0),
        call_ensures(<BTreeMemtable as Memtable>::approximate_bytes, (&*final(b),), after.0),
        call_ensures(<SkipListMemtable as Memtable>::approximate_bytes, (&*old(s),), before.1),
        call_ensures(<SkipListMemtable as Memtable>::approximate_bytes, (&*final(s),), after.1),
    ensures
        before.0 + key@.len() + value@.len() <= usize::MAX ==> after.0 == before.0 + key@.len()
            + value@.len(),
        before.1 + key@.len() + value@.len() <= usize::MAX ==> after.1 == before.1 + key@.len()
            + value@.len(),
{
}

/// A learned memtable counts the bytes of a pair only where its key is new.
pub proof fn law_learned_overwrites_count_nothing(
    m: &mut LearnedMemtable,
    key: Vec<u8>,
    same_key: &[u8],
    value: Vec<u8>,
    found: Option<Vec<u8>>,
    before: usize,
    after: usize,
)
    requires
        same_key@ == key@,
        call_ensures(<LearnedMemtable as Memtable>::insert, (m, key, value), ()),
        call_ensures(<LearnedMemtable as Memtable>::get, (&*old(m), same_key), found),
        call_ensures(<LearnedMemtable as Memtable>::approximate_bytes, (&*old(m),), before),
        call_ensures(<LearnedMemtable as Memtable>::approximate_bytes, (&*final(m),), after),
    ensures
        found is Some ==> after == before,
        found is None && before + key@.len() + value@.len() <= usize::MAX ==> after == before
            + key@.len() + value@.len(),
{
}

/// Deleting a known key counts the bytes of the key in a sorted vector and in a skip list,
/// and nothing in a learned memtable.
pub proof fn law_known_marks_count_like_overwrites(
    b: &mut BTreeMemtable,
    s: &mut SkipListMemtable,
    l: &mut LearnedMemtable,
    key: &[u8],
    found: Option<Vec<u8>>,
    before: (usize, usize, usize),
    after: (usize, usize, usize),
)
    requires
        call_ensures(<BTreeMemtable as Memtable>::delete, (b, key), ()),
        call_ensures(<SkipListMemtable as Memtable>::delete, (s, key), ()),
        call_ensures(<LearnedMemtable as Memtable>::delete, (l, key), ()),
        call_ensures(<LearnedMemtable as Memtable>::get, (&*old(l), key), found),
        call_ensures(<BTreeMemtable as Memtable>::approximate_bytes, (&*old(b),), before.0),
        call_ensures(<BTreeMemtable as Memtable>::approximate_bytes, (&*final(b),), after.0),
        call_ensures(<SkipListMemtable as Memtable>::approximate_bytes, (&*old(s),), before.1),
        call_ensures(<SkipListMemtable as Memtable>::approximate_bytes, (&*final(s),), after.1),
        call_ensures(<LearnedMemtable as Memtable>::approximate_bytes, (&*old(l),), before.2),
        call_ensures(<LearnedMemtable as Memtable>::approximate_bytes, (&*final(l),), after.2),
    ensures
        before.0 + key@.len() <= usize::MAX ==> after.0 == before.0 + key@.len(),
        before.1 + key@.len() <= usize::MAX ==> after.1 == before.1 + key@.len(),
        found is Some ==> after.2 == before.2,
{
}

/// A byte count grows by the bytes of the key and of the value, as long as it fits and
/// if they count at all.
pub proof fn law_counts_grow_by_the_bytes(count: usize, key: Seq<u8>, value: Seq<u8>, counted: bool)
    ensures
        !counted ==> grown(count, key, value, counted) == count,
        counted && count + key.len() + value.len() <= usize::MAX ==> grown(
            count,
            key,
            value,
            counted,
        ) == count + key.len() + value.len(),
{
}

/// Draining hands out every entry, the marks of deleted keys included, in alphabetical
/// order of the keys. Nothing is left, and no bytes are counted any more.
pub proof fn law_draining_is_sorted_and_complete<M: Memtable>(
    m: &mut M,
    r: Vec<(Vec<u8>, Vec<u8>)>,
    len: usize,
    k: &[u8],
    found_before: Option<Vec<u8>>,
    found_after: Option<Vec<u8>>,
    bytes: usize,
    empty: bool,
)
    requires
        call_ensures(M::drain_sorted, (m,), r),
        call_ensures(M::len, (&*old(m),), len),
        call_ensures(M::get, (&*old(m), k), found_before),
        call_ensures(M::get, (&*final(m), k), found_after),
        call_ensures(M::approximate_bytes, (&*final(m),), bytes),
        call_ensures(M::is_empty, (&*final(m),), empty),
    ensures
        is_in_order(r@),
        r@.len() == len,
        forall|i: int|
            0 <= i < r@.len() && (#[trigger] r@[i]).0@ == k@ ==> found_bytes(found_before)
                == Some(r@[i].1@),
        found_before is Some ==> exists|i: int| 0 <= i < r@.len() && (#[trigger] r@[i]).0@ == k@,
        found_after is None,
        bytes == 0,
        empty,
{
    let s = pairs(r@);
    lemma_pair_map(s);
    assert forall|i: int, j: int| 0 <= i < j < r@.len() implies is_alphabetical(
        #[trigger] r@[i].0@,
        #[trigger] r@[j].0@,
    ) && r@[i].0@ != r@[j].0@ by {
        assert(lex_lt(s[i].0, s[j].0));
        law_byte_order_is_alphabetical(r@[i].0@, r@[j].0@);
    }
    assert forall|i: int| 0 <= i < r@.len() && (#[trigger] r@[i]).0@ == k@ implies found_bytes(
        found_before,
    ) == Some(r@[i].1@) by {
        assert(s[i].0 == k@);
        assert(has_key(s, k@));
    }
    if found_before is Some {
        assert(has_key(s, k@));
        let i = choose|i: int| 0 <= i < s.len() && (#[trigger] s[i]).0 == k@;
        assert(r@[i].0@ == k@);
    }
}

/// The place of a key among sorted pairs: the keys before it come before the key, and
/// those from it on do not.
pub proof fn law_places_divide_the_keys(
    v: &Vec<(Vec<u8>, Vec<u8>)>,
    key: &[u8],
    p: usize,
    i: int,
)
    requires
        is_in_order(v@),
        call_ensures(lower_bound, (v, key), p),
        0 <= i < v@.len(),
    ensures
        p <= v@.len(),
        i < p ==> is_alphabetical(v@[i].0@, key@) && v@[i].0@ != key@,
        i >= p ==> is_alphabetical(key@, v@[i].0@),
{
    let s = pairs(v@);
    assert(s[i].0 == v@[i].0@);
    law_byte_order_is_alphabetical(v@[i].0@, key@);
    law_byte_order_is_alphabetical(key@, v@[i].0@);
    if p < i {
        assert(s[p as int].0 == v@[p as int].0@);
        law_byte_order_is_alphabetical(v@[p as int].0@, v@[i].0@);
        lemma_lex(key@, s[p as int].0, s[i].0);
    }
}

/// A new memtable is empty and counts no bytes.
pub proof fn law_new_memtables_are_empty(
    b: BTreeMemtable,
    s: SkipListMemtable,
    l: LearnedMemtable,
    d: (BTreeMemtable, SkipListMemtable, LearnedMemtable),
    empty: (bool, bool, bool),
    bytes: (usize, usize, usize),
    default_empty: (bool, bool, bool),
    default_bytes: (usize, usize, usize),
)
    requires
        call_ensures(BTreeMemtable::new, (), b),
        call_ensures(SkipListMemtable::new, (), s),
        call_ensures(LearnedMemtable::new, (), l),
        call_ensures(<BTreeMemtable as Default>::default, (), d.0),
        call_ensures(<SkipListMemtable as Default>::default, (), d.1),
        call_ensures(<LearnedMemtable as Default>::default, (), d.2),
        call_ensures(<BTreeMemtable as Memtable>::is_empty, (&b,), empty.0),
        call_ensures(<SkipListMemtable as Memtable>::is_empty, (&s,), empty.1),
        call_ensures(<LearnedMemtable as Memtable>::is_empty, (&l,), empty.2),
        call_ensures(<BTreeMemtable as Memtable>::approximate_bytes, (&b,), bytes.0),
        call_ensures(<SkipListMemtable as Memtable>::approximate_bytes, (&s,), bytes.1),
        call_ensures(<LearnedMemtable as Memtable>::approximate_bytes, (&l,), bytes.2),
        call_ensures(<BTreeMemtable as Memtable>::is_empty, (&d.0,), default_empty.0),
        call_ensures(<SkipListMemtable as Memtable>::is_empty, (&d.1,), default_empty.1),
        call_ensures(<LearnedMemtable as Memtable>::is_empty, (&d.2,), default_empty.2),
        call_ensures(<BTreeMemtable as Memtable>::approximate_bytes, (&d.0,), default_bytes.0),
        call_ensures(<SkipListMemtable as Memtable>::approximate_bytes, (&d.1,), default_bytes.1),
        call_ensures(<LearnedMemtable as Memtable>::approximate_bytes, (&d.2,), default_bytes.2),
    ensures
        empty.0 && empty.1 && empty.2,
        bytes.0 == 0 && bytes.1 == 0 && bytes.2 == 0,
        default_empty.0 && default_empty.1 && default_empty.2,
        default_bytes.0 == 0 && default_bytes.1 == 0 && default_bytes.2 == 0,
{
}

} // verus!
