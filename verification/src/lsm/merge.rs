//! Merging sorted sources with newer ones taking precedence.

use vstd::prelude::*;

use super::pairs::{
    has_key, key_sorted, lemma_lex, lemma_pair_map, lex_lt, pair_map, value_for,
};
use crate::key::lex_le;

verus! {

/// The source among the first `n` that is next: the one with the smallest first
/// key, the newest one (highest index) if several have it. -1 if all are empty.
pub open spec fn leader_of(sources: Seq<Seq<(Seq<u8>, Seq<u8>)>>, n: nat) -> int
    decreases n,
{
    if n == 0 {
        -1
    } else {
        let earlier = leader_of(sources, (n - 1) as nat);
        let s = sources[n - 1];
        if s.len() == 0 {
            earlier
        } else if earlier < 0 || lex_le(s[0].0, sources[earlier][0].0) {
            n - 1
        } else {
            earlier
        }
    }
}

/// The source that is next.
pub open spec fn leader(sources: Seq<Seq<(Seq<u8>, Seq<u8>)>>) -> int {
    leader_of(sources, sources.len())
}

/// The number of pairs in all sources.
pub open spec fn total(sources: Seq<Seq<(Seq<u8>, Seq<u8>)>>) -> nat
    decreases sources.len(),
{
    if sources.len() == 0 {
        0
    } else {
        total(sources.drop_last()) + sources.last().len()
    }
}

/// The sources without the first pair of source `p`.
pub open spec fn advanced(sources: Seq<Seq<(Seq<u8>, Seq<u8>)>>, p: int) -> Seq<
    Seq<(Seq<u8>, Seq<u8>)>,
> {
    sources.update(p, sources[p].drop_first())
}

/// The pairs of all sources in key order, one per key: of the pairs that come
/// with the same key the first one is kept, and `last` is the key that came
/// before. Pairs with an empty value are left out if `drop_tombstones` is set.
pub open spec fn merged(
    sources: Seq<Seq<(Seq<u8>, Seq<u8>)>>,
    last: Option<Seq<u8>>,
    drop_tombstones: bool,
) -> Seq<(Seq<u8>, Seq<u8>)>
    decreases total(sources),
{
    let p = leader(sources);
    if p < 0 {
        Seq::empty()
    } else {
        proof {
            lemma_leader(sources, sources.len());
            lemma_total(sources, p);
        }
        let e = sources[p][0];
        let rest = advanced(sources, p);
        if last == Some(e.0) {
            merged(rest, last, drop_tombstones)
        } else {
            let more = merged(rest, Some(e.0), drop_tombstones);
            if drop_tombstones && e.1.len() == 0 {
                more
            } else {
                seq![e] + more
            }
        }
    }
}

/// The value of a key in the newest source (highest index) that has it.
pub open spec fn newest(sources: Seq<Seq<(Seq<u8>, Seq<u8>)>>, k: Seq<u8>) -> Option<Seq<u8>>
    decreases sources.len(),
{
    if sources.len() == 0 {
        None
    } else if has_key(sources.last(), k) {
        Some(value_for(sources.last(), k))
    } else {
        newest(sources.drop_last(), k)
    }
}

/// The leader has the smallest first key, and no newer source shares it.
pub proof fn lemma_leader(sources: Seq<Seq<(Seq<u8>, Seq<u8>)>>, n: nat)
    requires
        n <= sources.len(),
    ensures
        -1 <= leader_of(sources, n) < n,
        leader_of(sources, n) == -1 ==> forall|i: int|
            0 <= i < n ==> (#[trigger] sources[i]).len() == 0,
        leader_of(sources, n) >= 0 ==> sources[leader_of(sources, n)].len() > 0 && forall|i: int|
            0 <= i < n && (#[trigger] sources[i]).len() > 0 ==> lex_le(
                sources[leader_of(sources, n)][0].0,
                sources[i][0].0,
            ) && (i > leader_of(sources, n) ==> sources[i][0].0 != sources[leader_of(
                sources,
                n,
            )][0].0),
    decreases n,
{
    if n > 0 {
        lemma_leader(sources, (n - 1) as nat);
        let earlier = leader_of(sources, (n - 1) as nat);
        let p = leader_of(sources, n);
        let s = sources[n - 1];
        if s.len() > 0 {
            lemma_lex(s[0].0, s[0].0, s[0].0);
            if earlier >= 0 {
                lemma_lex(s[0].0, sources[earlier][0].0, s[0].0);
                assert forall|i: int| 0 <= i < n && (#[trigger] sources[i]).len() > 0 implies lex_le(
                    sources[p][0].0,
                    sources[i][0].0,
                ) && (i > p ==> sources[i][0].0 != sources[p][0].0) by {
                    if i < n - 1 {
                        assert(lex_le(sources[earlier][0].0, sources[i][0].0));
                        lemma_lex(s[0].0, sources[earlier][0].0, sources[i][0].0);
                    }
                }
            }
        }
    }
}

/// Advancing a source takes one pair away.
pub proof fn lemma_total(sources: Seq<Seq<(Seq<u8>, Seq<u8>)>>, p: int)
    requires
        0 <= p < sources.len(),
        sources[p].len() > 0,
    ensures
        total(advanced(sources, p)) == total(sources) - 1,
    decreases sources.len(),
{
    let rest = advanced(sources, p);
    if p == sources.len() - 1 {
        assert(rest.drop_last() =~= sources.drop_last());
    } else {
        lemma_total(sources.drop_last(), p);
        assert(rest.drop_last() =~= advanced(sources.drop_last(), p));
    }
}

/// Sources without the key have no value for it.
proof fn lemma_newest_none(sources: Seq<Seq<(Seq<u8>, Seq<u8>)>>, k: Seq<u8>)
    requires
        forall|i: int| 0 <= i < sources.len() ==> !has_key(#[trigger] sources[i], k),
    ensures
        newest(sources, k) is None,
    decreases sources.len(),
{
    if sources.len() > 0 {
        assert(!has_key(sources[sources.len() - 1], k));
        assert forall|i: int| 0 <= i < sources.drop_last().len() implies !has_key(
            #[trigger] sources.drop_last()[i],
            k,
        ) by {
            assert(!has_key(sources[i], k));
        }
        lemma_newest_none(sources.drop_last(), k);
    }
}

/// The newest source with the key gives the value.
proof fn lemma_newest_at(sources: Seq<Seq<(Seq<u8>, Seq<u8>)>>, k: Seq<u8>, p: int)
    requires
        0 <= p < sources.len(),
        has_key(sources[p], k),
        forall|i: int| p < i < sources.len() ==> !has_key(#[trigger] sources[i], k),
    ensures
        newest(sources, k) == Some(value_for(sources[p], k)),
    decreases sources.len(),
{
    if p < sources.len() - 1 {
        assert(!has_key(sources[sources.len() - 1], k));
        assert forall|i: int| p < i < sources.drop_last().len() implies !has_key(
            #[trigger] sources.drop_last()[i],
            k,
        ) by {
            assert(!has_key(sources[i], k));
        }
        lemma_newest_at(sources.drop_last(), k, p);
    }
}

/// Sources that agree on a key have the same value for it.
proof fn lemma_newest_same(
    a: Seq<Seq<(Seq<u8>, Seq<u8>)>>,
    b: Seq<Seq<(Seq<u8>, Seq<u8>)>>,
    k: Seq<u8>,
)
    requires
        a.len() == b.len(),
        forall|i: int|
            0 <= i < a.len() ==> has_key(#[trigger] a[i], k) == has_key(b[i], k) && (has_key(a[i], k)
                ==> value_for(a[i], k) == value_for(b[i], k)),
    ensures
        newest(a, k) == newest(b, k),
    decreases a.len(),
{
    if a.len() > 0 {
        let n = a.len() - 1;
        assert(has_key(a[n], k) == has_key(b[n], k));
        assert forall|i: int| 0 <= i < a.drop_last().len() implies has_key(
            #[trigger] a.drop_last()[i],
            k,
        ) == has_key(b.drop_last()[i], k) && (has_key(a.drop_last()[i], k) ==> value_for(
            a.drop_last()[i],
            k,
        ) == value_for(b.drop_last()[i], k)) by {
            assert(has_key(a[i], k) == has_key(b[i], k));
        }
        lemma_newest_same(a.drop_last(), b.drop_last(), k);
    }
}

/// A sorted sequence without its first pair lacks just the key of that pair.
proof fn lemma_drop_first(s: Seq<(Seq<u8>, Seq<u8>)>)
    requires
        key_sorted(s),
        s.len() > 0,
    ensures
        key_sorted(s.drop_first()),
        !has_key(s.drop_first(), s[0].0),
        has_key(s, s[0].0),
        value_for(s, s[0].0) == s[0].1,
        forall|k: Seq<u8>|
            k != s[0].0 ==> #[trigger] has_key(s.drop_first(), k) == has_key(s, k) && (has_key(s, k)
                ==> value_for(s.drop_first(), k) == value_for(s, k)),
        forall|i: int| 0 <= i < s.drop_first().len() ==> lex_lt(s[0].0, (#[trigger] s.drop_first()[i]).0),
{
    let t = s.drop_first();
    assert forall|i: int| 0 <= i < t.len() implies lex_lt(s[0].0, (#[trigger] t[i]).0) by {
        assert(lex_lt(s[0].0, s[i + 1].0));
    }
    assert forall|i: int, j: int| 0 <= i < j < t.len() implies lex_lt(
        #[trigger] t[i].0,
        #[trigger] t[j].0,
    ) by {
        assert(lex_lt(s[i + 1].0, s[j + 1].0));
    }
    lemma_pair_map(s);
    lemma_pair_map(t);
    assert(pair_map(s)[s[0].0] == s[0].1);
    assert forall|k: Seq<u8>| k != s[0].0 implies #[trigger] has_key(t, k) == has_key(s, k) && (
    has_key(s, k) ==> value_for(t, k) == value_for(s, k)) by {
        if has_key(s, k) {
            let i = choose|i: int| 0 <= i < s.len() && (#[trigger] s[i]).0 == k;
            assert(t[i - 1].0 == k);
            assert(pair_map(t)[t[i - 1].0] == t[i - 1].1);
            assert(pair_map(s)[s[i].0] == s[i].1);
        }
        if has_key(t, k) {
            let i = choose|i: int| 0 <= i < t.len() && (#[trigger] t[i]).0 == k;
            assert(s[i + 1].0 == k);
        }
    }
}

/// All sources are sorted and hold no key before `last`.
pub open spec fn continues(
    sources: Seq<Seq<(Seq<u8>, Seq<u8>)>>,
    last: Option<Seq<u8>>,
) -> bool {
    &&& forall|i: int| 0 <= i < sources.len() ==> key_sorted(#[trigger] sources[i])
    &&& last matches Some(l) ==> forall|i: int, j: int|
        0 <= i < sources.len() && 0 <= j < sources[i].len() ==> lex_le(
            l,
            (#[trigger] sources[i][j]).0,
        )
}

/// The merge of sorted sources is sorted, and for each key it has the value of
/// the newest source that has the key.
proof fn lemma_merged(
    sources: Seq<Seq<(Seq<u8>, Seq<u8>)>>,
    last: Option<Seq<u8>>,
    drop_tombstones: bool,
)
    requires
        continues(sources, last),
    ensures
        ({
            let out = merged(sources, last, drop_tombstones);
            &&& key_sorted(out)
            &&& forall|i: int|
                0 <= i < out.len() ==> match last {
                    Some(l) => lex_lt(l, (#[trigger] out[i]).0),
                    None => true,
                }
            &&& forall|k: Seq<u8>| #[trigger]
                has_key(out, k) == (last != Some(k) && newest(sources, k) is Some && !(
                drop_tombstones && newest(sources, k)->0.len() == 0))
            &&& forall|k: Seq<u8>| #[trigger]
                has_key(out, k) ==> value_for(out, k) == newest(sources, k)->0
        }),
    decreases total(sources),
{
    let p = leader(sources);
    let out = merged(sources, last, drop_tombstones);
    lemma_leader(sources, sources.len());
    if p < 0 {
        assert forall|k: Seq<u8>| newest(sources, k) is None by {
            assert forall|i: int| 0 <= i < sources.len() implies !has_key(
                #[trigger] sources[i],
                k,
            ) by {
                assert(sources[i].len() == 0);
            }
            lemma_newest_none(sources, k);
        }
    } else {
        lemma_total(sources, p);
        let e = sources[p][0];
        let rest = advanced(sources, p);
        assert(key_sorted(sources[p]));
        lemma_drop_first(sources[p]);
        // Every key is at least the leader's.
        assert forall|i: int, j: int|
            0 <= i < sources.len() && 0 <= j < sources[i].len() implies lex_le(
            e.0,
            (#[trigger] sources[i][j]).0,
        ) by {
            assert(key_sorted(sources[i]));
            assert(lex_le(e.0, sources[i][0].0));
            if j > 0 {
                assert(lex_lt(sources[i][0].0, sources[i][j].0));
                lemma_lex(e.0, sources[i][0].0, sources[i][j].0);
            }
        }
        assert forall|i: int| 0 <= i < rest.len() implies key_sorted(#[trigger] rest[i]) by {
            if i != p {
                assert(rest[i] == sources[i]);
            }
        }
        assert forall|i: int, j: int| 0 <= i < rest.len() && 0 <= j < rest[i].len() implies lex_le(
            e.0,
            (#[trigger] rest[i][j]).0,
        ) by {
            if i == p {
                assert(rest[i][j] == sources[p][j + 1]);
            } else {
                assert(rest[i][j] == sources[i][j]);
            }
        }
        // The newest value of the leader's key is the leader's.
        assert forall|i: int| p < i < sources.len() implies !has_key(
            #[trigger] sources[i],
            e.0,
        ) by {
            if has_key(sources[i], e.0) {
                let j = choose|j: int| 0 <= j < sources[i].len() && (#[trigger] sources[i][j]).0
                    == e.0;
                assert(key_sorted(sources[i]));
                if j > 0 {
                    assert(lex_lt(sources[i][0].0, sources[i][j].0));
                    lemma_lex(e.0, sources[i][0].0, e.0);
                }
            }
        }
        lemma_newest_at(sources, e.0, p);
        // Other keys are untouched.
        assert forall|k: Seq<u8>| k != e.0 implies #[trigger] newest(rest, k) == newest(
            sources,
            k,
        ) by {
            assert forall|i: int| 0 <= i < rest.len() implies has_key(#[trigger] rest[i], k)
                == has_key(sources[i], k) && (has_key(rest[i], k) ==> value_for(rest[i], k)
                == value_for(sources[i], k)) by {
                if i == p {
                    assert(rest[i] == sources[p].drop_first());
                }
            }
            lemma_newest_same(rest, sources, k);
        }
        if last == Some(e.0) {
            lemma_merged(rest, last, drop_tombstones);
            assert forall|k: Seq<u8>| #[trigger] has_key(out, k) == (last != Some(k) && newest(
                sources,
                k,
            ) is Some && !(drop_tombstones && newest(sources, k)->0.len() == 0)) by {
                assert(k != e.0 ==> newest(rest, k) == newest(sources, k));
            }
            assert forall|k: Seq<u8>| #[trigger] has_key(out, k) implies value_for(out, k)
                == newest(sources, k)->0 by {
                assert(k != e.0 ==> newest(rest, k) == newest(sources, k));
            }
        } else {
            let more = merged(rest, Some(e.0), drop_tombstones);
            assert(continues(rest, Some(e.0)));
            lemma_merged(rest, Some(e.0), drop_tombstones);
            if let Some(l) = last {
                assert(lex_le(l, sources[p][0].0));
                assert forall|i: int| 0 <= i < more.len() implies lex_lt(
                    l,
                    (#[trigger] more[i]).0,
                ) by {
                    lemma_lex(l, e.0, more[i].0);
                    lemma_lex(e.0, more[i].0, l);
                }
                // No pair has the key that came before.
                assert(newest(sources, l) is None) by {
                    assert forall|i: int| 0 <= i < sources.len() implies !has_key(
                        #[trigger] sources[i],
                        l,
                    ) by {
                        if has_key(sources[i], l) {
                            let j = choose|j: int|
                                0 <= j < sources[i].len() && (#[trigger] sources[i][j]).0 == l;
                            assert(lex_le(e.0, sources[i][j].0));
                            lemma_lex(l, e.0, l);
                        }
                    }
                    lemma_newest_none(sources, l);
                }
            }
            if drop_tombstones && e.1.len() == 0 {
                assert forall|k: Seq<u8>| #[trigger] has_key(out, k) == (last != Some(k) && newest(
                    sources,
                    k,
                ) is Some && !(drop_tombstones && newest(sources, k)->0.len() == 0)) by {
                    assert(k != e.0 ==> newest(rest, k) == newest(sources, k));
                }
                assert forall|k: Seq<u8>| #[trigger] has_key(out, k) implies value_for(out, k)
                    == newest(sources, k)->0 by {
                    assert(k != e.0 ==> newest(rest, k) == newest(sources, k));
                }
            } else {
                assert(out == seq![e] + more);
                assert forall|i: int, j: int| 0 <= i < j < out.len() implies lex_lt(
                    #[trigger] out[i].0,
                    #[trigger] out[j].0,
                ) by {
                    assert(out[j] == more[j - 1]);
                    if i > 0 {
                        assert(out[i] == more[i - 1]);
                        assert(lex_lt(more[i - 1].0, more[j - 1].0));
                    }
                }
                assert forall|i: int| 0 <= i < out.len() implies match last {
                    Some(l) => lex_lt(l, (#[trigger] out[i]).0),
                    None => true,
                } by {
                    if i > 0 {
                        assert(out[i] == more[i - 1]);
                    }
                }
                lemma_drop_first(out);
                assert(out.drop_first() =~= more);
                assert forall|k: Seq<u8>| #[trigger] has_key(out, k) == (last != Some(k) && newest(
                    sources,
                    k,
                ) is Some && !(drop_tombstones && newest(sources, k)->0.len() == 0)) by {
                    assert(k != e.0 ==> newest(rest, k) == newest(sources, k));
                    assert(k != e.0 ==> has_key(more, k) == has_key(out, k));
                }
                assert forall|k: Seq<u8>| #[trigger] has_key(out, k) implies value_for(out, k)
                    == newest(sources, k)->0 by {
                    assert(k != e.0 ==> newest(rest, k) == newest(sources, k));
                    assert(k != e.0 ==> has_key(more, k) == has_key(out, k));
                }
            }
        }
    }
}

/// The merge of sorted sources is sorted and has exactly one pair for each key:
/// the pair of the newest source (highest index) that has the key. Keys whose
/// newest value is a tombstone are left out if tombstones are dropped.
pub proof fn law_merge_keeps_the_newest(
    sources: Seq<Seq<(Seq<u8>, Seq<u8>)>>,
    drop_tombstones: bool,
)
    requires
        forall|i: int| 0 <= i < sources.len() ==> key_sorted(#[trigger] sources[i]),
    ensures
        key_sorted(merged(sources, None, drop_tombstones)),
        forall|k: Seq<u8>|
            #![trigger newest(sources, k)]
            ({
                let m = pair_map(merged(sources, None, drop_tombstones));
                match newest(sources, k) {
                    Some(v) => if drop_tombstones && v.len() == 0 {
                        !m.dom().contains(k)
                    } else {
                        m.dom().contains(k) && m[k] == v
                    },
                    None => !m.dom().contains(k),
                }
            }),
{
    lemma_merged(sources, None, drop_tombstones);
    let out = merged(sources, None, drop_tombstones);
    assert forall|k: Seq<u8>|
        #![trigger newest(sources, k)]
        ({
            let m = pair_map(out);
            match newest(sources, k) {
                Some(v) => if drop_tombstones && v.len() == 0 {
                    !m.dom().contains(k)
                } else {
                    m.dom().contains(k) && m[k] == v
                },
                None => !m.dom().contains(k),
            }
        }) by {
        assert(pair_map(out).dom().contains(k) == has_key(out, k));
    }
}

} // verus!
