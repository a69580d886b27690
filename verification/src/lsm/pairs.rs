//! Sorted sequences of key-value pairs and the maps that they stand for.

use vstd::prelude::*;

use crate::key::{lex_le, Key};

verus! {

/// `a` comes strictly before `b` in lexicographic order.
pub open spec fn lex_lt(a: Seq<u8>, b: Seq<u8>) -> bool {
    lex_le(a, b) && a != b
}

/// The contents of owned pairs.
pub open spec fn pairs(v: Seq<(Vec<u8>, Vec<u8>)>) -> Seq<(Seq<u8>, Seq<u8>)> {
    v.map_values(|e: (Vec<u8>, Vec<u8>)| (e.0@, e.1@))
}

/// Keys strictly ascend.
pub open spec fn key_sorted(s: Seq<(Seq<u8>, Seq<u8>)>) -> bool {
    forall|i: int, j: int| 0 <= i < j < s.len() ==> lex_lt(#[trigger] s[i].0, #[trigger] s[j].0)
}

/// Some pair has the key.
pub open spec fn has_key(s: Seq<(Seq<u8>, Seq<u8>)>, k: Seq<u8>) -> bool {
    exists|i: int| 0 <= i < s.len() && (#[trigger] s[i]).0 == k
}

/// The value of a pair with the key.
pub open spec fn value_for(s: Seq<(Seq<u8>, Seq<u8>)>, k: Seq<u8>) -> Seq<u8> {
    s[choose|i: int| 0 <= i < s.len() && (#[trigger] s[i]).0 == k].1
}

/// The map that a sorted sequence of pairs stands for.
pub open spec fn pair_map(s: Seq<(Seq<u8>, Seq<u8>)>) -> Map<Seq<u8>, Seq<u8>> {
    Map::new(|k: Seq<u8>| has_key(s, k), |k: Seq<u8>| value_for(s, k))
}

/// The pairs list the map in ascending key order.
pub open spec fn lists(s: Seq<(Seq<u8>, Seq<u8>)>, m: Map<Seq<u8>, Seq<u8>>) -> bool {
    key_sorted(s) && pair_map(s) == m
}

/// Lexicographic order is total.
pub proof fn lemma_lex(a: Seq<u8>, b: Seq<u8>, c: Seq<u8>)
    ensures
        lex_le(a, a),
        lex_le(a, b) || lex_le(b, a),
        lex_le(a, b) && lex_le(b, a) ==> a == b,
        lex_le(a, b) && lex_le(b, c) ==> lex_le(a, c),
{
    <Vec<u8> as Key>::lemma_order(a, b, c);
}

/// In a sorted sequence each key has one value.
pub proof fn lemma_pair_map(s: Seq<(Seq<u8>, Seq<u8>)>)
    requires
        key_sorted(s),
    ensures
        forall|i: int|
            0 <= i < s.len() ==> pair_map(s).dom().contains((#[trigger] s[i]).0) && pair_map(
                s,
            )[s[i].0] == s[i].1,
        pair_map(s).dom().finite(),
        pair_map(s).len() == s.len(),
{
    assert forall|i: int| 0 <= i < s.len() implies pair_map(s).dom().contains((#[trigger] s[i]).0)
        && pair_map(s)[s[i].0] == s[i].1 by {
        assert(has_key(s, s[i].0));
        let j = choose|j: int| 0 <= j < s.len() && (#[trigger] s[j]).0 == s[i].0;
        if i < j {
            assert(lex_lt(s[i].0, s[j].0));
        } else if j < i {
            assert(lex_lt(s[j].0, s[i].0));
        }
    }
    let keys = s.map_values(|e: (Seq<u8>, Seq<u8>)| e.0);
    assert forall|i: int, j: int| 0 <= i < j < keys.len() implies keys[i] != keys[j] by {
        assert(lex_lt(s[i].0, s[j].0));
    }
    keys.unique_seq_to_set();
    assert(pair_map(s).dom() =~= keys.to_set()) by {
        assert forall|k: Seq<u8>| pair_map(s).dom().contains(k) <==> keys.to_set().contains(k) by {
            if has_key(s, k) {
                let j = choose|j: int| 0 <= j < s.len() && (#[trigger] s[j]).0 == k;
                assert(keys[j] == k);
            }
            if keys.contains(k) {
                let j = choose|j: int| 0 <= j < keys.len() && keys[j] == k;
                assert(s[j].0 == k);
            }
        }
    }
}

/// A key that comes after all keys before `p` and not after those from `p` on
/// is only to be found at `p`.
pub proof fn lemma_position(s: Seq<(Seq<u8>, Seq<u8>)>, p: int, k: Seq<u8>)
    requires
        key_sorted(s),
        0 <= p <= s.len(),
        forall|i: int| 0 <= i < p ==> lex_lt((#[trigger] s[i]).0, k),
        p < s.len() ==> lex_le(k, s[p].0),
    ensures
        has_key(s, k) == (p < s.len() && s[p].0 == k),
        forall|i: int| p < i < s.len() ==> lex_lt(k, (#[trigger] s[i]).0),
{
    assert forall|i: int| p < i < s.len() implies lex_lt(k, (#[trigger] s[i]).0) by {
        assert(lex_lt(s[p].0, s[i].0));
        lemma_lex(k, s[p].0, s[i].0);
        lemma_lex(s[p].0, s[i].0, k);
    }
    if has_key(s, k) {
        let i = choose|i: int| 0 <= i < s.len() && (#[trigger] s[i]).0 == k;
        assert(i == p);
    }
}

/// Inserting a pair at the position of its new key adds it to the map.
pub proof fn lemma_insert_pair(
    s: Seq<(Seq<u8>, Seq<u8>)>,
    p: int,
    k: Seq<u8>,
    v: Seq<u8>,
)
    requires
        key_sorted(s),
        0 <= p <= s.len(),
        forall|i: int| 0 <= i < p ==> lex_lt((#[trigger] s[i]).0, k),
        p < s.len() ==> lex_lt(k, s[p].0),
    ensures
        key_sorted(s.insert(p, (k, v))),
        pair_map(s.insert(p, (k, v))) == pair_map(s).insert(k, v),
{
    let t = s.insert(p, (k, v));
    lemma_position(s, p, k);
    assert forall|i: int, j: int| 0 <= i < j < t.len() implies lex_lt(
        #[trigger] t[i].0,
        #[trigger] t[j].0,
    ) by {
        let a = if i < p {
            i
        } else {
            i - 1
        };
        let b = if j < p {
            j
        } else {
            j - 1
        };
        if i != p && j != p {
            assert(lex_lt(s[a].0, s[b].0));
        } else if i == p {
            if b > p {
                assert(lex_lt(k, s[b].0));
            }
        }
    }
    lemma_pair_map(s);
    lemma_pair_map(t);
    assert(pair_map(t) =~= pair_map(s).insert(k, v)) by {
        assert forall|x: Seq<u8>| #[trigger] pair_map(t).dom().contains(x) <==> pair_map(s).insert(
            k,
            v,
        ).dom().contains(x) by {
            if has_key(t, x) {
                let i = choose|i: int| 0 <= i < t.len() && (#[trigger] t[i]).0 == x;
                if i < p {
                    assert(s[i].0 == x);
                } else if i > p {
                    assert(s[i - 1].0 == x);
                }
            }
            if has_key(s, x) {
                let i = choose|i: int| 0 <= i < s.len() && (#[trigger] s[i]).0 == x;
                if i < p {
                    assert(t[i].0 == x);
                } else {
                    assert(t[i + 1].0 == x);
                }
            }
            assert(t[p].0 == k);
        }
        assert forall|x: Seq<u8>| pair_map(t).dom().contains(x) implies #[trigger] pair_map(t)[x]
            == pair_map(s).insert(k, v)[x] by {
            let i = choose|i: int| 0 <= i < t.len() && (#[trigger] t[i]).0 == x;
            if i < p {
                assert(t[i] == s[i]);
            } else if i > p {
                assert(t[i] == s[i - 1]);
            } else {
                assert(t[i] == (k, v));
            }
        }
    }
}

/// Replacing the value of a pair replaces it in the map.
pub proof fn lemma_update_pair(s: Seq<(Seq<u8>, Seq<u8>)>, p: int, v: Seq<u8>)
    requires
        key_sorted(s),
        0 <= p < s.len(),
    ensures
        key_sorted(s.update(p, (s[p].0, v))),
        pair_map(s.update(p, (s[p].0, v))) == pair_map(s).insert(s[p].0, v),
{
    let t = s.update(p, (s[p].0, v));
    assert forall|i: int| 0 <= i < t.len() implies (#[trigger] t[i]).0 == s[i].0 by {}
    assert(key_sorted(t)) by {
        assert forall|i: int, j: int| 0 <= i < j < t.len() implies lex_lt(
            #[trigger] t[i].0,
            #[trigger] t[j].0,
        ) by {
            assert(lex_lt(s[i].0, s[j].0));
        }
    }
    lemma_pair_map(s);
    lemma_pair_map(t);
    assert(pair_map(t) =~= pair_map(s).insert(s[p].0, v)) by {
        assert forall|x: Seq<u8>| #[trigger] pair_map(t).dom().contains(x) <==> pair_map(s).insert(
            s[p].0,
            v,
        ).dom().contains(x) by {
            if has_key(t, x) {
                let i = choose|i: int| 0 <= i < t.len() && (#[trigger] t[i]).0 == x;
                assert(s[i].0 == x);
            }
            if has_key(s, x) {
                let i = choose|i: int| 0 <= i < s.len() && (#[trigger] s[i]).0 == x;
                assert(t[i].0 == x);
            }
            assert(t[p].0 == s[p].0);
        }
        assert forall|x: Seq<u8>| pair_map(t).dom().contains(x) implies #[trigger] pair_map(t)[x]
            == pair_map(s).insert(s[p].0, v)[x] by {
            let i = choose|i: int| 0 <= i < t.len() && (#[trigger] t[i]).0 == x;
            if i != p {
                assert(t[i] == s[i]);
                if i < p {
                    assert(lex_lt(s[i].0, s[p].0));
                } else {
                    assert(lex_lt(s[p].0, s[i].0));
                }
            }
        }
    }
}

/// The position of the first pair whose key is not before `key`.
pub fn lower_bound(v: &Vec<(Vec<u8>, Vec<u8>)>, key: &[u8]) -> (p: usize)
    requires
        key_sorted(pairs(v@)),
    ensures
        p <= v@.len(),
        forall|i: int| 0 <= i < p ==> lex_lt((#[trigger] pairs(v@)[i]).0, key@),
        p < v@.len() ==> lex_le(key@, pairs(v@)[p as int].0),
{
    let ghost s = pairs(v@);
    let mut lo: usize = 0;
    let mut hi: usize = v.len();
    while lo < hi
        invariant
            s == pairs(v@),
            key_sorted(s),
            lo <= hi <= v@.len(),
            forall|i: int| 0 <= i < lo ==> lex_lt((#[trigger] s[i]).0, key@),
            hi < v@.len() ==> lex_le(key@, s[hi as int].0),
        decreases hi - lo,
    {
        let mid: usize = lo + (hi - lo) / 2;
        assert(s[mid as int].0 == v@[mid as int].0@);
        proof {
            lemma_lex(key@, s[mid as int].0, key@);
        }
        if crate::key::bytes_le(key, v[mid].0.as_slice()) {
            hi = mid;
        } else {
            proof {
                assert forall|i: int| 0 <= i < mid + 1 implies lex_lt(
                    (#[trigger] s[i]).0,
                    key@,
                ) by {
                    if i < mid {
                        assert(lex_lt(s[i].0, s[mid as int].0));
                        lemma_lex(s[i].0, s[mid as int].0, key@);
                        lemma_lex(s[mid as int].0, key@, s[i].0);
                    }
                }
            }
            lo = mid + 1;
        }
    }
    lo
}

} // verus!
