//! What keys promise: numbers are ordered by value, and byte strings like words in
//! a dictionary.

use vstd::arithmetic::div_mod::{lemma_div_denominator, lemma_fundamental_div_mod_converse};
use vstd::arithmetic::power::{lemma_pow0, lemma_pow_positive, pow};
use vstd::prelude::*;
use vstd::utf8::encode_utf8;

use crate::key::{
    before, bytes_copy, bytes_equal, bytes_le, bytes_to_exact_ordinal, bytes_to_model_input, lex_le,
    prefix_number, Key,
};

verus! {

/// The byte strings reach to position `i` and agree before it.
pub open spec fn agree_before(a: Seq<u8>, b: Seq<u8>, i: int) -> bool {
    0 <= i <= a.len() && i <= b.len() && forall|j: int| 0 <= j < i ==> #[trigger] a[j] == b[j]
}

/// Like words in a dictionary, `a` comes before `b` or is the same: it is a prefix
/// of `b`, or it has the smaller byte where the two differ first.
pub open spec fn is_alphabetical(a: Seq<u8>, b: Seq<u8>) -> bool {
    ||| agree_before(a, b, a.len() as int)
    ||| exists|i: int| #[trigger]
        agree_before(a, b, i) && i < a.len() && i < b.len() && a[i] < b[i]
}

/// The order of byte strings is that of words in a dictionary.
pub proof fn law_byte_order_is_alphabetical(a: Seq<u8>, b: Seq<u8>)
    ensures
        lex_le(a, b) == is_alphabetical(a, b),
    decreases a.len(),
{
    if a.len() == 0 {
        assert(agree_before(a, b, 0));
    } else if b.len() == 0 {
        if exists|i: int| #[trigger]
            agree_before(a, b, i) && i < a.len() && i < b.len() && a[i] < b[i] {
        }
    } else if a[0] != b[0] {
        if a[0] < b[0] {
            assert(agree_before(a, b, 0));
        }
        if agree_before(a, b, a.len() as int) {
            assert(a[0] == b[0]);
        }
        assert forall|i: int| #[trigger]
            agree_before(a, b, i) && i < a.len() && i < b.len() && a[i] < b[i] implies a[0]
            < b[0] by {
            if i > 0 {
                assert(a[0] == b[0]);
            }
        }
    } else {
        let (s, t) = (a.drop_first(), b.drop_first());
        law_byte_order_is_alphabetical(s, t);
        assert forall|i: int| 0 <= i < a.len() && 0 <= i < b.len() && agree_before(
            s,
            t,
            i,
        ) implies agree_before(a, b, i + 1) by {
            assert forall|j: int| 0 <= j < i + 1 implies #[trigger] a[j] == b[j] by {
                if j > 0 {
                    assert(s[j - 1] == t[j - 1]);
                }
            }
        }
        assert forall|i: int| 1 <= i && #[trigger] agree_before(a, b, i) implies agree_before(
            s,
            t,
            i - 1,
        ) by {
            assert forall|j: int| 0 <= j < i - 1 implies #[trigger] s[j] == t[j] by {
                assert(a[j + 1] == b[j + 1]);
            }
        }
        if is_alphabetical(s, t) {
            if agree_before(s, t, s.len() as int) {
                assert(agree_before(a, b, s.len() as int + 1));
            } else {
                let i = choose|i: int| #[trigger]
                    agree_before(s, t, i) && i < s.len() && i < t.len() && s[i] < t[i];
                assert(agree_before(a, b, i + 1));
                assert(a[i + 1] < b[i + 1]);
            }
        }
        if is_alphabetical(a, b) {
            if agree_before(a, b, a.len() as int) {
                assert(agree_before(s, t, a.len() as int - 1));
            } else {
                let i = choose|i: int| #[trigger]
                    agree_before(a, b, i) && i < a.len() && i < b.len() && a[i] < b[i];
                assert(i > 0);
                assert(agree_before(s, t, i - 1));
                assert(s[i - 1] < t[i - 1]);
            }
        }
    }
}

/// The byte at a position, 0 beyond the end.
pub open spec fn padded_byte(s: Seq<u8>, i: int) -> int {
    if 0 <= i < s.len() {
        s[i] as int
    } else {
        0
    }
}

/// The number has the first `n` bytes of the string as its digits to the base 256,
/// the first byte first and zeros beyond the end.
pub open spec fn has_digits(x: int, s: Seq<u8>, n: nat) -> bool {
    &&& 0 <= x < pow(256, n)
    &&& forall|i: int|
        0 <= i < n ==> (x / pow(256, (n - 1 - i) as nat)) % 256 == #[trigger] padded_byte(s, i)
}

/// One more digit.
proof fn lemma_next_digit(x: int, s: Seq<u8>, n: nat)
    requires
        has_digits(x, s, n),
    ensures
        has_digits(256 * x + padded_byte(s, n as int), s, n + 1),
{
    let b = padded_byte(s, n as int);
    let y = 256 * x + b;
    lemma_pow0(256);
    assert(pow(256, n + 1) == 256 * pow(256, n)) by {
        vstd::arithmetic::power::lemma_pow1(256);
        reveal(pow);
    }
    lemma_fundamental_div_mod_converse(y, 256, x, b);
    assert forall|i: int| 0 <= i < n + 1 implies (y / pow(256, (n + 1 - 1 - i) as nat)) % 256
        == #[trigger] padded_byte(s, i) by {
        if i < n {
            let m = (n - 1 - i) as nat;
            assert(padded_byte(s, i) == (x / pow(256, m)) % 256);
            assert(pow(256, m + 1) == 256 * pow(256, m)) by {
                reveal(pow);
            }
            lemma_pow_positive(256, m);
            lemma_div_denominator(y, 256, pow(256, m));
            assert((n - i) as nat == m + 1);
        } else {
            assert(pow(256, 0) == 1);
            assert(y / 1 == y);
        }
    }
}

/// A prefix number has the bytes as its digits.
proof fn lemma_prefix_digits(s: Seq<u8>, n: nat)
    ensures
        has_digits(prefix_number(s, n) as int, s, n),
    decreases n,
{
    if n == 0 {
        lemma_pow0(256);
    } else {
        let m = (n - 1) as nat;
        lemma_prefix_digits(s, m);
        crate::key::lemma_prefix_step(s, m);
        lemma_next_digit(prefix_number(s, m) as int, s, m);
    }
}

/// The helpers read the first 8 and the first 16 bytes as one number, the first
/// byte first and zeros beyond the end. The second is moved to the range of `i128`.
pub proof fn law_bytes_are_read_as_one_number(bytes: &[u8], input: i128, ordinal: i128)
    requires
        call_ensures(bytes_to_model_input, (bytes,), input),
        call_ensures(bytes_to_exact_ordinal, (bytes,), ordinal),
    ensures
        has_digits(input as int, bytes@, 8),
        has_digits(ordinal + 0x8000_0000_0000_0000_0000_0000_0000_0000, bytes@, 16),
{
    lemma_prefix_digits(bytes@, 8);
    lemma_prefix_digits(bytes@, 16);
}

/// Byte strings are compared like words in a dictionary, are equal only if they hold
/// the same bytes, and are copied byte by byte.
pub(crate) proof fn law_bytes_are_compared_as_words(
    a: &[u8],
    b: &[u8],
    le: bool,
    equal: bool,
    copy: Vec<u8>,
)
    requires
        call_ensures(bytes_le, (a, b), le),
        call_ensures(bytes_equal, (a, b), equal),
        call_ensures(bytes_copy, (a,), copy),
    ensures
        le == is_alphabetical(a@, b@),
        equal == (a@.len() == b@.len() && forall|i: int| 0 <= i < a@.len() ==> a@[i] == b@[i]),
        copy@ == a@,
{
    law_byte_order_is_alphabetical(a@, b@);
    if a@.len() == b@.len() && forall|i: int| 0 <= i < a@.len() ==> a@[i] == b@[i] {
        assert(a@ =~= b@);
    }
}

/// To come before is to be at most and not the same.
pub proof fn law_before_is_strict<K: Key>(a: K::V, b: K::V)
    ensures
        before::<K>(a, b) == (K::ordered(a, b) && a != b),
        before::<K>(a, b) == !K::ordered(b, a),
{
    K::lemma_order(a, b, a);
    K::lemma_order(b, a, b);
}

/// The answers of a key are those of its order.
pub proof fn law_keys_answer_by_their_order<K: Key>(
    a: &K,
    b: &K,
    le: bool,
    same: bool,
    copy: K,
    input: i128,
    ordinal: i128,
)
    requires
        call_ensures(K::le, (a, b), le),
        call_ensures(K::same, (a, b), same),
        call_ensures(K::duplicate, (a,), copy),
        call_ensures(K::to_model_input, (a,), input),
        call_ensures(K::to_exact_ordinal, (a,), ordinal),
    ensures
        le == K::ordered(a@, b@),
        same == (a@ == b@),
        copy@ == a@,
        input == K::model_input(a@),
        ordinal == K::exact_ordinal(a@),
{
}

/// The order of keys is total, and neither model inputs nor ordinals run against it.
pub proof fn law_key_order_is_total<K: Key>(a: K::V, b: K::V, c: K::V)
    ensures
        K::ordered(a, b) || K::ordered(b, a),
        K::ordered(a, b) && K::ordered(b, a) <==> a == b,
        K::ordered(a, b) && K::ordered(b, c) ==> K::ordered(a, c),
        K::model_input(a) < K::model_input(b) ==> !K::ordered(b, a),
        K::exact_ordinal(a) < K::exact_ordinal(b) ==> !K::ordered(b, a),
{
    K::lemma_order(a, b, c);
    K::lemma_order(b, a, c);
    if K::ordered(b, a) {
        K::lemma_inputs_follow_order(b, a);
    }
}

/// `u8` keys are ordered by value. Their model inputs and ordinals are their values.
pub proof fn law_u8_keys_are_ordered_by_value(
    a: &u8,
    b: &u8,
    le: bool,
    same: bool,
    copy: u8,
    input: i128,
    ordinal: i128,
)
    requires
        call_ensures(<u8 as Key>::le, (a, b), le),
        call_ensures(<u8 as Key>::same, (a, b), same),
        call_ensures(<u8 as Key>::duplicate, (a,), copy),
        call_ensures(<u8 as Key>::to_model_input, (a,), input),
        call_ensures(<u8 as Key>::to_exact_ordinal, (a,), ordinal),
    ensures
        le == (*a <= *b),
        same == (*a == *b),
        copy == *a,
        input == *a,
        ordinal == *a,
        <u8 as Key>::ordered(*a, *b) == (*a <= *b),
        <u8 as Key>::model_input(*a) == *a,
        <u8 as Key>::exact_ordinal(*a) == *a,
{
}

/// `u16` keys are ordered by value. Their model inputs and ordinals are their values.
pub proof fn law_u16_keys_are_ordered_by_value(
    a: &u16,
    b: &u16,
    le: bool,
    same: bool,
    copy: u16,
    input: i128,
    ordinal: i128,
)
    requires
        call_ensures(<u16 as Key>::le, (a, b), le),
        call_ensures(<u16 as Key>::same, (a, b), same),
        call_ensures(<u16 as Key>::duplicate, (a,), copy),
        call_ensures(<u16 as Key>::to_model_input, (a,), input),
        call_ensures(<u16 as Key>::to_exact_ordinal, (a,), ordinal),
    ensures
        le == (*a <= *b),
        same == (*a == *b),
        copy == *a,
        input == *a,
        ordinal == *a,
        <u16 as Key>::ordered(*a, *b) == (*a <= *b),
        <u16 as Key>::model_input(*a) == *a,
        <u16 as Key>::exact_ordinal(*a) == *a,
{
}

/// `u32` keys are ordered by value. Their model inputs and ordinals are their values.
pub proof fn law_u32_keys_are_ordered_by_value(
    a: &u32,
    b: &u32,
    le: bool,
    same: bool,
    copy: u32,
    input: i128,
    ordinal: i128,
)
    requires
        call_ensures(<u32 as Key>::le, (a, b), le),
        call_ensures(<u32 as Key>::same, (a, b), same),
        call_ensures(<u32 as Key>::duplicate, (a,), copy),
        call_ensures(<u32 as Key>::to_model_input, (a,), input),
        call_ensures(<u32 as Key>::to_exact_ordinal, (a,), ordinal),
    ensures
        le == (*a <= *b),
        same == (*a == *b),
        copy == *a,
        input == *a,
        ordinal == *a,
        <u32 as Key>::ordered(*a, *b) == (*a <= *b),
        <u32 as Key>::model_input(*a) == *a,
        <u32 as Key>::exact_ordinal(*a) == *a,
{
}

/// `u64` keys are ordered by value. Their model inputs and ordinals are their values.
pub proof fn law_u64_keys_are_ordered_by_value(
    a: &u64,
    b: &u64,
    le: bool,
    same: bool,
    copy: u64,
    input: i128,
    ordinal: i128,
)
    requires
        call_ensures(<u64 as Key>::le, (a, b), le),
        call_ensures(<u64 as Key>::same, (a, b), same),
        call_ensures(<u64 as Key>::duplicate, (a,), copy),
        call_ensures(<u64 as Key>::to_model_input, (a,), input),
        call_ensures(<u64 as Key>::to_exact_ordinal, (a,), ordinal),
    ensures
        le == (*a <= *b),
        same == (*a == *b),
        copy == *a,
        input == *a,
        ordinal == *a,
        <u64 as Key>::ordered(*a, *b) == (*a <= *b),
        <u64 as Key>::model_input(*a) == *a,
        <u64 as Key>::exact_ordinal(*a) == *a,
{
}

/// `u128` keys are ordered by value. Their model inputs and ordinals are their values, moved
/// to the range of `i128`.
pub proof fn law_u128_keys_are_ordered_by_value(
    a: &u128,
    b: &u128,
    le: bool,
    same: bool,
    copy: u128,
    input: i128,
    ordinal: i128,
)
    requires
        call_ensures(<u128 as Key>::le, (a, b), le),
        call_ensures(<u128 as Key>::same, (a, b), same),
        call_ensures(<u128 as Key>::duplicate, (a,), copy),
        call_ensures(<u128 as Key>::to_model_input, (a,), input),
        call_ensures(<u128 as Key>::to_exact_ordinal, (a,), ordinal),
    ensures
        le == (*a <= *b),
        same == (*a == *b),
        copy == *a,
        input == *a - 0x8000_0000_0000_0000_0000_0000_0000_0000,
        ordinal == *a - 0x8000_0000_0000_0000_0000_0000_0000_0000,
        <u128 as Key>::ordered(*a, *b) == (*a <= *b),
        <u128 as Key>::model_input(*a) == *a - 0x8000_0000_0000_0000_0000_0000_0000_0000,
        <u128 as Key>::exact_ordinal(*a) == *a - 0x8000_0000_0000_0000_0000_0000_0000_0000,
{
}

/// `i8` keys are ordered by value. Their model inputs and ordinals are their values.
pub proof fn law_i8_keys_are_ordered_by_value(
    a: &i8,
    b: &i8,
    le: bool,
    same: bool,
    copy: i8,
    input: i128,
    ordinal: i128,
)
    requires
        call_ensures(<i8 as Key>::le, (a, b), le),
        call_ensures(<i8 as Key>::same, (a, b), same),
        call_ensures(<i8 as Key>::duplicate, (a,), copy),
        call_ensures(<i8 as Key>::to_model_input, (a,), input),
        call_ensures(<i8 as Key>::to_exact_ordinal, (a,), ordinal),
    ensures
        le == (*a <= *b),
        same == (*a == *b),
        copy == *a,
        input == *a,
        ordinal == *a,
        <i8 as Key>::ordered(*a, *b) == (*a <= *b),
        <i8 as Key>::model_input(*a) == *a,
        <i8 as Key>::exact_ordinal(*a) == *a,
{
}

/// `i16` keys are ordered by value. Their model inputs and ordinals are their values.
pub proof fn law_i16_keys_are_ordered_by_value(
    a: &i16,
    b: &i16,
    le: bool,
    same: bool,
    copy: i16,
    input: i128,
    ordinal: i128,
)
    requires
        call_ensures(<i16 as Key>::le, (a, b), le),
        call_ensures(<i16 as Key>::same, (a, b), same),
        call_ensures(<i16 as Key>::duplicate, (a,), copy),
        call_ensures(<i16 as Key>::to_model_input, (a,), input),
        call_ensures(<i16 as Key>::to_exact_ordinal, (a,), ordinal),
    ensures
        le == (*a <= *b),
        same == (*a == *b),
        copy == *a,
        input == *a,
        ordinal == *a,
        <i16 as Key>::ordered(*a, *b) == (*a <= *b),
        <i16 as Key>::model_input(*a) == *a,
        <i16 as Key>::exact_ordinal(*a) == *a,
{
}

/// `i32` keys are ordered by value. Their model inputs and ordinals are their values.
pub proof fn law_i32_keys_are_ordered_by_value(
    a: &i32,
    b: &i32,
    le: bool,
    same: bool,
    copy: i32,
    input: i128,
    ordinal: i128,
)
    requires
        call_ensures(<i32 as Key>::le, (a, b), le),
        call_ensures(<i32 as Key>::same, (a, b), same),
        call_ensures(<i32 as Key>::duplicate, (a,), copy),
        call_ensures(<i32 as Key>::to_model_input, (a,), input),
        call_ensures(<i32 as Key>::to_exact_ordinal, (a,), ordinal),
    ensures
        le == (*a <= *b),
        same == (*a == *b),
        copy == *a,
        input == *a,
        ordinal == *a,
        <i32 as Key>::ordered(*a, *b) == (*a <= *b),
        <i32 as Key>::model_input(*a) == *a,
        <i32 as Key>::exact_ordinal(*a) == *a,
{
}

/// `i64` keys are ordered by value. Their model inputs and ordinals are their values.
pub proof fn law_i64_keys_are_ordered_by_value(
    a: &i64,
    b: &i64,
    le: bool,
    same: bool,
    copy: i64,
    input: i128,
    ordinal: i128,
)
    requires
        call_ensures(<i64 as Key>::le, (a, b), le),
        call_ensures(<i64 as Key>::same, (a, b), same),
        call_ensures(<i64 as Key>::duplicate, (a,), copy),
        call_ensures(<i64 as Key>::to_model_input, (a,), input),
        call_ensures(<i64 as Key>::to_exact_ordinal, (a,), ordinal),
    ensures
        le == (*a <= *b),
        same == (*a == *b),
        copy == *a,
        input == *a,
        ordinal == *a,
        <i64 as Key>::ordered(*a, *b) == (*a <= *b),
        <i64 as Key>::model_input(*a) == *a,
        <i64 as Key>::exact_ordinal(*a) == *a,
{
}

/// `i128` keys are ordered by value. Their model inputs and ordinals are their values.
pub proof fn law_i128_keys_are_ordered_by_value(
    a: &i128,
    b: &i128,
    le: bool,
    same: bool,
    copy: i128,
    input: i128,
    ordinal: i128,
)
    requires
        call_ensures(<i128 as Key>::le, (a, b), le),
        call_ensures(<i128 as Key>::same, (a, b), same),
        call_ensures(<i128 as Key>::duplicate, (a,), copy),
        call_ensures(<i128 as Key>::to_model_input, (a,), input),
        call_ensures(<i128 as Key>::to_exact_ordinal, (a,), ordinal),
    ensures
        le == (*a <= *b),
        same == (*a == *b),
        copy == *a,
        input == *a,
        ordinal == *a,
        <i128 as Key>::ordered(*a, *b) == (*a <= *b),
        <i128 as Key>::model_input(*a) == *a,
        <i128 as Key>::exact_ordinal(*a) == *a,
{
}

/// `Vec<u8>` keys are ordered like words in a dictionary. Their model input
/// is the number in the first 8 bytes, and their ordinal that in the first 16 bytes,
/// moved to the range of `i128`.
pub proof fn law_byte_vector_keys_are_ordered_as_words(
    a: &Vec<u8>,
    b: &Vec<u8>,
    le: bool,
    same: bool,
    copy: Vec<u8>,
    input: i128,
    ordinal: i128,
)
    requires
        call_ensures(<Vec<u8> as Key>::le, (a, b), le),
        call_ensures(<Vec<u8> as Key>::same, (a, b), same),
        call_ensures(<Vec<u8> as Key>::duplicate, (a,), copy),
        call_ensures(<Vec<u8> as Key>::to_model_input, (a,), input),
        call_ensures(<Vec<u8> as Key>::to_exact_ordinal, (a,), ordinal),
    ensures
        le == is_alphabetical(a@, b@),
        same == (a@ == b@),
        copy@ == a@,
        has_digits(input as int, a@, 8),
        has_digits(ordinal + 0x8000_0000_0000_0000_0000_0000_0000_0000, a@, 16),
        <Vec<u8> as Key>::ordered(a@, b@) == is_alphabetical(a@, b@),
        <Vec<u8> as Key>::model_input(a@) == input,
        <Vec<u8> as Key>::exact_ordinal(a@) == ordinal,
{
    law_byte_order_is_alphabetical(a@, b@);
    lemma_prefix_digits(a@, 8);
    lemma_prefix_digits(a@, 16);
}

/// `[u8; N]` keys are ordered like words in a dictionary. Their model input
/// is the number in the first 8 bytes, and their ordinal that in the first 16 bytes,
/// moved to the range of `i128`.
pub proof fn law_byte_array_keys_are_ordered_as_words<const N: usize>(
    a: &[u8; N],
    b: &[u8; N],
    le: bool,
    same: bool,
    copy: [u8; N],
    input: i128,
    ordinal: i128,
)
    requires
        call_ensures(<[u8; N] as Key>::le, (a, b), le),
        call_ensures(<[u8; N] as Key>::same, (a, b), same),
        call_ensures(<[u8; N] as Key>::duplicate, (a,), copy),
        call_ensures(<[u8; N] as Key>::to_model_input, (a,), input),
        call_ensures(<[u8; N] as Key>::to_exact_ordinal, (a,), ordinal),
    ensures
        le == is_alphabetical(a@, b@),
        same == (a@ == b@),
        copy@ == a@,
        has_digits(input as int, a@, 8),
        has_digits(ordinal + 0x8000_0000_0000_0000_0000_0000_0000_0000, a@, 16),
        <[u8; N] as Key>::ordered(a@, b@) == is_alphabetical(a@, b@),
        <[u8; N] as Key>::model_input(a@) == input,
        <[u8; N] as Key>::exact_ordinal(a@) == ordinal,
{
    law_byte_order_is_alphabetical(a@, b@);
    lemma_prefix_digits(a@, 8);
    lemma_prefix_digits(a@, 16);
}

/// `String` keys are ordered like words in a dictionary, by their
/// UTF-8 bytes. Their model input
/// is the number in the first 8 bytes, and their ordinal that in the first 16 bytes,
/// moved to the range of `i128`.
pub proof fn law_string_keys_are_ordered_as_words(
    a: &String,
    b: &String,
    le: bool,
    same: bool,
    copy: String,
    input: i128,
    ordinal: i128,
)
    requires
        call_ensures(<String as Key>::le, (a, b), le),
        call_ensures(<String as Key>::same, (a, b), same),
        call_ensures(<String as Key>::duplicate, (a,), copy),
        call_ensures(<String as Key>::to_model_input, (a,), input),
        call_ensures(<String as Key>::to_exact_ordinal, (a,), ordinal),
    ensures
        le == is_alphabetical(encode_utf8(a@), encode_utf8(b@)),
        same == (a@ == b@),
        copy@ == a@,
        has_digits(input as int, encode_utf8(a@), 8),
        has_digits(ordinal + 0x8000_0000_0000_0000_0000_0000_0000_0000, encode_utf8(a@), 16),
        <String as Key>::ordered(a@, b@) == is_alphabetical(encode_utf8(a@), encode_utf8(b@)),
        <String as Key>::model_input(a@) == input,
        <String as Key>::exact_ordinal(a@) == ordinal,
{
    law_byte_order_is_alphabetical(encode_utf8(a@), encode_utf8(b@));
    lemma_prefix_digits(encode_utf8(a@), 8);
    lemma_prefix_digits(encode_utf8(a@), 16);
}

} // verus!
