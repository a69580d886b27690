//! The [`Key`] trait for types usable as learned index keys.
//!
//! Keys must be ordered, copyable, and convertible to a number for linear
//! model prediction. This conversion must be monotonic: if `a < b` then
//! `a.to_model_input() <= b.to_model_input()`.

use vstd::prelude::*;
use vstd::utf8::{encode_utf8, encode_utf8_decode_utf8};

verus! {

/// A key type usable in a learned index.
///
/// # Contract
///
/// - `to_model_input` is a **monotonic** function: if `a < b` then
///   `a.to_model_input() <= b.to_model_input()`. The mapping is non-strict:
///   distinct keys may produce the same input (for example byte strings with a
///   common prefix). The index handles this via the `to_exact_ordinal`
///   fallback.
/// - The mapping should preserve relative distances where possible, so that
///   linear models can fit the key distribution effectively.
/// - `to_exact_ordinal` is monotonic too and tells apart as many keys as it
///   can. Keys with equal ordinals are told apart by comparison.
pub trait Key: View + Sized + Send + Sync {
    /// The key order: `a` is at most `b`.
    spec fn ordered(a: Self::V, b: Self::V) -> bool;

    /// The model input of a key.
    spec fn model_input(k: Self::V) -> int;

    /// The exact ordinal of a key.
    spec fn exact_ordinal(k: Self::V) -> int;

    /// The key order is total.
    proof fn lemma_order(a: Self::V, b: Self::V, c: Self::V)
        ensures
            Self::ordered(a, a),
            Self::ordered(a, b) || Self::ordered(b, a),
            Self::ordered(a, b) && Self::ordered(b, a) ==> a == b,
            Self::ordered(a, b) && Self::ordered(b, c) ==> Self::ordered(a, c),
    ;

    /// Model inputs and ordinals never run against the key order.
    proof fn lemma_inputs_follow_order(a: Self::V, b: Self::V)
        requires
            Self::ordered(a, b),
        ensures
            Self::model_input(a) <= Self::model_input(b),
            Self::exact_ordinal(a) <= Self::exact_ordinal(b),
    ;

    /// Whether this key is at most `other`.
    fn le(&self, other: &Self) -> (r: bool)
        ensures
            r == Self::ordered(self@, other@),
    ;

    /// Whether this key equals `other`.
    fn same(&self, other: &Self) -> (r: bool)
        ensures
            r == (self@ == other@),
    ;

    /// A copy of this key.
    fn duplicate(&self) -> (r: Self)
        ensures
            r@ == self@,
    ;

    /// Convert this key to a number for model prediction.
    ///
    /// The conversion is monotonic. It may be non-injective.
    fn to_model_input(&self) -> (r: i128)
        ensures
            r == Self::model_input(self@),
    ;

    /// Convert this key to an `i128` for exact comparison.
    ///
    /// Used as a fallback for conflict resolution when `to_model_input` cannot
    /// distinguish keys.
    fn to_exact_ordinal(&self) -> (r: i128)
        ensures
            r == Self::exact_ordinal(self@),
    ;
}

/// `a` comes strictly before `b` in the key order.
pub open spec fn before<K: Key>(a: K::V, b: K::V) -> bool {
    K::ordered(a, b) && a != b
}

impl Key for u8 {
    open spec fn ordered(a: u8, b: u8) -> bool {
        a <= b
    }

    open spec fn model_input(k: u8) -> int {
        k as int
    }

    open spec fn exact_ordinal(k: u8) -> int {
        k as int
    }

    proof fn lemma_order(a: u8, b: u8, c: u8) {
    }

    proof fn lemma_inputs_follow_order(a: u8, b: u8) {
    }

    fn le(&self, other: &Self) -> (r: bool) {
        *self <= *other
    }

    fn same(&self, other: &Self) -> (r: bool) {
        *self == *other
    }

    fn duplicate(&self) -> (r: Self) {
        *self
    }

    fn to_model_input(&self) -> (r: i128) {
        *self as i128
    }

    fn to_exact_ordinal(&self) -> (r: i128) {
        *self as i128
    }
}

impl Key for u16 {
    open spec fn ordered(a: u16, b: u16) -> bool {
        a <= b
    }

    open spec fn model_input(k: u16) -> int {
        k as int
    }

    open spec fn exact_ordinal(k: u16) -> int {
        k as int
    }

    proof fn lemma_order(a: u16, b: u16, c: u16) {
    }

    proof fn lemma_inputs_follow_order(a: u16, b: u16) {
    }

    fn le(&self, other: &Self) -> (r: bool) {
        *self <= *other
    }

    fn same(&self, other: &Self) -> (r: bool) {
        *self == *other
    }

    fn duplicate(&self) -> (r: Self) {
        *self
    }

    fn to_model_input(&self) -> (r: i128) {
        *self as i128
    }

    fn to_exact_ordinal(&self) -> (r: i128) {
        *self as i128
    }
}

impl Key for u32 {
    open spec fn ordered(a: u32, b: u32) -> bool {
        a <= b
    }

    open spec fn model_input(k: u32) -> int {
        k as int
    }

    open spec fn exact_ordinal(k: u32) -> int {
        k as int
    }

    proof fn lemma_order(a: u32, b: u32, c: u32) {
    }

    proof fn lemma_inputs_follow_order(a: u32, b: u32) {
    }

    fn le(&self, other: &Self) -> (r: bool) {
        *self <= *other
    }

    fn same(&self, other: &Self) -> (r: bool) {
        *self == *other
    }

    fn duplicate(&self) -> (r: Self) {
        *self
    }

    fn to_model_input(&self) -> (r: i128) {
        *self as i128
    }

    fn to_exact_ordinal(&self) -> (r: i128) {
        *self as i128
    }
}

impl Key for u64 {
    open spec fn ordered(a: u64, b: u64) -> bool {
        a <= b
    }

    open spec fn model_input(k: u64) -> int {
        k as int
    }

    open spec fn exact_ordinal(k: u64) -> int {
        k as int
    }

    proof fn lemma_order(a: u64, b: u64, c: u64) {
    }

    proof fn lemma_inputs_follow_order(a: u64, b: u64) {
    }

    fn le(&self, other: &Self) -> (r: bool) {
        *self <= *other
    }

    fn same(&self, other: &Self) -> (r: bool) {
        *self == *other
    }

    fn duplicate(&self) -> (r: Self) {
        *self
    }

    fn to_model_input(&self) -> (r: i128) {
        *self as i128
    }

    fn to_exact_ordinal(&self) -> (r: i128) {
        *self as i128
    }
}

impl Key for i8 {
    open spec fn ordered(a: i8, b: i8) -> bool {
        a <= b
    }

    open spec fn model_input(k: i8) -> int {
        k as int
    }

    open spec fn exact_ordinal(k: i8) -> int {
        k as int
    }

    proof fn lemma_order(a: i8, b: i8, c: i8) {
    }

    proof fn lemma_inputs_follow_order(a: i8, b: i8) {
    }

    fn le(&self, other: &Self) -> (r: bool) {
        *self <= *other
    }

    fn same(&self, other: &Self) -> (r: bool) {
        *self == *other
    }

    fn duplicate(&self) -> (r: Self) {
        *self
    }

    fn to_model_input(&self) -> (r: i128) {
        *self as i128
    }

    fn to_exact_ordinal(&self) -> (r: i128) {
        *self as i128
    }
}

impl Key for i16 {
    open spec fn ordered(a: i16, b: i16) -> bool {
        a <= b
    }

    open spec fn model_input(k: i16) -> int {
        k as int
    }

    open spec fn exact_ordinal(k: i16) -> int {
        k as int
    }

    proof fn lemma_order(a: i16, b: i16, c: i16) {
    }

    proof fn lemma_inputs_follow_order(a: i16, b: i16) {
    }

    fn le(&self, other: &Self) -> (r: bool) {
        *self <= *other
    }

    fn same(&self, other: &Self) -> (r: bool) {
        *self == *other
    }

    fn duplicate(&self) -> (r: Self) {
        *self
    }

    fn to_model_input(&self) -> (r: i128) {
        *self as i128
    }

    fn to_exact_ordinal(&self) -> (r: i128) {
        *self as i128
    }
}

impl Key for i32 {
    open spec fn ordered(a: i32, b: i32) -> bool {
        a <= b
    }

    open spec fn model_input(k: i32) -> int {
        k as int
    }

    open spec fn exact_ordinal(k: i32) -> int {
        k as int
    }

    proof fn lemma_order(a: i32, b: i32, c: i32) {
    }

    proof fn lemma_inputs_follow_order(a: i32, b: i32) {
    }

    fn le(&self, other: &Self) -> (r: bool) {
        *self <= *other
    }

    fn same(&self, other: &Self) -> (r: bool) {
        *self == *other
    }

    fn duplicate(&self) -> (r: Self) {
        *self
    }

    fn to_model_input(&self) -> (r: i128) {
        *self as i128
    }

    fn to_exact_ordinal(&self) -> (r: i128) {
        *self as i128
    }
}

impl Key for i64 {
    open spec fn ordered(a: i64, b: i64) -> bool {
        a <= b
    }

    open spec fn model_input(k: i64) -> int {
        k as int
    }

    open spec fn exact_ordinal(k: i64) -> int {
        k as int
    }

    proof fn lemma_order(a: i64, b: i64, c: i64) {
    }

    proof fn lemma_inputs_follow_order(a: i64, b: i64) {
    }

    fn le(&self, other: &Self) -> (r: bool) {
        *self <= *other
    }

    fn same(&self, other: &Self) -> (r: bool) {
        *self == *other
    }

    fn duplicate(&self) -> (r: Self) {
        *self
    }

    fn to_model_input(&self) -> (r: i128) {
        *self as i128
    }

    fn to_exact_ordinal(&self) -> (r: i128) {
        *self as i128
    }
}

/// Half of the range of `u128`, the value that maps to the ordinal 0.
pub const HALF_U128: u128 = 0x8000_0000_0000_0000_0000_0000_0000_0000;

/// Order-preserving bijection from `u128` to `i128`: 0 maps to `i128::MIN` and
/// the largest value to `i128::MAX`.
fn centered(x: u128) -> (r: i128)
    ensures
        r == x - HALF_U128,
{
    if x >= HALF_U128 {
        (x - HALF_U128) as i128
    } else {
        (x as i128) + i128::MIN
    }
}

impl Key for u128 {
    open spec fn ordered(a: u128, b: u128) -> bool {
        a <= b
    }

    open spec fn model_input(k: u128) -> int {
        k - HALF_U128
    }

    open spec fn exact_ordinal(k: u128) -> int {
        k - HALF_U128
    }

    proof fn lemma_order(a: u128, b: u128, c: u128) {
    }

    proof fn lemma_inputs_follow_order(a: u128, b: u128) {
    }

    fn le(&self, other: &Self) -> (r: bool) {
        *self <= *other
    }

    fn same(&self, other: &Self) -> (r: bool) {
        *self == *other
    }

    fn duplicate(&self) -> (r: Self) {
        *self
    }

    fn to_model_input(&self) -> (r: i128) {
        centered(*self)
    }

    fn to_exact_ordinal(&self) -> (r: i128) {
        centered(*self)
    }
}

impl Key for i128 {
    open spec fn ordered(a: i128, b: i128) -> bool {
        a <= b
    }

    open spec fn model_input(k: i128) -> int {
        k as int
    }

    open spec fn exact_ordinal(k: i128) -> int {
        k as int
    }

    proof fn lemma_order(a: i128, b: i128, c: i128) {
    }

    proof fn lemma_inputs_follow_order(a: i128, b: i128) {
    }

    fn le(&self, other: &Self) -> (r: bool) {
        *self <= *other
    }

    fn same(&self, other: &Self) -> (r: bool) {
        *self == *other
    }

    fn duplicate(&self) -> (r: Self) {
        *self
    }

    fn to_model_input(&self) -> (r: i128) {
        *self
    }

    fn to_exact_ordinal(&self) -> (r: i128) {
        *self
    }
}

/// Lexicographic order of byte strings: `a` is at most `b`.
pub open spec fn lex_le(a: Seq<u8>, b: Seq<u8>) -> bool
    decreases a.len(),
{
    if a.len() == 0 {
        true
    } else if b.len() == 0 {
        false
    } else if a[0] != b[0] {
        a[0] < b[0]
    } else {
        lex_le(a.drop_first(), b.drop_first())
    }
}

/// What follows the first byte.
pub open spec fn tail(s: Seq<u8>) -> Seq<u8> {
    if s.len() > 0 {
        s.drop_first()
    } else {
        s
    }
}

/// `256` to the power of `n`.
pub open spec fn byte_power(n: nat) -> nat
    decreases n,
{
    if n == 0 {
        1
    } else {
        256 * byte_power((n - 1) as nat)
    }
}

/// The first `n` bytes as a big-endian number, zero-padded on the right.
pub open spec fn prefix_number(s: Seq<u8>, n: nat) -> nat
    decreases n,
{
    if n == 0 {
        0
    } else {
        let first: nat = if s.len() > 0 {
            s[0] as nat
        } else {
            0
        };
        first * byte_power((n - 1) as nat) + prefix_number(tail(s), (n - 1) as nat)
    }
}

/// Lexicographic order is total.
proof fn lemma_lex_order(a: Seq<u8>, b: Seq<u8>, c: Seq<u8>)
    ensures
        lex_le(a, a),
        lex_le(a, b) || lex_le(b, a),
        lex_le(a, b) && lex_le(b, a) ==> a == b,
        lex_le(a, b) && lex_le(b, c) ==> lex_le(a, c),
    decreases a.len() + b.len() + c.len(),
{
    if a.len() > 0 {
        lemma_lex_order(
            a.drop_first(),
            if b.len() > 0 {
                b.drop_first()
            } else {
                b
            },
            if c.len() > 0 {
                c.drop_first()
            } else {
                c
            },
        );
        if b.len() > 0 && a[0] == b[0] && a.drop_first() == b.drop_first() {
            assert(a =~= seq![a[0]] + a.drop_first());
            assert(b =~= seq![b[0]] + b.drop_first());
        }
    } else if b.len() == 0 {
        assert(a =~= b);
    }
}

/// A prefix number fits its bytes.
proof fn lemma_prefix_bound(s: Seq<u8>, n: nat)
    ensures
        prefix_number(s, n) < byte_power(n),
    decreases n,
{
    if n > 0 {
        lemma_prefix_bound(tail(s), (n - 1) as nat);
        let first: nat = if s.len() > 0 {
            s[0] as nat
        } else {
            0
        };
        let p = byte_power((n - 1) as nat);
        assert(first * p + p <= 256 * p) by (nonlinear_arith)
            requires
                first <= 255,
                p >= 0,
        ;
    }
}

/// Prefix numbers never run against the lexicographic order.
proof fn lemma_prefix_follows_order(a: Seq<u8>, b: Seq<u8>, n: nat)
    requires
        lex_le(a, b),
    ensures
        prefix_number(a, n) <= prefix_number(b, n),
    decreases n,
{
    if n > 0 {
        let m = (n - 1) as nat;
        let p = byte_power(m);
        let first: nat = if b.len() > 0 {
            b[0] as nat
        } else {
            0
        };
        if a.len() == 0 {
            lemma_prefix_follows_order(tail(a), tail(b), m);
            assert(first * p >= 0) by (nonlinear_arith);
            assert(0 * p == 0);
        } else if a[0] == b[0] {
            lemma_prefix_follows_order(tail(a), tail(b), m);
        } else {
            lemma_prefix_bound(tail(a), m);
            assert(a[0] * p + p <= first * p) by (nonlinear_arith)
                requires
                    a[0] + 1 <= first,
                    p >= 0,
            ;
        }
    }
}

/// One more byte shifts the prefix number.
pub proof fn lemma_prefix_step(s: Seq<u8>, n: nat)
    ensures
        prefix_number(s, n + 1) == 256 * prefix_number(s, n) + (if n < s.len() {
            s[n as int] as nat
        } else {
            0
        }),
    decreases n,
{
    let first: nat = if s.len() > 0 {
        s[0] as nat
    } else {
        0
    };
    if n == 0 {
        assert(byte_power(0) == 1);
        assert(prefix_number(tail(s), 0) == 0);
        assert(prefix_number(s, 1) == first * byte_power(0) + prefix_number(tail(s), 0));
        assert(first * 1 == first) by (nonlinear_arith);
    } else {
        let m = (n - 1) as nat;
        lemma_prefix_step(tail(s), m);
        let p = byte_power(m);
        assert(byte_power(n) == 256 * p);
        assert(first * (256 * p) == 256 * (first * p)) by (nonlinear_arith);
        assert(prefix_number(s, n + 1) == first * byte_power(n) + prefix_number(tail(s), n));
        assert(prefix_number(s, n) == first * p + prefix_number(tail(s), m));
        if n < s.len() {
            assert(tail(s)[m as int] == s[n as int]);
        }
    }
}

/// The first `n` bytes as a big-endian number, zero-padded on the right.
fn prefix_of(bytes: &[u8], n: usize) -> (r: u128)
    requires
        n <= 16,
    ensures
        r == prefix_number(bytes@, n as nat),
        r < byte_power(n as nat),
{
    let mut value: u128 = 0;
    let mut i: usize = 0;
    proof {
        lemma_prefix_bound(bytes@, 0);
    }
    while i < n
        invariant
            i <= n <= 16,
            value == prefix_number(bytes@, i as nat),
            value < byte_power(i as nat),
        decreases n - i,
    {
        proof {
            reveal_with_fuel(byte_power, 17);
            lemma_prefix_step(bytes@, i as nat);
            lemma_prefix_bound(bytes@, (i + 1) as nat);
        }
        let next: u128 = if i < bytes.len() {
            bytes[i] as u128
        } else {
            0
        };
        value = value * 256 + next;
        i += 1;
    }
    value
}

/// Interpret the first 8 bytes of a byte slice as a big-endian number.
///
/// Shorter slices are zero-padded on the right. Provides a monotonic mapping
/// with respect to lexicographic byte order.
///
/// This helper is useful for implementing [`Key::to_model_input`] on custom
/// types that have a byte representation.
pub fn bytes_to_model_input(bytes: &[u8]) -> (r: i128)
    ensures
        r == prefix_number(bytes@, 8),
{
    proof {
        reveal_with_fuel(byte_power, 9);
    }
    prefix_of(bytes, 8) as i128
}

/// Interpret the first 16 bytes of a byte slice as a big-endian number, then
/// apply the order-preserving bijection from `u128` to `i128`.
///
/// Shorter slices are zero-padded on the right. For slices longer than 16
/// bytes, only the first 16 bytes are used. Keys that share a 16-byte prefix
/// will produce the same ordinal (non-injective). The index handles these
/// collisions via comparison-based splits in the node.
///
/// This helper is useful for implementing [`Key::to_exact_ordinal`] on custom
/// types that have a byte representation.
pub fn bytes_to_exact_ordinal(bytes: &[u8]) -> (r: i128)
    ensures
        r == prefix_number(bytes@, 16) - HALF_U128,
{
    centered(prefix_of(bytes, 16))
}

/// Whether `a` is at most `b` in lexicographic order.
pub(crate) fn bytes_le(a: &[u8], b: &[u8]) -> (r: bool)
    ensures
        r == lex_le(a@, b@),
{
    let mut i: usize = 0;
    assert(a@.skip(0) =~= a@ && b@.skip(0) =~= b@);
    while i < a.len()
        invariant
            i <= a@.len(),
            i <= b@.len(),
            lex_le(a@, b@) == lex_le(a@.skip(i as int), b@.skip(i as int)),
        decreases a@.len() - i,
    {
        if i >= b.len() {
            return false;
        }
        if a[i] != b[i] {
            return a[i] < b[i];
        }
        assert(a@.skip(i as int).drop_first() =~= a@.skip(i + 1));
        assert(b@.skip(i as int).drop_first() =~= b@.skip(i + 1));
        i += 1;
    }
    true
}

/// Whether `a` and `b` hold the same bytes.
pub(crate) fn bytes_equal(a: &[u8], b: &[u8]) -> (r: bool)
    ensures
        r == (a@ == b@),
{
    if a.len() != b.len() {
        return false;
    }
    let mut i: usize = 0;
    while i < a.len()
        invariant
            i <= a@.len(),
            a@.len() == b@.len(),
            forall|j: int| 0 <= j < i ==> a@[j] == b@[j],
        decreases a@.len() - i,
    {
        if a[i] != b[i] {
            return false;
        }
        i += 1;
    }
    assert(a@ =~= b@);
    true
}

/// A copy of the bytes.
pub(crate) fn bytes_copy(bytes: &[u8]) -> (r: Vec<u8>)
    ensures
        r@ == bytes@,
{
    let mut copy: Vec<u8> = Vec::new();
    copy.extend_from_slice(bytes);
    assert(copy@ =~= bytes@);
    copy
}

/// Key impl for fixed-size byte arrays.
///
/// Enables byte-array keys like `[u8; 16]` (UUIDs), `[u8; 32]` (hashes), etc.
/// The model input is the number in the first 8 bytes, the ordinal the one in
/// the first 16 bytes. For `N > 16`, distinct keys that share their first 16
/// bytes collide; the index resolves these via comparison.
impl<const N: usize> Key for [u8; N] {
    open spec fn ordered(a: Seq<u8>, b: Seq<u8>) -> bool {
        lex_le(a, b)
    }

    open spec fn model_input(k: Seq<u8>) -> int {
        prefix_number(k, 8) as int
    }

    open spec fn exact_ordinal(k: Seq<u8>) -> int {
        prefix_number(k, 16) - HALF_U128
    }

    proof fn lemma_order(a: Seq<u8>, b: Seq<u8>, c: Seq<u8>) {
        lemma_lex_order(a, b, c);
    }

    proof fn lemma_inputs_follow_order(a: Seq<u8>, b: Seq<u8>) {
        lemma_prefix_follows_order(a, b, 8);
        lemma_prefix_follows_order(a, b, 16);
    }

    fn le(&self, other: &Self) -> (r: bool) {
        bytes_le(self.as_slice(), other.as_slice())
    }

    fn same(&self, other: &Self) -> (r: bool) {
        bytes_equal(self.as_slice(), other.as_slice())
    }

    fn duplicate(&self) -> (r: Self) {
        *self
    }

    fn to_model_input(&self) -> (r: i128) {
        bytes_to_model_input(self.as_slice())
    }

    fn to_exact_ordinal(&self) -> (r: i128) {
        bytes_to_exact_ordinal(self.as_slice())
    }
}

/// Key impl for `String`.
///
/// Uses the UTF-8 byte representation for the order, the model input and the
/// ordinal.
impl Key for String {
    open spec fn ordered(a: Seq<char>, b: Seq<char>) -> bool {
        lex_le(encode_utf8(a), encode_utf8(b))
    }

    open spec fn model_input(k: Seq<char>) -> int {
        prefix_number(encode_utf8(k), 8) as int
    }

    open spec fn exact_ordinal(k: Seq<char>) -> int {
        prefix_number(encode_utf8(k), 16) - HALF_U128
    }

    proof fn lemma_order(a: Seq<char>, b: Seq<char>, c: Seq<char>) {
        lemma_lex_order(encode_utf8(a), encode_utf8(b), encode_utf8(c));
        encode_utf8_decode_utf8(a);
        encode_utf8_decode_utf8(b);
    }

    proof fn lemma_inputs_follow_order(a: Seq<char>, b: Seq<char>) {
        lemma_prefix_follows_order(encode_utf8(a), encode_utf8(b), 8);
        lemma_prefix_follows_order(encode_utf8(a), encode_utf8(b), 16);
    }

    fn le(&self, other: &Self) -> (r: bool) {
        bytes_le(self.as_str().as_bytes(), other.as_str().as_bytes())
    }

    fn same(&self, other: &Self) -> (r: bool) {
        *self == *other
    }

    fn duplicate(&self) -> (r: Self) {
        self.clone()
    }

    fn to_model_input(&self) -> (r: i128) {
        bytes_to_model_input(self.as_str().as_bytes())
    }

    fn to_exact_ordinal(&self) -> (r: i128) {
        bytes_to_exact_ordinal(self.as_str().as_bytes())
    }
}

/// Key impl for `Vec<u8>`.
///
/// Semantics are identical to the fixed-size `[u8; N]` implementation but for
/// dynamically sized vectors.
impl Key for Vec<u8> {
    open spec fn ordered(a: Seq<u8>, b: Seq<u8>) -> bool {
        lex_le(a, b)
    }

    open spec fn model_input(k: Seq<u8>) -> int {
        prefix_number(k, 8) as int
    }

    open spec fn exact_ordinal(k: Seq<u8>) -> int {
        prefix_number(k, 16) - HALF_U128
    }

    proof fn lemma_order(a: Seq<u8>, b: Seq<u8>, c: Seq<u8>) {
        lemma_lex_order(a, b, c);
    }

    proof fn lemma_inputs_follow_order(a: Seq<u8>, b: Seq<u8>) {
        lemma_prefix_follows_order(a, b, 8);
        lemma_prefix_follows_order(a, b, 16);
    }

    fn le(&self, other: &Self) -> (r: bool) {
        bytes_le(self.as_slice(), other.as_slice())
    }

    fn same(&self, other: &Self) -> (r: bool) {
        bytes_equal(self.as_slice(), other.as_slice())
    }

    fn duplicate(&self) -> (r: Self) {
        bytes_copy(self.as_slice())
    }

    fn to_model_input(&self) -> (r: i128) {
        bytes_to_model_input(self.as_slice())
    }

    fn to_exact_ordinal(&self) -> (r: i128) {
        bytes_to_exact_ordinal(self.as_slice())
    }
}

/// Byte strings of equal length up to 16 have equal ordinals only if they are
/// equal.
pub proof fn law_short_byte_ordinals_are_exact(a: Seq<u8>, b: Seq<u8>, n: nat)
    requires
        a.len() == b.len(),
        a.len() <= n,
        prefix_number(a, n) == prefix_number(b, n),
    ensures
        a == b,
    decreases n,
{
    if a.len() > 0 {
        let m = (n - 1) as nat;
        let p = byte_power(m);
        lemma_prefix_bound(tail(a), m);
        lemma_prefix_bound(tail(b), m);
        let (x, y) = (a[0] as int, b[0] as int);
        if x < y {
            assert(x * p + p <= y * p) by (nonlinear_arith)
                requires
                    x + 1 <= y,
                    p >= 0,
            ;
        } else if y < x {
            assert(y * p + p <= x * p) by (nonlinear_arith)
                requires
                    y + 1 <= x,
                    p >= 0,
            ;
        }
        law_short_byte_ordinals_are_exact(tail(a), tail(b), m);
        assert(a =~= seq![a[0]] + tail(a));
        assert(b =~= seq![b[0]] + tail(b));
    } else {
        assert(a =~= b);
    }
}

/// Byte strings that share their first `n` bytes share their prefix number.
pub proof fn law_shared_prefix_shares_number(a: Seq<u8>, b: Seq<u8>, n: nat)
    requires
        a.len() >= n,
        b.len() >= n,
        a.take(n as int) == b.take(n as int),
    ensures
        prefix_number(a, n) == prefix_number(b, n),
    decreases n,
{
    if n > 0 {
        assert(a.take(n as int)[0] == a[0] && b.take(n as int)[0] == b[0]);
        assert(tail(a).take(n - 1) =~= a.take(n as int).drop_first());
        assert(tail(b).take(n - 1) =~= b.take(n as int).drop_first());
        law_shared_prefix_shares_number(tail(a), tail(b), (n - 1) as nat);
    }
}

} // verus!
