//! Little-endian numbers and length-prefixed byte strings, the building blocks
//! of the log and table formats.

use vstd::prelude::*;

use crate::key::byte_power;

verus! {

/// The `n` least significant bytes of `x`, least significant first.
pub open spec fn le_bytes(x: nat, n: nat) -> Seq<u8>
    decreases n,
{
    if n == 0 {
        Seq::empty()
    } else {
        seq![(x % 256) as u8] + le_bytes(x / 256, (n - 1) as nat)
    }
}

/// The number whose bytes are `s`, least significant first.
pub open spec fn le_value(s: Seq<u8>) -> nat
    decreases s.len(),
{
    if s.len() == 0 {
        0
    } else {
        s[0] as nat + 256 * le_value(s.drop_first())
    }
}

/// The length of `s` as it is stored, modulo the range of `u32`.
pub open spec fn stored_len(s: Seq<u8>) -> nat {
    s.len() % 0x1_0000_0000
}

/// `s` with its length in front.
pub open spec fn framed(s: Seq<u8>) -> Seq<u8> {
    le_bytes(stored_len(s), 4) + s
}

/// Split a length-prefixed byte string off the front of `s`. `None` if `s` is
/// too short to hold it.
pub open spec fn unframe(s: Seq<u8>) -> Option<(Seq<u8>, Seq<u8>)> {
    if s.len() < 4 {
        None
    } else {
        let n = le_value(s.take(4));
        if s.len() < 4 + n {
            None
        } else {
            Some((s.subrange(4, 4 + n as int), s.skip(4 + n as int)))
        }
    }
}

/// The bytes of a number have the requested length and give the number back.
pub proof fn lemma_le_bytes(x: nat, n: nat)
    ensures
        le_bytes(x, n).len() == n,
        x < byte_power(n) ==> le_value(le_bytes(x, n)) == x,
    decreases n,
{
    if n > 0 {
        let rest = le_bytes(x / 256, (n - 1) as nat);
        lemma_le_bytes(x / 256, (n - 1) as nat);
        assert(le_bytes(x, n).drop_first() =~= rest);
        assert(x < 256 * byte_power((n - 1) as nat) ==> x / 256 < byte_power((n - 1) as nat));
    }
}

/// A number fits its bytes.
pub proof fn lemma_le_value_bound(s: Seq<u8>)
    ensures
        le_value(s) < byte_power(s.len()),
    decreases s.len(),
{
    if s.len() > 0 {
        lemma_le_value_bound(s.drop_first());
    }
}

/// A length-prefixed byte string is split off again as it was.
pub proof fn lemma_unframe(s: Seq<u8>, rest: Seq<u8>)
    requires
        s.len() < 0x1_0000_0000,
    ensures
        unframe(framed(s) + rest) == Some((s, rest)),
        framed(s).len() == 4 + s.len(),
{
    reveal_with_fuel(byte_power, 5);
    lemma_le_bytes(s.len(), 4);
    let all = framed(s) + rest;
    assert(all.take(4) =~= le_bytes(s.len(), 4));
    assert(all.subrange(4, 4 + s.len() as int) =~= s);
    assert(all.skip(4 + s.len() as int) =~= rest);
}

/// A strict prefix of a length-prefixed byte string is too short to hold it.
pub proof fn lemma_unframe_short(s: Seq<u8>, n: int)
    requires
        s.len() < 0x1_0000_0000,
        0 <= n < framed(s).len(),
    ensures
        unframe(framed(s).take(n)) is None,
{
    reveal_with_fuel(byte_power, 5);
    lemma_le_bytes(s.len(), 4);
    if n >= 4 {
        assert(framed(s).take(n).take(4) =~= le_bytes(s.len(), 4));
    }
}

/// Append the four bytes of `x`.
pub fn push_u32(out: &mut Vec<u8>, x: u32)
    ensures
        final(out)@ == old(out)@ + le_bytes(x as nat, 4),
{
    push_number(out, x as u64, 4);
}

/// Append the eight bytes of `x`.
pub fn push_u64(out: &mut Vec<u8>, x: u64)
    ensures
        final(out)@ == old(out)@ + le_bytes(x as nat, 8),
{
    push_number(out, x, 8);
}

/// Append the `n` least significant bytes of `x`.
fn push_number(out: &mut Vec<u8>, x: u64, n: usize)
    ensures
        final(out)@ == old(out)@ + le_bytes(x as nat, n as nat),
{
    let mut rest: u64 = x;
    let mut left: usize = n;
    assert(out@ + le_bytes(x as nat, n as nat) =~= old(out)@ + le_bytes(x as nat, n as nat));
    while left > 0
        invariant
            out@ + le_bytes(rest as nat, left as nat) == old(out)@ + le_bytes(x as nat, n as nat),
        decreases left,
    {
        let ghost before_step = out@;
        let byte: u8 = (rest % 256) as u8;
        out.push(byte);
        proof {
            let tail = le_bytes((rest / 256) as nat, (left - 1) as nat);
            assert(le_bytes(rest as nat, left as nat) == seq![byte] + tail);
            assert(out@ + tail =~= before_step + (seq![byte] + tail));
        }
        rest = rest / 256;
        left -= 1;
    }
    assert(out@ + le_bytes(rest as nat, 0) =~= out@);
}

/// Read the number in the four bytes at `at`.
pub fn read_u32(bytes: &[u8], at: usize) -> (r: u32)
    requires
        at + 4 <= bytes@.len(),
    ensures
        r == le_value(bytes@.subrange(at as int, at + 4)),
{
    proof {
        lemma_le_value_bound(bytes@.subrange(at as int, at + 4));
        reveal_with_fuel(byte_power, 5);
    }
    read_number(bytes, at, 4) as u32
}

/// Read the number in the eight bytes at `at`.
pub fn read_u64(bytes: &[u8], at: usize) -> (r: u64)
    requires
        at + 8 <= bytes@.len(),
    ensures
        r == le_value(bytes@.subrange(at as int, at + 8)),
{
    read_number(bytes, at, 8)
}

/// Read the number in the `n` bytes at `at`.
fn read_number(bytes: &[u8], at: usize, n: usize) -> (r: u64)
    requires
        at + n <= bytes@.len(),
        n <= 8,
    ensures
        r == le_value(bytes@.subrange(at as int, at + n)),
{
    let mut value: u64 = 0;
    let mut left: usize = n;
    let total: usize = bytes.len();
    assert(bytes@.subrange(at + n, at + n) =~= Seq::empty());
    while left > 0
        invariant
            left <= n <= 8,
            total == bytes@.len(),
            at + n <= bytes@.len(),
            value == le_value(bytes@.subrange(at + left, at + n)),
        decreases left,
    {
        left -= 1;
        proof {
            let s = bytes@.subrange(at + left, at + n);
            assert(s.drop_first() =~= bytes@.subrange(at + left + 1, at + n));
            assert(s[0] == bytes@[at + left]);
            lemma_le_value_bound(s);
            reveal_with_fuel(byte_power, 9);
        }
        value = bytes[at + left] as u64 + 256 * value;
    }
    value
}

/// Append `data` with its length in front.
pub fn push_framed(out: &mut Vec<u8>, data: &[u8])
    ensures
        final(out)@ == old(out)@ + framed(data@),
{
    let len: u32 = (data.len() as u64 % 0x1_0000_0000) as u32;
    push_u32(out, len);
    out.extend_from_slice(data);
    assert(out@ =~= old(out)@ + framed(data@));
}

/// Find the length-prefixed byte string at `at`: where it starts and ends.
/// `None` if there is none in full.
pub fn find_framed(bytes: &[u8], at: usize) -> (r: Option<(usize, usize)>)
    requires
        at <= bytes@.len(),
    ensures
        match r {
            Some((start, end)) => {
                &&& at < start <= end <= bytes@.len()
                &&& unframe(bytes@.skip(at as int)) == Some(
                    (bytes@.subrange(start as int, end as int), bytes@.skip(end as int)),
                )
            },
            None => unframe(bytes@.skip(at as int)) is None,
        },
{
    let ghost s = bytes@.skip(at as int);
    if bytes.len() - at < 4 {
        return None;
    }
    assert(s.take(4) =~= bytes@.subrange(at as int, at + 4));
    let n: u32 = read_u32(bytes, at);
    let start: usize = at + 4;
    if ((bytes.len() - start) as u64) < n as u64 {
        return None;
    }
    let end: usize = start + n as usize;
    proof {
        assert(s.subrange(4, 4 + n as int) =~= bytes@.subrange(start as int, end as int));
        assert(s.skip(4 + n as int) =~= bytes@.skip(end as int));
    }
    Some((start, end))
}

/// A copy of the bytes from `start` to `end`.
pub fn copy_range(bytes: &[u8], start: usize, end: usize) -> (r: Vec<u8>)
    requires
        start <= end <= bytes@.len(),
    ensures
        r@ == bytes@.subrange(start as int, end as int),
{
    crate::key::bytes_copy(vstd::slice::slice_subrange(bytes, start, end))
}

} // verus!
