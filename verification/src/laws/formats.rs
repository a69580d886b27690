//! What the formats promise: how numbers, byte strings, records of the log and texts
//! are laid out, byte by byte.

use vstd::prelude::*;

use crate::key::byte_power;
use crate::lsm::codec::{
    copy_range, find_framed, framed, le_bytes, le_value, lemma_le_bytes, lemma_unframe,
    push_framed, push_u32, push_u64, read_u32, read_u64, unframe,
};
use crate::lsm::error::{Error, Result};
use crate::lsm::text::{
    decimal, digit_text, digits_text, hex, is_digit, is_number, number_of, padded_decimal,
    parse_number,
};
use crate::lsm::wal::{
    first_record, lemma_record_shrinks, log_entries, LogEntry, Recovered, Wal, WalRecord,
};

verus! {

/// The number in the four bytes at `at`, the least significant byte first.
pub open spec fn u32_at(s: Seq<u8>, at: int) -> int {
    s[at] + 0x100 * s[at + 1] + 0x1_0000 * s[at + 2] + 0x100_0000 * s[at + 3]
}

/// The number in the eight bytes at `at`, the least significant byte first.
pub open spec fn u64_at(s: Seq<u8>, at: int) -> int {
    u32_at(s, at) + 0x1_0000_0000 * u32_at(s, at + 4)
}

/// Four bytes are read as [`u32_at`] says.
pub proof fn lemma_four_bytes(s: Seq<u8>, at: int)
    requires
        0 <= at <= s.len() - 4,
    ensures
        le_value(s.subrange(at, at + 4)) == u32_at(s, at),
{
    let a = s.subrange(at, at + 4);
    let b = a.drop_first();
    let c = b.drop_first();
    let d = c.drop_first();
    assert(d.drop_first() =~= Seq::<u8>::empty());
    assert(le_value(d.drop_first()) == 0);
    assert(le_value(d) == s[at + 3]);
    assert(le_value(c) == s[at + 2] + 256 * le_value(d));
    assert(le_value(b) == s[at + 1] + 256 * le_value(c));
    assert(le_value(a) == s[at] + 256 * le_value(b));
}

/// Eight bytes are read as [`u64_at`] says.
pub proof fn lemma_eight_bytes(s: Seq<u8>, at: int)
    requires
        0 <= at <= s.len() - 8,
    ensures
        le_value(s.subrange(at, at + 8)) == u64_at(s, at),
{
    let a = s.subrange(at, at + 8);
    let b = a.drop_first();
    let c = b.drop_first();
    let d = c.drop_first();
    assert(d.drop_first() =~= s.subrange(at + 4, at + 4 + 4));
    lemma_four_bytes(s, at + 4);
    assert(le_value(d) == s[at + 3] + 256 * le_value(d.drop_first()));
    assert(le_value(c) == s[at + 2] + 256 * le_value(d));
    assert(le_value(b) == s[at + 1] + 256 * le_value(c));
    assert(le_value(a) == s[at] + 256 * le_value(b));
}

/// A number is written as four or eight bytes behind what is there, the least
/// significant byte first.
pub proof fn law_numbers_are_little_endian(
    short: &mut Vec<u8>,
    long: &mut Vec<u8>,
    x: u32,
    y: u64,
)
    requires
        call_ensures(push_u32, (short, x), ()),
        call_ensures(push_u64, (long, y), ()),
    ensures
        final(short)@.len() == old(short)@.len() + 4,
        final(short)@.take(old(short)@.len() as int) == old(short)@,
        u32_at(final(short)@, old(short)@.len() as int) == x,
        final(long)@.len() == old(long)@.len() + 8,
        final(long)@.take(old(long)@.len() as int) == old(long)@,
        u64_at(final(long)@, old(long)@.len() as int) == y,
{
    reveal_with_fuel(byte_power, 9);
    lemma_le_bytes(x as nat, 4);
    lemma_le_bytes(y as nat, 8);
    let (m, n) = (old(short)@.len() as int, old(long)@.len() as int);
    lemma_four_bytes(final(short)@, m);
    lemma_eight_bytes(final(long)@, n);
    assert(final(short)@.subrange(m, m + 4) =~= le_bytes(x as nat, 4));
    assert(final(long)@.subrange(n, n + 8) =~= le_bytes(y as nat, 8));
    assert(final(short)@.take(m) =~= old(short)@);
    assert(final(long)@.take(n) =~= old(long)@);
}

/// A number is read from four or eight bytes, the least significant byte first.
pub proof fn law_numbers_are_read_as_written(bytes: &[u8], at: usize, x: u32, y: u64)
    requires
        at + 4 <= bytes@.len() ==> call_ensures(read_u32, (bytes, at), x),
        at + 8 <= bytes@.len() ==> call_ensures(read_u64, (bytes, at), y),
    ensures
        at + 4 <= bytes@.len() ==> x == u32_at(bytes@, at as int),
        at + 8 <= bytes@.len() ==> y == u64_at(bytes@, at as int),
{
    if at + 4 <= bytes@.len() {
        lemma_four_bytes(bytes@, at as int);
    }
    if at + 8 <= bytes@.len() {
        lemma_eight_bytes(bytes@, at as int);
    }
}

/// The byte string stands at `at`: its length in four bytes, and then its bytes.
pub open spec fn stands_at(s: Seq<u8>, at: int, data: Seq<u8>) -> bool {
    &&& 0 <= at
    &&& at + 4 + data.len() <= s.len()
    &&& u32_at(s, at) == data.len()
    &&& s.subrange(at + 4, at + 4 + data.len()) == data
}

/// What is framed stands at its place.
pub proof fn lemma_stands(s: Seq<u8>, at: int, data: Seq<u8>)
    requires
        0 <= at <= s.len(),
        data.len() < 0x1_0000_0000,
        at + framed(data).len() <= s.len(),
        s.subrange(at, at + framed(data).len()) == framed(data),
    ensures
        stands_at(s, at, data),
        framed(data).len() == data.len() + 4,
{
    reveal_with_fuel(byte_power, 5);
    lemma_le_bytes(data.len(), 4);
    let f = framed(data);
    assert(f.subrange(0, 4) =~= le_bytes(data.len(), 4));
    assert(s.subrange(at, at + 4) =~= f.subrange(0, 4));
    lemma_four_bytes(s, at);
    assert(f.subrange(4, 4 + data.len() as int) =~= data);
    assert(s.subrange(at + 4, at + 4 + data.len()) =~= f.subrange(4, 4 + data.len() as int));
}

/// A byte string is written with its length in front.
pub proof fn law_byte_strings_have_their_length_in_front(out: &mut Vec<u8>, data: &[u8])
    requires
        call_ensures(push_framed, (out, data), ()),
        data@.len() < 0x1_0000_0000,
    ensures
        final(out)@.len() == old(out)@.len() + 4 + data@.len(),
        final(out)@.take(old(out)@.len() as int) == old(out)@,
        stands_at(final(out)@, old(out)@.len() as int, data@),
{
    lemma_unframe(data@, Seq::empty());
    let n = old(out)@.len() as int;
    assert(final(out)@.subrange(n, n + framed(data@).len()) =~= framed(data@));
    lemma_stands(final(out)@, n, data@);
    assert(final(out)@.take(n) =~= old(out)@);
}

/// A byte string is found exactly if its length and that many bytes are there. It
/// starts behind the length.
pub proof fn law_byte_strings_are_found_by_their_length(
    bytes: &[u8],
    at: usize,
    r: Option<(usize, usize)>,
)
    requires
        at <= bytes@.len(),
        call_ensures(find_framed, (bytes, at), r),
    ensures
        r is Some <==> at + 4 <= bytes@.len() && at + 4 + u32_at(bytes@, at as int)
            <= bytes@.len(),
        r matches Some((start, end)) ==> start == at + 4 && end == start + u32_at(
            bytes@,
            at as int,
        ),
{
    let s = bytes@.skip(at as int);
    if s.len() >= 4 {
        assert(s.take(4) =~= bytes@.subrange(at as int, at + 4));
        lemma_four_bytes(bytes@, at as int);
    }
    if let Some((start, end)) = r {
        let n = u32_at(bytes@, at as int);
        let (data, _) = unframe(s)->0;
        assert(data.len() == n);
        assert(s.skip(4 + n).len() == bytes@.skip(end as int).len());
    }
}

/// A copy of a range holds the bytes of the range.
pub proof fn law_ranges_are_copied(bytes: &[u8], start: usize, end: usize, r: Vec<u8>)
    requires
        start <= end <= bytes@.len(),
        call_ensures(copy_range, (bytes, start, end), r),
    ensures
        r@.len() == end - start,
        forall|i: int| 0 <= i < r@.len() ==> #[trigger] r@[i] == bytes@[start + i],
{
}

/// A put is logged behind what is buffered, as a byte 1, the key and the value.
pub proof fn law_puts_are_logged(
    w: &mut Wal,
    before: &mut Wal,
    after: &mut Wal,
    key: &[u8],
    value: &[u8],
    bytes_before: Vec<u8>,
    bytes_after: Vec<u8>,
)
    requires
        call_ensures(Wal::append_put, (w, key, value), ()),
        *old(before) == *old(w),
        *old(after) == *final(w),
        call_ensures(Wal::sync, (before,), bytes_before),
        call_ensures(Wal::sync, (after,), bytes_after),
        key@.len() < 0x1_0000_0000,
        value@.len() < 0x1_0000_0000,
    ensures
        ({
            let (s, n) = (bytes_after@, bytes_before@.len() as int);
            &&& s.take(n) == bytes_before@
            &&& s.len() == n + 1 + 4 + key@.len() + 4 + value@.len()
            &&& s[n] == 1
            &&& stands_at(s, n + 1, key@)
            &&& stands_at(s, n + 1 + 4 + key@.len(), value@)
        }),
{
    let (s, n) = (bytes_after@, bytes_before@.len() as int);
    lemma_unframe(key@, Seq::empty());
    lemma_unframe(value@, Seq::empty());
    let m = n + 1 + framed(key@).len() as int;
    assert(s.take(n) =~= bytes_before@);
    assert(s.subrange(n + 1, m) =~= framed(key@));
    assert(s.subrange(m, m + framed(value@).len()) =~= framed(value@));
    lemma_stands(s, n + 1, key@);
    lemma_stands(s, m, value@);
}

/// A delete is logged behind what is buffered, as a byte 2, the key and a length of
/// zero.
pub proof fn law_deletes_are_logged(
    w: &mut Wal,
    before: &mut Wal,
    after: &mut Wal,
    key: &[u8],
    bytes_before: Vec<u8>,
    bytes_after: Vec<u8>,
)
    requires
        call_ensures(Wal::append_delete, (w, key), ()),
        *old(before) == *old(w),
        *old(after) == *final(w),
        call_ensures(Wal::sync, (before,), bytes_before),
        call_ensures(Wal::sync, (after,), bytes_after),
        key@.len() < 0x1_0000_0000,
    ensures
        ({
            let (s, n) = (bytes_after@, bytes_before@.len() as int);
            &&& s.take(n) == bytes_before@
            &&& s.len() == n + 1 + 4 + key@.len() + 4
            &&& s[n] == 2
            &&& stands_at(s, n + 1, key@)
            &&& u32_at(s, n + 1 + 4 + key@.len()) == 0
        }),
{
    let (s, n) = (bytes_after@, bytes_before@.len() as int);
    let nothing = Seq::<u8>::empty();
    lemma_unframe(key@, Seq::empty());
    lemma_unframe(nothing, Seq::empty());
    let m = n + 1 + framed(key@).len() as int;
    assert(s.take(n) =~= bytes_before@);
    assert(s.subrange(n + 1, m) =~= framed(key@));
    assert(s.subrange(m, m + framed(nothing).len()) =~= framed(nothing));
    lemma_stands(s, n + 1, key@);
    lemma_stands(s, m, nothing);
}

/// Nothing is buffered in a new log, after its bytes were taken and after it was
/// truncated.
pub proof fn law_taken_bytes_are_gone(
    fresh: Wal,
    synced: &mut Wal,
    truncated: &mut Wal,
    taken: Vec<u8>,
    a: &mut Wal,
    b: &mut Wal,
    c: &mut Wal,
    rest: (Vec<u8>, Vec<u8>, Vec<u8>),
)
    requires
        call_ensures(Wal::open, (), fresh),
        call_ensures(Wal::sync, (synced,), taken),
        call_ensures(Wal::truncate, (truncated,), ()),
        *old(a) == fresh,
        *old(b) == *final(synced),
        *old(c) == *final(truncated),
        call_ensures(Wal::sync, (a,), rest.0),
        call_ensures(Wal::sync, (b,), rest.1),
        call_ensures(Wal::sync, (c,), rest.2),
    ensures
        rest.0@.len() == 0,
        rest.1@.len() == 0,
        rest.2@.len() == 0,
{
}

/// A byte string that can be split off stands in front.
proof fn lemma_split_off(s: Seq<u8>)
    ensures
        unframe(s) is Some <==> s.len() >= 4 && s.len() >= 4 + u32_at(s, 0),
        unframe(s) matches Some((data, rest)) ==> stands_at(s, 0, data) && rest == s.skip(
            4 + data.len() as int,
        ) && data.len() == u32_at(s, 0),
{
    if s.len() >= 4 {
        assert(s.subrange(0, 4) =~= s.take(4));
        lemma_four_bytes(s, 0);
    }
}

/// The log starts with a complete record: a type byte, a key and a value, of the lengths
/// in front of them.
pub open spec fn starts_with_record(s: Seq<u8>) -> bool {
    &&& s.len() >= 5
    &&& s.len() >= 5 + u32_at(s, 1) + 4
    &&& s.len() >= 5 + u32_at(s, 1) + 4 + u32_at(s, 5 + u32_at(s, 1))
}

/// The length of the record that a log starts with.
pub open spec fn record_len(s: Seq<u8>) -> int {
    5 + u32_at(s, 1) + 4 + u32_at(s, 5 + u32_at(s, 1))
}

/// The first record is the one that the log starts with.
proof fn lemma_record(s: Seq<u8>)
    ensures
        first_record(s) is Some <==> starts_with_record(s),
        first_record(s) matches Some((kind, key, value, rest)) ==> {
            &&& kind == s[0]
            &&& stands_at(s, 1, key)
            &&& stands_at(s, 5 + key.len() as int, value)
            &&& rest == s.skip(record_len(s))
            &&& record_len(s) == 9 + key.len() + value.len()
        },
{
    if s.len() > 0 {
        let t = s.skip(1);
        lemma_split_off(t);
        if s.len() >= 5 {
            assert(u32_at(t, 0) == u32_at(s, 1));
        }
        if let Some((key, rest)) = unframe(t) {
            lemma_split_off(rest);
            let n = 5 + key.len() as int;
            assert(rest =~= s.skip(n));
            assert(s.subrange(5, n) =~= t.subrange(4, 4 + key.len() as int));
            if s.len() >= n + 4 {
                assert(u32_at(rest, 0) == u32_at(s, n));
            }
            if let Some((value, after)) = unframe(rest) {
                let m = n + 4 + value.len() as int;
                assert(s.subrange(n + 4, m) =~= rest.subrange(4, 4 + value.len() as int));
                assert(after =~= s.skip(m));
            }
        }
    }
}

/// A log is replayed record by record: a complete record of type 1 is a put and one of
/// type 2 a delete, and the records of the rest follow. The replay stops at what is no
/// complete record, and fails at a complete record of another type.
pub proof fn law_logs_are_replayed_record_by_record(
    bytes: &[u8],
    rest: &[u8],
    r: Result<Recovered>,
    of_rest: Result<Recovered>,
)
    requires
        starts_with_record(bytes@) ==> rest@ == bytes@.skip(record_len(bytes@)),
        call_ensures(Wal::replay, (bytes,), r),
        call_ensures(Wal::replay, (rest,), of_rest),
    ensures
        !starts_with_record(bytes@) ==> r is Ok && r->Ok_0.records@.len() == 0
            && r->Ok_0.valid_len == 0,
        starts_with_record(bytes@) && bytes@[0] != 1 && bytes@[0] != 2 ==> r is Err,
        starts_with_record(bytes@) && (bytes@[0] == 1 || bytes@[0] == 2) ==> {
            &&& r is Ok <==> of_rest is Ok
            &&& r is Ok ==> {
                let (all, more) = (r->Ok_0, of_rest->Ok_0);
                &&& all.valid_len == record_len(bytes@) + more.valid_len
                &&& all.records@.len() == more.records@.len() + 1
                &&& forall|i: int|
                    0 <= i < more.records@.len() ==> (#[trigger] all.records@[i + 1])@
                        == more.records@[i]@
                &&& match all.records@[0] {
                    WalRecord::Put { key, value } => bytes@[0] == 1 && stands_at(bytes@, 1, key@)
                        && stands_at(bytes@, 5 + key@.len() as int, value@),
                    WalRecord::Delete { key } => bytes@[0] == 2 && stands_at(bytes@, 1, key@),
                }
            }
        },
{
    let s = bytes@;
    let view = |w: WalRecord| w@;
    lemma_record(s);
    lemma_record_shrinks(s);
    if starts_with_record(s) && (s[0] == 1 || s[0] == 2) {
        let (kind, key, value, after) = first_record(s)->0;
        assert(after == rest@);
        if r is Ok {
            let (all, more) = (r->Ok_0, of_rest->Ok_0);
            let (a, b) = (all.records@.map_values(view), more.records@.map_values(view));
            let e = if kind == 1 {
                LogEntry::Put(key, value)
            } else {
                LogEntry::Delete(key)
            };
            assert(log_entries(s) == Ok::<Seq<LogEntry>, u8>(a));
            assert(log_entries(rest@) == Ok::<Seq<LogEntry>, u8>(b));
            assert(a == seq![e] + b);
            assert(a[0] == e);
            assert(all.records@[0]@ == a[0]);
            assert forall|i: int| 0 <= i < more.records@.len() implies (
            #[trigger] all.records@[i + 1])@ == more.records@[i]@ by {
                assert(a[i + 1] == b[i]);
            }
        }
    } else if !starts_with_record(s) {
        assert(log_entries(s) == Ok::<Seq<LogEntry>, u8>(Seq::empty()));
        assert(r->Ok_0.records@.map_values(view).len() == 0);
    }
}

/// Recovering gives the records of the replay, or its error.
pub proof fn law_recovery_gives_the_records(
    bytes: &[u8],
    r: Result<Recovered>,
    records: Result<Vec<WalRecord>>,
)
    requires
        call_ensures(Wal::replay, (bytes,), r),
        call_ensures(Wal::recover, (bytes,), records),
    ensures
        records is Ok <==> r is Ok,
        r is Ok ==> {
            &&& records->Ok_0@.len() == r->Ok_0.records@.len()
            &&& forall|i: int|
                0 <= i < r->Ok_0.records@.len() ==> (#[trigger] records->Ok_0@[i])@
                    == r->Ok_0.records@[i]@
        },
        r matches Err(e) ==> e is Corruption && records->Err_0 is Corruption
            && e->Corruption_0@ == records->Err_0->Corruption_0@,
{
    if r is Ok {
        let view = |w: WalRecord| w@;
        let (a, b) = (records->Ok_0@.map_values(view), r->Ok_0.records@.map_values(view));
        assert(a == b);
        assert(a.len() == b.len());
        assert forall|i: int| 0 <= i < r->Ok_0.records@.len() implies (
        #[trigger] records->Ok_0@[i])@ == r->Ok_0.records@[i]@ by {
            assert(a[i] == b[i]);
        }
    }
}

/// A log that fails to replay names the type byte in hexadecimal.
pub proof fn law_unknown_records_are_named(bytes: &[u8], r: Result<Recovered>, kind: String)
    requires
        starts_with_record(bytes@),
        bytes@[0] != 1 && bytes@[0] != 2,
        call_ensures(Wal::replay, (bytes,), r),
        call_ensures(hex, (bytes@[0] as u32,), kind),
    ensures
        r matches Err(Error::Corruption(message)) && message@ == "unknown WAL record type: "@
            + kind@,
{
    lemma_record(bytes@);
}

/// The value of a digit in a base up to sixteen, `None` for any other character.
pub open spec fn digit_value(c: char) -> Option<int> {
    if '0' <= c && c <= '9' {
        Some(c as int - '0' as int)
    } else if 'a' <= c && c <= 'f' {
        Some(c as int - 'a' as int + 10)
    } else {
        None
    }
}

/// The text consists of digits of the base and has the given value.
pub open spec fn has_value(s: Seq<char>, base: int, x: int) -> bool
    decreases s.len(),
{
    if s.len() == 0 {
        x == 0
    } else {
        let last = digit_value(s.last());
        &&& last is Some
        &&& 0 <= last->0 < base
        &&& x % base == last->0
        &&& has_value(s.drop_last(), base, x / base)
    }
}

/// The digits of a number have its value and do not start with a zero, unless the number
/// is zero.
proof fn lemma_digits(x: nat, base: nat)
    requires
        2 <= base <= 16,
    ensures
        has_value(digits_text(x, base), base as int, x as int),
        digits_text(x, base).len() > 0,
        digits_text(x, base)[0] == '0' ==> digits_text(x, base).len() == 1 && x == 0,
    decreases x,
{
    let s = digits_text(x, base);
    if x < base {
        assert(s =~= seq![digit_text(x)]);
        assert(s.last() == digit_text(x));
        assert(s.drop_last() =~= Seq::<char>::empty());
        assert(x as int % base as int == x) by (nonlinear_arith)
            requires
                0 <= x < base,
        ;
        assert(x as int / base as int == 0) by (nonlinear_arith)
            requires
                0 <= x < base,
        ;
        assert(has_value(s.drop_last(), base as int, 0));
    } else {
        assert(x / base < x && x / base >= 1) by (nonlinear_arith)
            requires
                x >= base,
                base >= 2,
        ;
        assert(0 <= x % base < base) by (nonlinear_arith)
            requires
                base >= 2,
        ;
        lemma_digits(x / base, base);
        assert(s.drop_last() =~= digits_text(x / base, base));
        assert(s.last() == digit_text(x % base));
        assert(s[0] == digits_text(x / base, base)[0]);
    }
}

/// A number is written in decimal digits, without leading zeros, and in hexadecimal with
/// lower case digits behind a prefix.
pub proof fn law_numbers_are_written_in_digits(x: u64, y: u32, d: String, h: String)
    requires
        call_ensures(decimal, (x,), d),
        call_ensures(hex, (y,), h),
    ensures
        has_value(d@, 10, x as int),
        d@.len() > 0,
        d@[0] == '0' ==> x == 0 && d@.len() == 1,
        h@.len() > 2,
        h@[0] == '0' && h@[1] == 'x',
        has_value(h@.skip(2), 16, y as int),
        h@[2] == '0' ==> y == 0 && h@.len() == 3,
{
    lemma_digits(x as nat, 10);
    lemma_digits(y as nat, 16);
    reveal_strlit("0x");
    assert(h@.skip(2) =~= digits_text(y as nat, 16));
    assert(h@[2] == h@.skip(2)[0]);
}

/// A padded number is the number with zeros in front, and has at least the given width.
pub proof fn law_padding_is_made_of_zeros(x: u64, width: usize, d: String, p: String)
    requires
        call_ensures(decimal, (x,), d),
        call_ensures(padded_decimal, (x, width), p),
    ensures
        p@.len() == if d@.len() < width {
            width as nat
        } else {
            d@.len()
        },
        p@.skip(p@.len() - d@.len()) == d@,
        forall|i: int| 0 <= i < p@.len() - d@.len() ==> #[trigger] p@[i] == '0',
{
    assert(p@.skip(p@.len() - d@.len()) =~= d@);
}

/// Digits give a number, as `has_value` says.
proof fn lemma_number(s: Seq<char>)
    requires
        forall|i: int| 0 <= i < s.len() ==> is_digit(#[trigger] s[i]),
    ensures
        has_value(s, 10, number_of(s) as int),
    decreases s.len(),
{
    if s.len() > 0 {
        lemma_number(s.drop_last());
        assert(is_digit(s[s.len() - 1]));
    }
}

/// A number is read from a text exactly if there are only decimal digits, at least one
/// of them, and it fits.
pub proof fn law_numbers_are_read_from_digits(
    text: &str,
    from: usize,
    to: usize,
    r: Option<u64>,
)
    requires
        from <= to <= text@.len(),
        call_ensures(parse_number, (text, from, to), r),
    ensures
        r matches Some(x) ==> from < to && has_value(
            text@.subrange(from as int, to as int),
            10,
            x as int,
        ),
        r is None ==> from == to || (exists|i: int|
            from <= i < to && !('0' <= #[trigger] text@[i] && text@[i] <= '9')) || (exists|x: int|
            x > u64::MAX && #[trigger] has_value(text@.subrange(from as int, to as int), 10, x)),
{
    let s = text@.subrange(from as int, to as int);
    if is_number(s) {
        lemma_number(s);
    } else if from < to {
        let i = choose|i: int| 0 <= i < s.len() && !is_digit(#[trigger] s[i]);
        assert(s[i] == text@[from + i]);
    }
}

/// The messages of errors.
pub proof fn law_error_messages(e: &Error, r: String)
    requires
        call_ensures(Error::to_string, (e,), r),
    ensures
        match *e {
            Error::Io(_) => "I/O error: "@.is_prefix_of(r@),
            Error::Corruption(message) => r@ == "corruption: "@ + message@,
            Error::Poisoned => r@ == "lock poisoned"@,
        },
{
}

} // verus!
