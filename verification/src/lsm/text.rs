//! Numbers as text, for file names and messages.

use vstd::prelude::*;

verus! {

/// The digit characters.
pub open spec fn digit_text(d: nat) -> char {
    if d < 10 {
        (('0' as u32) + d) as char
    } else {
        (('a' as u32) + (d - 10)) as char
    }
}

/// The digits of `x` in the given base, without leading zeros.
pub open spec fn digits_text(x: nat, base: nat) -> Seq<char>
    decreases x,
{
    if base < 2 || x < base {
        seq![digit_text(x)]
    } else {
        proof {
            assert(x / base < x) by (nonlinear_arith)
                requires
                    x >= base,
                    base >= 2,
            ;
        }
        digits_text(x / base, base).push(digit_text(x % base))
    }
}

/// `x` in hexadecimal, with the usual prefix.
pub open spec fn hex_text(x: nat) -> Seq<char> {
    "0x"@ + digits_text(x, 16)
}

/// `s` filled up with zeros on the left to at least `width` characters.
pub open spec fn zero_padded(s: Seq<char>, width: nat) -> Seq<char> {
    if s.len() < width {
        Seq::new((width - s.len()) as nat, |i: int| '0') + s
    } else {
        s
    }
}

/// The character of a digit.
fn digit(d: u8) -> (r: &'static str)
    requires
        d < 16,
    ensures
        r@ == seq![digit_text(d as nat)],
{
    proof {
        reveal_strlit("0");
        reveal_strlit("1");
        reveal_strlit("2");
        reveal_strlit("3");
        reveal_strlit("4");
        reveal_strlit("5");
        reveal_strlit("6");
        reveal_strlit("7");
        reveal_strlit("8");
        reveal_strlit("9");
        reveal_strlit("a");
        reveal_strlit("b");
        reveal_strlit("c");
        reveal_strlit("d");
        reveal_strlit("e");
        reveal_strlit("f");
    }
    let r: &'static str = match d {
        0 => "0",
        1 => "1",
        2 => "2",
        3 => "3",
        4 => "4",
        5 => "5",
        6 => "6",
        7 => "7",
        8 => "8",
        9 => "9",
        10 => "a",
        11 => "b",
        12 => "c",
        13 => "d",
        14 => "e",
        _ => "f",
    };
    assert(r@ =~= seq![digit_text(d as nat)]);
    r
}

/// The digits of `x` in the given base, without leading zeros.
fn digits(x: u64, base: u64) -> (r: String)
    requires
        2 <= base <= 16,
    ensures
        r@ == digits_text(x as nat, base as nat),
    decreases x,
{
    if x < base {
        digit(x as u8).to_owned()
    } else {
        assert(x / base < x) by (nonlinear_arith)
            requires
                x >= base,
                base >= 2,
        ;
        assert(x % base < base) by (nonlinear_arith)
            requires
                base >= 2,
        ;
        let mut text: String = digits(x / base, base);
        let last: u8 = (x % base) as u8;
        text.append(digit(last));
        assert(text@ =~= digits_text(x as nat, base as nat));
        text
    }
}

/// `x` in hexadecimal, with the usual prefix.
pub fn hex(x: u32) -> (r: String)
    ensures
        r@ == hex_text(x as nat),
{
    let mut text: String = "0x".to_owned();
    let number: String = digits(x as u64, 16);
    text.append(number.as_str());
    text
}

/// `x` in decimal.
pub fn decimal(x: u64) -> (r: String)
    ensures
        r@ == digits_text(x as nat, 10),
{
    digits(x, 10)
}

/// `x` in decimal, filled up with zeros on the left to at least `width`
/// characters.
pub fn padded_decimal(x: u64, width: usize) -> (r: String)
    ensures
        r@ == zero_padded(digits_text(x as nat, 10), width as nat),
{
    let number: String = decimal(x);
    let len: usize = number.as_str().unicode_len();
    let mut text: String = String::new();
    let mut i: usize = len;
    while i < width
        invariant
            len <= i,
            i <= width || i == len,
            text@ == Seq::new((i - len) as nat, |j: int| '0'),
        decreases width - i,
    {
        proof {
            reveal_strlit("0");
        }
        text.append("0");
        assert(text@ =~= Seq::new((i + 1 - len) as nat, |j: int| '0'));
        i += 1;
    }
    text.append(number.as_str());
    assert(text@ =~= zero_padded(digits_text(x as nat, 10), width as nat));
    text
}

/// A decimal digit.
pub open spec fn is_digit(c: char) -> bool {
    '0' <= c && c <= '9'
}

/// All characters are decimal digits, and there is one.
pub open spec fn is_number(s: Seq<char>) -> bool {
    &&& s.len() > 0
    &&& forall|i: int| 0 <= i < s.len() ==> is_digit(#[trigger] s[i])
}

/// The number that decimal digits stand for.
pub open spec fn number_of(s: Seq<char>) -> nat
    decreases s.len(),
{
    if s.len() == 0 {
        0
    } else {
        number_of(s.drop_last()) * 10 + (s.last() as u32 - '0' as u32) as nat
    }
}

/// The digits of a number give the number back.
pub proof fn lemma_digits_text(x: nat)
    ensures
        is_number(digits_text(x, 10)),
        number_of(digits_text(x, 10)) == x,
    decreases x,
{
    let s = digits_text(x, 10);
    if x < 10 {
        assert(s.drop_last() =~= Seq::<char>::empty());
        assert(number_of(s.drop_last()) == 0);
    } else {
        lemma_digits_text(x / 10);
        assert(s.drop_last() =~= digits_text(x / 10, 10));
    }
}

/// Zeros on the left do not change the number.
pub proof fn lemma_zero_padded(s: Seq<char>, width: nat)
    requires
        is_number(s),
    ensures
        is_number(zero_padded(s, width)),
        number_of(zero_padded(s, width)) == number_of(s),
{
    if s.len() < width {
        lemma_zeros((width - s.len()) as nat, s);
    }
}

/// Zeros in front of digits do not change the number.
proof fn lemma_zeros(n: nat, s: Seq<char>)
    ensures
        number_of(Seq::new(n, |i: int| '0') + s) == number_of(s),
    decreases n, s.len(),
{
    let zeros = Seq::new(n, |i: int| '0');
    let t = zeros + s;
    if s.len() > 0 {
        lemma_zeros(n, s.drop_last());
        assert(t.drop_last() =~= zeros + s.drop_last());
    } else if n > 0 {
        lemma_zeros((n - 1) as nat, s);
        assert(t.drop_last() =~= Seq::new((n - 1) as nat, |i: int| '0') + s);
    }
}

/// Taking digits off the end makes the number smaller.
proof fn lemma_number_prefix(s: Seq<char>, n: int)
    requires
        0 <= n <= s.len(),
    ensures
        number_of(s.take(n)) <= number_of(s),
    decreases s.len(),
{
    if n < s.len() {
        lemma_number_prefix(s.drop_last(), n);
        assert(s.drop_last().take(n) =~= s.take(n));
    } else {
        assert(s.take(n) =~= s);
    }
}

/// The number that the characters from `from` to `to` stand for, `None` if they
/// are not all decimal digits or the number is too large.
pub fn parse_number(text: &str, from: usize, to: usize) -> (r: Option<u64>)
    requires
        from <= to <= text@.len(),
    ensures
        match r {
            Some(x) => is_number(text@.subrange(from as int, to as int)) && x == number_of(
                text@.subrange(from as int, to as int),
            ),
            None => !is_number(text@.subrange(from as int, to as int)) || number_of(
                text@.subrange(from as int, to as int),
            ) > u64::MAX,
        },
{
    let ghost s = text@.subrange(from as int, to as int);
    if from == to {
        return None;
    }
    let mut x: u64 = 0;
    let mut i: usize = from;
    assert(s.take(0) =~= Seq::<char>::empty());
    while i < to
        invariant
            from <= i <= to <= text@.len(),
            s == text@.subrange(from as int, to as int),
            forall|j: int| 0 <= j < i - from ==> is_digit(#[trigger] s[j]),
            x == number_of(s.take(i - from)),
        decreases to - i,
    {
        let c: char = text.get_char(i);
        proof {
            assert(c == s[i - from]);
            let longer = s.take(i - from + 1);
            assert(longer.drop_last() =~= s.take(i - from));
            assert(longer.last() == c);
            lemma_number_prefix(s, i - from + 1);
        }
        if !(c >= '0' && c <= '9') {
            assert(!is_digit(s[i - from]));
            return None;
        }
        let d: u64 = c as u64 - '0' as u64;
        x = match x.checked_mul(10) {
            Some(y) => match y.checked_add(d) {
                Some(z) => z,
                None => {
                    return None;
                },
            },
            None => {
                return None;
            },
        };
        i += 1;
    }
    assert(s.take(to - from) =~= s);
    Some(x)
}

} // verus!
