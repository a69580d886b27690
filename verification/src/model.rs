//! Linear model fitting for learned index nodes.
//!
//! The core algorithm is FMCD (Fastest Minimum Conflict Degree) from the LIPP
//! paper. Given a sorted set of keys and a target array size, it computes a
//! linear model `f(key) = slope * key + intercept` that maps each key to a
//! slot with minimum conflicts. All arithmetic is exact.

use vstd::arithmetic::div_mod::{
    lemma_div_is_ordered, lemma_fundamental_div_mod, lemma_fundamental_div_mod_converse,
};
use vstd::prelude::*;

use crate::config::Ratio;
use crate::key::Key;

verus! {

/// `num * t / den` rounded to the nearest integer, halves rounded up.
pub open spec fn rounded(num: int, t: int, den: int) -> int {
    (2 * (num * t) + den) / (2 * den)
}

/// `pos` limited to the slots of an array of `size` slots.
pub open spec fn clamped(pos: int, size: int) -> int {
    if pos <= 0 || size <= 0 {
        0
    } else if pos < size {
        pos
    } else {
        size - 1
    }
}

/// A position that is beyond all slots, whatever the offset of a line.
pub const FAR: u128 = 0x4_0000_0000_0000_0000;

/// Exclusive limit on the denominator of a slope whose numerator has more than
/// 64 bits.
pub const WIDE_DEN_LIMIT: u128 = 0x10_0000_0000_0000_0000_0000_0000;

/// A linear model that predicts slot positions from keys.
///
/// For a key with model input `x`, the predicted position is
/// `offset + round(num / den * ((x - anchor) / unit))`, where the distance
/// `(x - anchor) / unit` is a whole number of units of at most 64 bits.
///
/// When `midpoint` is set, the linear formula is overridden with a binary
/// split: keys with an exact ordinal of at most `midpoint` predict to slot 0,
/// keys above predict to the last slot. This handles the degenerate case
/// where model inputs cannot distinguish two distinct keys.
#[derive(Clone, Copy, Debug)]
pub struct LinearModel {
    /// Model input at which the line has the value `offset`.
    pub anchor: i128,
    /// Width of one unit of distance from the anchor.
    pub unit: u128,
    /// Numerator of the slope per unit.
    pub num: u128,
    /// Denominator of the slope per unit.
    pub den: u128,
    /// Position of the anchor.
    pub offset: i64,
    /// When set, overrides linear prediction with a binary split.
    pub midpoint: Option<i128>,
}

/// The distance `b - a`.
pub(crate) fn distance(a: i128, b: i128) -> (d: u128)
    requires
        a <= b,
    ensures
        d == b - a,
{
    if a >= 0 || b < 0 {
        (b - a) as u128
    } else {
        (b as u128) + ((-(a + 1)) as u128) + 1
    }
}

impl LinearModel {
    /// The line has a slope and a unit. A large numerator leaves less room for
    /// the denominator.
    pub open spec fn wf(self) -> bool {
        &&& self.den > 0
        &&& self.unit > 0
        &&& self.num <= u64::MAX || self.den < WIDE_DEN_LIMIT
    }

    /// Signed distance of `x` from the anchor, in whole units.
    pub open spec fn units(self, x: int) -> int {
        if x >= self.anchor {
            let d = (x - self.anchor) / self.unit as int;
            if d <= u64::MAX {
                d
            } else {
                u64::MAX as int
            }
        } else {
            let d = (self.anchor - x) / self.unit as int;
            if d <= u64::MAX {
                -d
            } else {
                -(u64::MAX as int)
            }
        }
    }

    /// The value of the line at model input `x`, rounded.
    pub open spec fn position(self, x: int) -> int {
        self.offset + rounded(self.num as int, self.units(x), self.den as int)
    }

    /// The slot that the model predicts for a key with the given model input
    /// and exact ordinal.
    pub open spec fn slot(self, input: int, ordinal: int, size: int) -> int {
        match self.midpoint {
            Some(mid) => if ordinal <= mid || size <= 0 {
                0
            } else {
                size - 1
            },
            None => clamped(self.position(input), size),
        }
    }

    /// Create a model with the given slope and intercept.
    pub fn new(slope: Ratio, intercept: i64) -> (r: Self)
        requires
            slope.wf(),
        ensures
            r.wf(),
            r == (LinearModel {
                anchor: 0,
                unit: 1,
                num: slope.num as u128,
                den: slope.den as u128,
                offset: intercept,
                midpoint: None,
            }),
    {
        LinearModel {
            anchor: 0,
            unit: 1,
            num: slope.num as u128,
            den: slope.den as u128,
            offset: intercept,
            midpoint: None,
        }
    }

    /// Create a model with the given slope, through slot 0 at `anchor`.
    pub fn through(anchor: i128, num: u64, den: u128) -> (r: Self)
        requires
            den > 0,
        ensures
            r.wf(),
            r == (LinearModel {
                anchor,
                unit: 1,
                num: num as u128,
                den,
                offset: 0,
                midpoint: None,
            }),
    {
        LinearModel { anchor, unit: 1, num: num as u128, den, offset: 0, midpoint: None }
    }

    /// Create a model that maps `lo` to slot 0 and `hi` to slot `last`.
    pub fn between(lo: i128, hi: i128, last: u64) -> (r: Self)
        requires
            lo < hi,
        ensures
            r.wf(),
            r == line_between(lo as int, hi as int, last as int),
            r.position(lo as int) == 0,
            r.position(hi as int) == last,
    {
        let range: u128 = distance(lo, hi);
        let unit: u128 = range / 0x1_0000_0000_0000_0000 + 1;
        let den: u128 = range / unit;
        proof {
            let ends = seq![lo, hi];
            lemma_unit_distances(ends);
            assert(unit_distance(ends, 1) == den);
        }
        let model: LinearModel = LinearModel {
            anchor: lo,
            unit,
            num: last as u128,
            den,
            offset: 0,
            midpoint: None,
        };
        proof {
            assert(model.units(lo as int) == 0) by (nonlinear_arith)
                requires
                    model.units(lo as int) == 0int / unit as int || model.units(lo as int)
                        == u64::MAX,
                    0int / unit as int <= u64::MAX ==> model.units(lo as int) == 0int / unit as int,
                    unit > 0,
            ;
            assert(model.units(hi as int) == den);
            let (n, d) = (last as int, den as int);
            assert(rounded(n, 0, d) == 0) by (nonlinear_arith)
                requires
                    d > 0,
                    rounded(n, 0, d) == (2 * (n * 0) + d) / (2 * d),
            ;
            assert(2 * (n * d) + d == (2 * d) * n + d) by (nonlinear_arith);
            lemma_fundamental_div_mod_converse(2 * (n * d) + d, 2 * d, n, d);
        }
        model
    }

    /// Create a binary-split model that separates keys at the given midpoint.
    ///
    /// Keys with an exact ordinal of at most `midpoint` predict to slot 0;
    /// keys above predict to `array_size - 1`.
    pub fn binary_split(midpoint: i128) -> (r: Self)
        ensures
            r.wf(),
            r == split_at(midpoint as int),
    {
        LinearModel { anchor: 0, unit: 1, num: 0, den: 1, offset: 0, midpoint: Some(midpoint) }
    }

    /// Create a model that maps every key to slot 0.
    pub fn constant() -> (r: Self)
        ensures
            r.wf(),
            r == flat_line(),
    {
        LinearModel { anchor: 0, unit: 1, num: 0, den: 1, offset: 0, midpoint: None }
    }

    /// Predict the slot index for a key.
    ///
    /// Returns the predicted position clamped to `[0, array_size - 1]`.
    pub fn predict<K: Key>(&self, key: &K, array_size: usize) -> (slot: usize)
        requires
            self.wf(),
        ensures
            slot == self.slot(
                K::model_input(key@),
                K::exact_ordinal(key@),
                array_size as int,
            ),
    {
        if let Some(mid) = self.midpoint {
            if key.to_exact_ordinal() <= mid || array_size == 0 {
                0
            } else {
                array_size - 1
            }
        } else {
            self.predict_raw(key.to_model_input(), array_size)
        }
    }

    /// Predict the slot index from a model input value alone.
    ///
    /// Returns the predicted position clamped to `[0, array_size - 1]`.
    pub fn predict_raw(&self, value: i128, array_size: usize) -> (slot: usize)
        requires
            self.wf(),
        ensures
            slot == clamped(self.position(value as int), array_size as int),
    {
        let ahead: bool = value >= self.anchor;
        let dist: u128 = if ahead {
            distance(self.anchor, value)
        } else {
            distance(value, self.anchor)
        };
        let whole: u128 = dist / self.unit;
        let units: u64 = if whole <= u64::MAX as u128 {
            whole as u64
        } else {
            u64::MAX
        };
        let (quotient, rest): (u128, u128) = divide_product(self.num, units, self.den);
        let missing: u128 = self.den - rest;
        proof {
            lemma_rounding(self.num as int, units as int, self.den as int);
        }
        if ahead {
            let steps: u128 = if rest >= missing {
                quotient + 1
            } else {
                quotient
            };
            if self.offset >= 0 {
                let pos: u128 = steps + self.offset as u128;
                limit(pos, array_size)
            } else {
                let back: u128 = (-(self.offset as i128)) as u128;
                if steps <= back {
                    0
                } else {
                    limit(steps - back, array_size)
                }
            }
        } else {
            let steps: u128 = if rest > missing {
                quotient + 1
            } else {
                quotient
            };
            if self.offset <= 0 || steps >= self.offset as u128 {
                0
            } else {
                limit(self.offset as u128 - steps, array_size)
            }
        }
    }
}

/// Quotient and remainder of `num * t / den`. A quotient that is beyond all
/// slots is given as [`FAR`], with remainder 0.
fn divide_product(num: u128, t: u64, den: u128) -> (r: (u128, u128))
    requires
        den > 0,
        num <= u64::MAX || den < WIDE_DEN_LIMIT,
    ensures
        ({
            let p = num * t;
            if p / den as int >= FAR {
                r == (FAR, 0u128)
            } else {
                r.0 == p / den as int && r.1 == p % den as int
            }
        }),
        r.1 < den,
{
    let high: u128 = num / 0x1_0000_0000_0000_0000;
    let low: u128 = num % 0x1_0000_0000_0000_0000;
    let ghost (h, l, d, x) = (high as int, low as int, den as int, t as int);
    let ghost p = num * t;
    let ghost two64: int = 0x1_0000_0000_0000_0000;
    assert(0 <= h * x <= 0xffff_ffff_ffff_ffff * 0xffff_ffff_ffff_ffff && 0 <= l * x
        <= 0xffff_ffff_ffff_ffff * 0xffff_ffff_ffff_ffff) by (nonlinear_arith)
        requires
            0 <= h <= 0xffff_ffff_ffff_ffff,
            0 <= l <= 0xffff_ffff_ffff_ffff,
            0 <= x <= 0xffff_ffff_ffff_ffff,
    ;
    assert(p == (h * x) * two64 + l * x) by (nonlinear_arith)
        requires
            p == num * x,
            num == h * two64 + l,
    ;
    let below: u128 = low * t as u128;
    let small: u128 = below / den;
    let small_rest: u128 = below % den;
    proof {
        lemma_fundamental_div_mod(l * x, d);
    }
    if high == 0 {
        if small >= FAR {
            return (FAR, 0);
        }
        return (small, small_rest);
    }
    let above: u128 = high * t as u128;
    let large: u128 = above / den;
    proof {
        lemma_fundamental_div_mod(h * x, d);
    }
    if large >= 4 || small >= FAR {
        proof {
            lemma_far(p, d, h * x, l * x);
        }
        return (FAR, 0);
    }
    // The upper half times 2^64, in four steps.
    let (q1, r1): (u128, u128) = shift_quotient(large, above % den, den);
    let (q2, r2): (u128, u128) = shift_quotient(q1, r1, den);
    let (q3, r3): (u128, u128) = shift_quotient(q2, r2, den);
    let (q4, r4): (u128, u128) = shift_quotient(q3, r3, den);
    let mut quotient: u128 = q4 + small;
    let mut rest: u128 = r4 + small_rest;
    let ghost carries: bool = rest >= den;
    if rest >= den {
        quotient += 1;
        rest -= den;
    }
    proof {
        assert(h * x == large * d + above as int % d) by (nonlinear_arith)
            requires
                h * x == d * ((h * x) / d) + (h * x) % d,
                large == (h * x) / d,
                above == h * x,
        ;
        assert((h * x) * two64 == q4 * d + r4);
        assert(p == quotient * d + rest) by (nonlinear_arith)
            requires
                p == (h * x) * two64 + l * x,
                (h * x) * two64 == q4 * d + r4,
                l * x == d * small + small_rest,
                carries ==> quotient == q4 + small + 1 && rest == r4 + small_rest - d,
                !carries ==> quotient == q4 + small && rest == r4 + small_rest,
        ;
        lemma_fundamental_div_mod_converse(p, d, quotient as int, rest as int);
    }
    if quotient >= FAR {
        (FAR, 0)
    } else {
        (quotient, rest)
    }
}

/// The quotient is beyond all slots if the upper or the lower part makes it so.
proof fn lemma_far(p: int, d: int, upper: int, lower: int)
    requires
        d > 0,
        upper >= 0,
        lower >= 0,
        p == upper * 0x1_0000_0000_0000_0000 + lower,
        upper / d >= 4 || lower / d >= FAR,
    ensures
        p / d >= FAR,
{
    lemma_fundamental_div_mod(upper, d);
    lemma_fundamental_div_mod(lower, d);
    let far = FAR as int;
    if upper / d >= 4 {
        assert(upper >= 4 * d) by (nonlinear_arith)
            requires
                upper == d * (upper / d) + upper % d,
                upper % d >= 0,
                upper / d >= 4,
                d > 0,
        ;
    } else {
        assert(lower >= far * d) by (nonlinear_arith)
            requires
                lower == d * (lower / d) + lower % d,
                lower % d >= 0,
                lower / d >= far,
                d > 0,
        ;
    }
    lemma_quotient_at_least(p, d, far);
}

/// A product that fits below shows that the quotient is at least as large.
proof fn lemma_quotient_at_least(p: int, d: int, q: int)
    requires
        d > 0,
        q * d <= p,
    ensures
        p / d >= q,
{
    lemma_fundamental_div_mod(p, d);
    assert(p / d >= q) by (nonlinear_arith)
        requires
            p == d * (p / d) + p % d,
            0 <= p % d < d,
            q * d <= p,
            d > 0,
    ;
}

/// Quotient and remainder of a value that is 2^16 times as large.
fn shift_quotient(quotient: u128, rest: u128, den: u128) -> (r: (u128, u128))
    requires
        rest < den < WIDE_DEN_LIMIT,
        quotient < FAR,
    ensures
        (quotient * den + rest) * 0x1_0000 == r.0 * den + r.1,
        r.1 < den,
        r.0 < (quotient + 1) * 0x1_0000,
{
    let wide: u128 = rest * 0x1_0000;
    let digit: u128 = wide / den;
    proof {
        let d = den as int;
        lemma_fundamental_div_mod(wide as int, d);
        assert(digit < 0x1_0000) by (nonlinear_arith)
            requires
                wide == d * digit + wide as int % d,
                0 <= wide as int % d,
                wide < d * 0x1_0000,
                d > 0,
        ;
        assert((quotient * d + rest) * 0x1_0000 == (quotient * 0x1_0000 + digit) * d + wide as int
            % d) by (nonlinear_arith)
            requires
                wide == rest * 0x1_0000,
                wide == d * digit + wide as int % d,
        ;
    }
    (quotient * 0x1_0000 + digit, wide % den)
}

/// `pos` limited to the slots of an array of `size` slots.
fn limit(pos: u128, size: usize) -> (r: usize)
    ensures
        r == clamped(pos as int, size as int),
{
    if size == 0 {
        0
    } else if pos < size as u128 {
        pos as usize
    } else {
        size - 1
    }
}

/// Rounding through quotient and remainder.
proof fn lemma_rounding(num: int, t: int, den: int)
    requires
        num >= 0,
        t >= 0,
        den > 0,
    ensures
        ({
            let p = num * t;
            let q = p / den;
            let r = p % den;
            &&& q >= 0
            &&& 0 <= r < den
            &&& rounded(num, t, den) == (if 2 * r >= den {
                q + 1
            } else {
                q
            })
            &&& rounded(num, -t, den) == (if 2 * r > den {
                -(q + 1)
            } else {
                -q
            })
        }),
{
    let p = num * t;
    let q = p / den;
    let r = p % den;
    assert(p >= 0) by (nonlinear_arith)
        requires
            num >= 0,
            t >= 0,
            p == num * t,
    ;
    lemma_fundamental_div_mod(p, den);
    assert(q >= 0 && 0 <= r < den) by (nonlinear_arith)
        requires
            p >= 0,
            den > 0,
            q == p / den,
            r == p % den,
    ;
    assert(num * (-t) == -p) by (nonlinear_arith)
        requires
            p == num * t,
    ;
    let up = if 2 * r >= den {
        q + 1
    } else {
        q
    };
    let down = if 2 * r > den {
        -(q + 1)
    } else {
        -q
    };
    assert(2 * p + den == up * (2 * den) + (2 * p + den - up * (2 * den)));
    assert(0 <= 2 * p + den - up * (2 * den) < 2 * den) by (nonlinear_arith)
        requires
            p == den * q + r,
            0 <= r < den,
            up == (if 2 * r >= den {
                q + 1
            } else {
                q
            }),
    ;
    lemma_fundamental_div_mod_converse(2 * p + den, 2 * den, up, 2 * p + den - up * (2 * den));
    assert(0 <= -2 * p + den - down * (2 * den) < 2 * den) by (nonlinear_arith)
        requires
            p == den * q + r,
            0 <= r < den,
            down == (if 2 * r > den {
                -(q + 1)
            } else {
                -q
            }),
    ;
    lemma_fundamental_div_mod_converse(-2 * p + den, 2 * den, down, -2 * p + den - down * (2 * den));
}

/// A larger model input never predicts a lower position.
pub proof fn lemma_position_monotone(m: LinearModel, x: int, y: int)
    requires
        m.wf(),
        x <= y,
    ensures
        m.position(x) <= m.position(y),
{
    let u = m.unit as int;
    if x >= m.anchor {
        lemma_div_is_ordered(x - m.anchor, y - m.anchor, u);
    } else if y < m.anchor {
        lemma_div_is_ordered(m.anchor - y, m.anchor - x, u);
    } else {
        lemma_div_is_ordered(0, m.anchor - x, u);
        lemma_div_is_ordered(0, y - m.anchor, u);
    }
    let a = m.units(x);
    let b = m.units(y);
    assert(0int / u == 0) by (nonlinear_arith)
        requires
            u > 0,
    ;
    assert(a <= b);
    assert(m.num * a <= m.num * b) by (nonlinear_arith)
        requires
            a <= b,
            m.num >= 0,
    ;
    lemma_div_is_ordered(2 * (m.num * a) + m.den, 2 * (m.num * b) + m.den, 2 * m.den as int);
}

/// The predicted slot follows the order of the model inputs and ordinals, and
/// is a slot of the array.
pub proof fn lemma_slot_monotone(m: LinearModel, x: int, xo: int, y: int, yo: int, size: int)
    requires
        m.wf(),
        x <= y,
        xo <= yo,
        size > 0,
    ensures
        0 <= m.slot(x, xo, size) <= m.slot(y, yo, size) < size,
{
    lemma_position_monotone(m, x, y);
}

/// Result of FMCD model fitting.
#[derive(Debug)]
pub struct FmcdResult {
    /// The fitted linear model.
    pub model: LinearModel,
    /// The array size for the fitted keys.
    pub array_size: usize,
    /// Number of conflicts (keys mapping to the same slot as their predecessor).
    pub conflicts: usize,
}

/// Maximum number of candidate slopes to try in FMCD.
pub const MAX_FMCD_CANDIDATES: u64 = 32;

/// `a / b` rounded up.
pub open spec fn ceil_div(a: int, b: int) -> int {
    (a + b - 1) / b
}

/// The array size for `n` keys: `n * expansion_factor * (1 + headroom)`
/// rounded up, as far as a `usize` reaches; a single key needs one slot.
pub open spec fn fitted_size(n: int, expansion_factor: Ratio, headroom: Ratio) -> int {
    if n == 1 {
        1
    } else {
        let size = ceil_div(
            n * (expansion_factor.num * (headroom.den + headroom.num)),
            expansion_factor.den * headroom.den,
        );
        if size <= usize::MAX {
            size
        } else {
            usize::MAX as int
        }
    }
}

/// The slots that a model predicts for model inputs.
pub open spec fn predicted(m: LinearModel, inputs: Seq<i128>, size: int) -> Seq<int> {
    Seq::new(inputs.len(), |i: int| clamped(m.position(inputs[i] as int), size))
}

/// Number of elements that equal their predecessor.
pub open spec fn adjacent_equal(slots: Seq<int>) -> nat
    decreases slots.len(),
{
    if slots.len() <= 1 {
        0
    } else {
        let repeated: nat = if slots[slots.len() - 1] == slots[slots.len() - 2] {
            1
        } else {
            0
        };
        adjacent_equal(slots.drop_last()) + repeated
    }
}

/// An element that equals its predecessor is counted.
pub proof fn lemma_adjacent(slots: Seq<int>, i: int)
    requires
        0 < i < slots.len(),
        slots[i] == slots[i - 1],
    ensures
        adjacent_equal(slots) > 0,
    decreases slots.len(),
{
    if i < slots.len() - 1 {
        lemma_adjacent(slots.drop_last(), i);
    }
}

/// Number of conflicts of a model on sorted model inputs.
pub open spec fn conflict_count(m: LinearModel, inputs: Seq<i128>, size: int) -> nat {
    adjacent_equal(predicted(m, inputs, size))
}

/// Model inputs do not descend.
pub open spec fn sorted_inputs(inputs: Seq<i128>) -> bool {
    forall|i: int, j: int| 0 <= i <= j < inputs.len() ==> inputs[i] <= inputs[j]
}

/// Width of a unit for which `range` has at most 64 bits.
pub open spec fn unit_for(range: int) -> int {
    range / 0x1_0000_0000_0000_0000 + 1
}

/// The line that maps `lo` to slot 0 and `hi` to slot `last`.
pub open spec fn line_between(lo: int, hi: int, last: int) -> LinearModel {
    LinearModel {
        anchor: lo as i128,
        unit: unit_for(hi - lo) as u128,
        num: last as u128,
        den: ((hi - lo) / unit_for(hi - lo)) as u128,
        offset: 0,
        midpoint: None,
    }
}

/// The line of slope 1 that maps `x` to slot 0.
pub open spec fn steep_line(x: int) -> LinearModel {
    LinearModel { anchor: x as i128, unit: 1, num: 1, den: 1, offset: 0, midpoint: None }
}

/// The line that maps every key to slot 0.
pub open spec fn flat_line() -> LinearModel {
    LinearModel { anchor: 0, unit: 1, num: 0, den: 1, offset: 0, midpoint: None }
}

/// The model that maps ordinals of at most `midpoint` to slot 0 and all others to
/// the last slot.
pub open spec fn split_at(midpoint: int) -> LinearModel {
    LinearModel {
        anchor: 0,
        unit: 1,
        num: 0,
        den: 1,
        offset: 0,
        midpoint: Some(midpoint as i128),
    }
}

/// Distance of input `i` from the first input, in units.
pub open spec fn unit_distance(inputs: Seq<i128>, i: int) -> int {
    (inputs[i] - inputs[0]) / unit_for(inputs.last() - inputs[0])
}

/// The widest gap between the first `n` neighbouring inputs, in units.
pub open spec fn widest_gap(inputs: Seq<i128>, n: int) -> int
    decreases n,
{
    if n <= 1 {
        0
    } else {
        let gap = unit_distance(inputs, n - 1) - unit_distance(inputs, n - 2);
        let rest = widest_gap(inputs, n - 1);
        if gap > rest {
            gap
        } else {
            rest
        }
    }
}

/// The candidate models: candidate 0 is linear interpolation over the key
/// range with headroom, with the slope `(size - 1) / (range * (1 + headroom))`,
/// candidate `j` places the widest gap at a distance of `j` slots.
pub open spec fn candidate(
    inputs: Seq<i128>,
    size: int,
    headroom: Ratio,
    j: int,
) -> LinearModel {
    let range = unit_distance(inputs, inputs.len() - 1);
    LinearModel {
        anchor: inputs[0],
        unit: unit_for(inputs.last() - inputs[0]) as u128,
        num: if j == 0 {
            ((size - 1) * headroom.den) as u128
        } else {
            j as u128
        },
        den: if j == 0 {
            (range * (headroom.den + headroom.num)) as u128
        } else {
            widest_gap(inputs, inputs.len() as int) as u128
        },
        offset: 0,
        midpoint: None,
    }
}

/// `j` is the number of a candidate: its slope does not exceed the one that
/// places the last key at the last slot.
pub open spec fn is_candidate(inputs: Seq<i128>, size: int, j: int) -> bool {
    j == 0 || (1 <= j <= MAX_FMCD_CANDIDATES && j * unit_distance(inputs, inputs.len() - 1) <= (size
        - 1) * widest_gap(inputs, inputs.len() as int))
}

/// Candidate `j` is the first one with the fewest conflicts.
pub open spec fn is_best(inputs: Seq<i128>, size: int, headroom: Ratio, j: int) -> bool {
    &&& is_candidate(inputs, size, j)
    &&& forall|l: int| #[trigger]
        is_candidate(inputs, size, l) ==> {
            let ours = conflict_count(candidate(inputs, size, headroom, j), inputs, size);
            let theirs = conflict_count(candidate(inputs, size, headroom, l), inputs, size);
            ours <= theirs && (l < j ==> ours < theirs)
        }
}

/// The model is what fitting finds for the inputs, with an array of `size`
/// slots. Inputs that are all the same are mapped to the middle.
pub open spec fn is_fit(
    m: LinearModel,
    size: int,
    inputs: Seq<i128>,
    expansion_factor: Ratio,
    range_headroom: Ratio,
) -> bool {
    &&& size == fitted_size(inputs.len() as int, expansion_factor, range_headroom)
    &&& m.midpoint is None
    &&& inputs.len() == 1 ==> m.num == 0 && m.offset == 0
    &&& inputs.len() > 1 && inputs[0] == inputs.last() ==> m.num == 0 && m.offset == size / 2
    &&& inputs[0] < inputs.last() ==> exists|j: int|
        #[trigger] is_best(inputs, size, range_headroom, j) && m == candidate(
            inputs,
            size,
            range_headroom,
            j,
        )
}

/// Fast conflict counting for sorted inputs.
///
/// Since inputs are sorted and the model is monotonic, only adjacent inputs
/// need to be compared.
pub fn count_conflicts_fast(inputs: &[i128], model: &LinearModel, array_size: usize) -> (r: usize)
    requires
        inputs@.len() > 0,
        model.wf(),
    ensures
        r == conflict_count(*model, inputs@, array_size as int),
        r < inputs@.len(),
{
    let mut conflicts: usize = 0;
    let mut prev_slot: usize = model.predict_raw(inputs[0], array_size);
    let ghost slots = predicted(*model, inputs@, array_size as int);
    let mut i: usize = 1;
    assert(slots.take(1).len() == 1);
    while i < inputs.len()
        invariant
            1 <= i <= inputs@.len(),
            model.wf(),
            slots == predicted(*model, inputs@, array_size as int),
            prev_slot == slots[i - 1],
            conflicts == adjacent_equal(slots.take(i as int)),
            conflicts < i,
        decreases inputs@.len() - i,
    {
        let slot: usize = model.predict_raw(inputs[i], array_size);
        proof {
            assert(slots.take(i + 1).drop_last() =~= slots.take(i as int));
            assert(slots.take(i + 1)[i as int] == slots[i as int]);
            assert(slots.take(i + 1)[i - 1] == slots[i - 1]);
        }
        if slot == prev_slot {
            conflicts += 1;
        }
        prev_slot = slot;
        i += 1;
    }
    assert(slots.take(inputs@.len() as int) =~= slots);
    conflicts
}

/// Count how many inputs map to a slot that an earlier input maps to.
///
/// Works for unsorted inputs.
pub fn count_conflicts(inputs: &[i128], model: &LinearModel, array_size: usize) -> (r: usize)
    requires
        model.wf(),
        array_size > 0,
    ensures
        r == inputs@.len() - predicted(*model, inputs@, array_size as int).to_set().len(),
{
    let mut occupied: Vec<bool> = Vec::new();
    let mut k: usize = 0;
    while k < array_size
        invariant
            k <= array_size,
            occupied@.len() == k,
            forall|j: int| 0 <= j < k ==> occupied@[j] == false,
        decreases array_size - k,
    {
        occupied.push(false);
        k += 1;
    }
    let ghost slots = predicted(*model, inputs@, array_size as int);
    let mut conflicts: usize = 0;
    let mut i: usize = 0;
    proof {
        assert(slots.take(0).to_set() =~= Set::empty());
    }
    while i < inputs.len()
        invariant
            i <= inputs@.len(),
            model.wf(),
            array_size > 0,
            slots == predicted(*model, inputs@, array_size as int),
            occupied@.len() == array_size,
            forall|j: int|
                0 <= j < array_size ==> occupied@[j] == #[trigger] slots.take(
                    i as int,
                ).to_set().contains(j),
            conflicts == i - slots.take(i as int).to_set().len(),
            conflicts <= i,
        decreases inputs@.len() - i,
    {
        let slot: usize = model.predict_raw(inputs[i], array_size);
        proof {
            let now = slots.take(i as int);
            let next = slots.take(i + 1);
            assert(next =~= now.push(slots[i as int]));
            assert(next.to_set() =~= now.to_set().insert(slots[i as int])) by {
                assert forall|x: int| next.to_set().contains(x) <==> now.to_set().insert(
                    slots[i as int],
                ).contains(x) by {
                    if now.contains(x) {
                        let w = choose|w: int| 0 <= w < now.len() && now[w] == x;
                        assert(next[w] == x);
                    }
                    if x == slots[i as int] {
                        assert(next[i as int] == x);
                    }
                    if next.contains(x) {
                        let w = choose|w: int| 0 <= w < next.len() && next[w] == x;
                        if w < i {
                            assert(now[w] == x);
                        }
                    }
                }
            }
            vstd::seq_lib::seq_to_set_is_finite(now);
        }
        if occupied[slot] {
            conflicts += 1;
        } else {
            occupied.set(slot, true);
        }
        i += 1;
    }
    assert(slots.take(inputs@.len() as int) =~= slots);
    conflicts
}

/// The exact size of the array for `n` keys.
fn array_size_for(n: usize, expansion_factor: Ratio, headroom: Ratio) -> (r: usize)
    requires
        n > 1,
        expansion_factor.wf(),
        headroom.wf(),
    ensures
        r == fitted_size(n as int, expansion_factor, headroom),
{
    let reach: u64 = headroom.den as u64 + headroom.num as u64;
    assert(expansion_factor.num * reach <= 0x8000_0000 * 0x1_0000_0000) by (nonlinear_arith)
        requires
            expansion_factor.num <= 0x8000_0000,
            reach <= 0x1_0000_0000,
    ;
    assert(0 < expansion_factor.den * headroom.den <= 0x8000_0000 * 0x8000_0000) by (nonlinear_arith)
        requires
            0 < expansion_factor.den <= 0x8000_0000,
            0 < headroom.den <= 0x8000_0000,
    ;
    let factor: u64 = expansion_factor.num as u64 * reach;
    let divisor: u64 = expansion_factor.den as u64 * headroom.den as u64;
    assert(n * factor <= 0xffff_ffff_ffff_ffff * 0x8000_0000_0000_0000) by (nonlinear_arith)
        requires
            n <= 0xffff_ffff_ffff_ffff,
            factor <= 0x8000_0000_0000_0000,
    ;
    let wanted: u128 = (n as u128 * factor as u128 + (divisor - 1) as u128) / divisor as u128;
    if wanted <= usize::MAX as u128 {
        wanted as usize
    } else {
        usize::MAX
    }
}

/// The fitted size is large enough for interpolation to tell the first and
/// the last key apart.
proof fn lemma_fitted_size(n: int, expansion_factor: Ratio, headroom: Ratio)
    requires
        1 < n <= usize::MAX,
        expansion_factor.wf(),
        expansion_factor.num >= expansion_factor.den,
        headroom.wf(),
    ensures
        n <= fitted_size(n, expansion_factor, headroom) <= usize::MAX,
        (fitted_size(n, expansion_factor, headroom) - 1) * headroom.den >= headroom.den
            + headroom.num,
{
    let reach = headroom.den + headroom.num;
    let factor = expansion_factor.num * reach;
    let divisor = expansion_factor.den * headroom.den;
    let hd = headroom.den as int;
    assert(divisor > 0) by (nonlinear_arith)
        requires
            divisor == expansion_factor.den * headroom.den,
            expansion_factor.den > 0,
            headroom.den > 0,
    ;
    let size = ceil_div(n * factor, divisor);
    lemma_ceil_div(n * factor, divisor);
    assert(size * divisor >= n * factor);
    assert(size * hd >= n * reach) by (nonlinear_arith)
        requires
            size * divisor >= n * factor,
            divisor == expansion_factor.den * hd,
            factor == expansion_factor.num * reach,
            expansion_factor.num >= expansion_factor.den,
            expansion_factor.den > 0,
            n > 0,
            reach >= 0,
    {
        assert(n * factor >= n * (expansion_factor.den * reach)) by (nonlinear_arith)
            requires
                n > 0,
                reach >= 0,
                factor == expansion_factor.num * reach,
                expansion_factor.num >= expansion_factor.den,
        ;
        assert(size * divisor == expansion_factor.den * (size * hd)) by (nonlinear_arith)
            requires
                divisor == expansion_factor.den * hd,
        ;
        assert(n * (expansion_factor.den * reach) == expansion_factor.den * (n * reach))
            by (nonlinear_arith);
        if size * hd < n * reach {
            assert(expansion_factor.den * (size * hd) < expansion_factor.den * (n * reach))
                by (nonlinear_arith)
                requires
                    size * hd < n * reach,
                    expansion_factor.den > 0,
            ;
        }
    }
    assert(size >= n) by (nonlinear_arith)
        requires
            size * hd >= n * reach,
            reach >= hd,
            hd > 0,
            n > 0,
    ;
    assert(n * reach >= 2 * reach) by (nonlinear_arith)
        requires
            n >= 2,
            reach >= 0,
    ;
    assert((size - 1) * hd == size * hd - hd) by (nonlinear_arith);
    let top = usize::MAX as int;
    assert((top - 1) * hd >= top - 1) by (nonlinear_arith)
        requires
            hd >= 1,
            top >= 1,
    ;
}

/// The rounded-up quotient is the least whose product reaches the dividend.
pub proof fn lemma_ceil_div(a: int, b: int)
    requires
        b > 0,
    ensures
        a <= ceil_div(a, b) * b < a + b,
{
    lemma_fundamental_div_mod(a + b - 1, b);
    assert(ceil_div(a, b) * b == b * ((a + b - 1) / b)) by (nonlinear_arith);
}

/// Distances in units stay within 64 bits and follow the inputs.
pub proof fn lemma_unit_distances(inputs: Seq<i128>)
    requires
        inputs.len() > 0,
        sorted_inputs(inputs),
        inputs[0] < inputs.last(),
    ensures
        0 < unit_for(inputs.last() - inputs[0]) <= u128::MAX,
        forall|i: int|
            0 <= i < inputs.len() ==> 0 <= #[trigger] unit_distance(inputs, i) <= unit_distance(
                inputs,
                inputs.len() - 1,
            ),
        forall|i: int, j: int|
            0 <= i <= j < inputs.len() ==> unit_distance(inputs, i) <= unit_distance(inputs, j),
        unit_distance(inputs, 0) == 0,
        0 < unit_distance(inputs, inputs.len() - 1) <= u64::MAX,
{
    let range = inputs.last() - inputs[0];
    let unit = unit_for(range);
    let two64: int = 0x1_0000_0000_0000_0000;
    lemma_fundamental_div_mod(range, two64);
    assert(range < two64 * unit) by (nonlinear_arith)
        requires
            range == two64 * (range / two64) + range % two64,
            0 <= range % two64 < two64,
            unit == range / two64 + 1,
            two64 > 0,
    ;
    assert(0 < unit <= range) by (nonlinear_arith)
        requires
            range > 0,
            two64 == 0x1_0000_0000_0000_0000,
            unit == range / two64 + 1,
    ;
    lemma_fundamental_div_mod(range, unit);
    assert(0 < range / unit < two64) by (nonlinear_arith)
        requires
            range == unit * (range / unit) + range % unit,
            0 <= range % unit < unit,
            range < two64 * unit,
            0 < unit <= range,
    ;
    assert forall|i: int, j: int| 0 <= i <= j < inputs.len() implies unit_distance(inputs, i)
        <= unit_distance(inputs, j) by {
        assert(inputs[i] <= inputs[j]);
        lemma_div_is_ordered(inputs[i] - inputs[0], inputs[j] - inputs[0], unit);
    }
    assert(0int / unit == 0) by (nonlinear_arith)
        requires
            unit > 0,
    ;
    assert forall|i: int| 0 <= i < inputs.len() implies 0 <= #[trigger] unit_distance(inputs, i)
        <= unit_distance(inputs, inputs.len() - 1) by {
        assert(unit_distance(inputs, 0) <= unit_distance(inputs, i));
    }
}

/// The widest gap is positive and at most the whole range.
pub proof fn lemma_widest_gap(inputs: Seq<i128>, n: int)
    requires
        1 <= n <= inputs.len(),
        sorted_inputs(inputs),
        inputs[0] < inputs.last(),
    ensures
        0 <= widest_gap(inputs, n) <= unit_distance(inputs, n - 1),
        unit_distance(inputs, n - 1) > 0 ==> widest_gap(inputs, n) > 0,
    decreases n,
{
    lemma_unit_distances(inputs);
    if n > 1 {
        lemma_widest_gap(inputs, n - 1);
        assert(unit_distance(inputs, n - 2) <= unit_distance(inputs, n - 1));
    }
}

/// Every candidate model places the first key at slot 0 and the last key
/// beyond it.
proof fn lemma_candidate_separates(
    inputs: Seq<i128>,
    expansion_factor: Ratio,
    headroom: Ratio,
    j: int,
)
    requires
        1 < inputs.len() <= usize::MAX,
        sorted_inputs(inputs),
        inputs[0] < inputs.last(),
        expansion_factor.wf(),
        expansion_factor.num >= expansion_factor.den,
        headroom.wf(),
        0 <= j <= MAX_FMCD_CANDIDATES,
    ensures
        ({
            let size = fitted_size(inputs.len() as int, expansion_factor, headroom);
            let m = candidate(inputs, size, headroom, j);
            &&& m.wf()
            &&& m.position(inputs[0] as int) == 0
            &&& m.position(inputs.last() as int) >= 1
            &&& size >= 2
        }),
{
    let n = inputs.len() as int;
    let size = fitted_size(n, expansion_factor, headroom);
    let m = candidate(inputs, size, headroom, j);
    lemma_fitted_size(n, expansion_factor, headroom);
    lemma_unit_distances(inputs);
    lemma_widest_gap(inputs, n);
    let d = unit_distance(inputs, n - 1);
    let hd = headroom.den as int;
    let reach = headroom.den + headroom.num;
    assert(0 < d * reach <= 0xffff_ffff_ffff_ffff * 0x1_0000_0000) by (nonlinear_arith)
        requires
            1 <= d <= 0xffff_ffff_ffff_ffff,
            1 <= reach <= 0x1_0000_0000,
    ;
    assert(0 <= (size - 1) * hd <= 0xffff_ffff_ffff_ffff * 0x8000_0000) by (nonlinear_arith)
        requires
            0 <= size - 1 <= 0xffff_ffff_ffff_ffff,
            0 <= hd <= 0x8000_0000,
    ;
    assert((size - 1) * hd * d >= d * reach) by (nonlinear_arith)
        requires
            (size - 1) * hd >= reach,
            d >= 1,
    ;
    let num = m.num as int;
    let den = m.den as int;
    assert(m.units(inputs[0] as int) == 0);
    assert(m.units(inputs.last() as int) == d);
    assert(num * d >= den) by {
        if j != 0 {
            assert(j * d >= d) by (nonlinear_arith)
                requires
                    j >= 1,
                    d >= 0,
            ;
        }
    }
    assert(rounded(num, 0, den) == 0) by (nonlinear_arith)
        requires
            den > 0,
            rounded(num, 0, den) == (2 * (num * 0) + den) / (2 * den),
    ;
    assert((2 * (num * d) + den) / (2 * den) >= 1) by (nonlinear_arith)
        requires
            num * d >= den,
            den > 0,
    ;
}

/// Fit a linear model to sorted model inputs using the FMCD algorithm.
///
/// Finds a linear function that maps each input to a slot in an array,
/// minimizing the number of collisions (conflicts). The algorithm tries
/// candidate slopes derived from the maximum inter-key gap (the FMCD heuristic
/// from the LIPP paper) and selects the slope with the fewest conflicts.
/// Linear interpolation is always tried as a baseline.
///
/// - `expansion_factor`: ratio of array size to number of keys, at least 1.
/// - `range_headroom`: extra key range coverage beyond the current data. The
///   model covers `1 + range_headroom` times the actual key range and the
///   array grows proportionally, leaving space for future keys beyond the
///   current maximum.
pub fn fit_fmcd(inputs: &[i128], expansion_factor: Ratio, range_headroom: Ratio) -> (r: FmcdResult)
    requires
        inputs@.len() > 0,
        sorted_inputs(inputs@),
        expansion_factor.wf(),
        expansion_factor.num >= expansion_factor.den,
        range_headroom.wf(),
    ensures
        r.model.wf(),
        is_fit(r.model, r.array_size as int, inputs@, expansion_factor, range_headroom),
        r.array_size >= inputs@.len(),
        r.conflicts == conflict_count(r.model, inputs@, r.array_size as int),
        inputs@[0] < inputs@.last() ==> clamped(
            r.model.position(inputs@[0] as int),
            r.array_size as int,
        ) < clamped(r.model.position(inputs@.last() as int), r.array_size as int),
{
    let n: usize = inputs.len();
    if n == 1 {
        let model: LinearModel = LinearModel::constant();
        assert(predicted(model, inputs@, 1).len() == 1);
        return FmcdResult { model, array_size: 1, conflicts: 0 };
    }
    let array_size: usize = array_size_for(n, expansion_factor, range_headroom);
    proof {
        lemma_fitted_size(n as int, expansion_factor, range_headroom);
    }
    let first: i128 = inputs[0];
    let last: i128 = inputs[n - 1];
    assert(first <= last);
    if first == last {
        // All keys have the same input. Map all to the middle.
        let model: LinearModel = LinearModel {
            anchor: 0,
            unit: 1,
            num: 0,
            den: 1,
            offset: (array_size / 2) as i64,
            midpoint: None,
        };
        let conflicts: usize = count_conflicts_fast(inputs, &model, array_size);
        return FmcdResult { model, array_size, conflicts };
    }
    proof {
        lemma_unit_distances(inputs@);
    }
    let range: u128 = distance(first, last);
    let unit: u128 = range / 0x1_0000_0000_0000_0000 + 1;
    let units: u128 = range / unit;
    // Candidate 0: linear interpolation (baseline).
    let reach: u128 = range_headroom.den as u128 + range_headroom.num as u128;
    assert(units * reach <= 0xffff_ffff_ffff_ffff * 0x1_0000_0000) by (nonlinear_arith)
        requires
            units <= 0xffff_ffff_ffff_ffff,
            reach <= 0x1_0000_0000,
    ;
    assert((array_size - 1) * range_headroom.den <= 0xffff_ffff_ffff_ffff * 0x8000_0000)
        by (nonlinear_arith)
        requires
            0 <= array_size - 1 <= 0xffff_ffff_ffff_ffff,
            0 <= range_headroom.den <= 0x8000_0000,
    ;
    let linear: LinearModel = LinearModel {
        anchor: first,
        unit,
        num: (array_size - 1) as u128 * range_headroom.den as u128,
        den: units * reach,
        offset: 0,
        midpoint: None,
    };
    proof {
        assert(linear == candidate(inputs@, array_size as int, range_headroom, 0));
        lemma_candidate_separates(inputs@, expansion_factor, range_headroom, 0);
    }
    let linear_conflicts: usize = count_conflicts_fast(inputs, &linear, array_size);
    if linear_conflicts == 0 {
        let r = FmcdResult { model: linear, array_size, conflicts: 0 };
        assert(is_best(inputs@, r.array_size as int, range_headroom, 0));
        assert(r.model == candidate(inputs@, r.array_size as int, range_headroom, 0));
        return r;
    }
    // Further candidates: slopes derived from the widest gap. The optimal
    // slope often places the widest-gap pair a whole number of slots apart.
    let mut gap: u128 = 0;
    let mut prev: u128 = 0;
    let mut i: usize = 1;
    while i < n
        invariant
            n == inputs@.len(),
            1 <= i <= n,
            sorted_inputs(inputs@),
            first == inputs@[0],
            inputs@[0] < inputs@.last(),
            unit == unit_for(inputs@.last() - inputs@[0]),
            prev == unit_distance(inputs@, i - 1),
            gap == widest_gap(inputs@, i as int),
        decreases n - i,
    {
        proof {
            lemma_unit_distances(inputs@);
            assert(inputs@[0] <= inputs@[i as int]);
            assert(unit_distance(inputs@, i - 1) <= unit_distance(inputs@, i as int));
        }
        let here: u128 = distance(first, inputs[i]) / unit;
        if here - prev > gap {
            gap = here - prev;
        }
        prev = here;
        i += 1;
    }
    proof {
        lemma_widest_gap(inputs@, n as int);
    }
    let mut best: LinearModel = linear;
    let mut best_conflicts: usize = linear_conflicts;
    let ghost mut best_j: int = 0;
    let ghost size = array_size as int;
    assert((array_size - 1) * gap <= 0xffff_ffff_ffff_ffff * 0xffff_ffff_ffff_ffff)
        by (nonlinear_arith)
        requires
            0 <= array_size - 1 <= 0xffff_ffff_ffff_ffff,
            0 <= gap <= 0xffff_ffff_ffff_ffff,
    ;
    let steepest: u128 = (array_size - 1) as u128 * gap;
    let mut j: u64 = 1;
    let mut searching: bool = true;
    while searching && j <= MAX_FMCD_CANDIDATES
        invariant
            n == inputs@.len(),
            1 < n,
            sorted_inputs(inputs@),
            inputs@[0] < inputs@.last(),
            first == inputs@[0],
            expansion_factor.wf(),
            expansion_factor.num >= expansion_factor.den,
            range_headroom.wf(),
            size == array_size,
            size == fitted_size(n as int, expansion_factor, range_headroom),
            unit == unit_for(inputs@.last() - inputs@[0]),
            units == unit_distance(inputs@, n - 1),
            units <= u64::MAX,
            gap == widest_gap(inputs@, n as int),
            0 < gap,
            steepest == (size - 1) * gap,
            1 <= j <= MAX_FMCD_CANDIDATES + 1,
            0 <= best_j < j,
            best == candidate(inputs@, size, range_headroom, best_j),
            best_conflicts == conflict_count(best, inputs@, size),
            is_candidate(inputs@, size, best_j),
            forall|l: int| #[trigger]
                is_candidate(inputs@, size, l) && (l < j || !searching) ==> {
                    let theirs = conflict_count(
                        candidate(inputs@, size, range_headroom, l),
                        inputs@,
                        size,
                    );
                    best_conflicts <= theirs && (l < best_j ==> best_conflicts < theirs)
                },
        decreases MAX_FMCD_CANDIDATES + 1 - j, if searching { 1int } else { 0int },
    {
        assert(0 <= j * units <= 33 * 0xffff_ffff_ffff_ffff) by (nonlinear_arith)
            requires
                0 <= j <= 33,
                0 <= units <= 0xffff_ffff_ffff_ffff,
        ;
        if j as u128 * units > steepest {
            proof {
                assert forall|l: int| #[trigger] is_candidate(inputs@, size, l) implies l < j by {
                    if l >= j {
                        assert(l * units >= j * units) by (nonlinear_arith)
                            requires
                                l >= j,
                                units >= 0,
                        ;
                    }
                }
            }
            searching = false;
        } else {
            let model: LinearModel = LinearModel {
                anchor: first,
                unit,
                num: j as u128,
                den: gap,
                offset: 0,
                midpoint: None,
            };
            proof {
                assert(model == candidate(inputs@, size, range_headroom, j as int));
                assert(is_candidate(inputs@, size, j as int));
            }
            let conflicts: usize = count_conflicts_fast(inputs, &model, array_size);
            if conflicts < best_conflicts {
                best_conflicts = conflicts;
                best = model;
                proof {
                    best_j = j as int;
                }
            }
            j += 1;
            if best_conflicts == 0 {
                searching = false;
            }
        }
    }
    proof {
        assert(is_best(inputs@, size, range_headroom, best_j));
        lemma_candidate_separates(inputs@, expansion_factor, range_headroom, best_j);
    }
    FmcdResult { model: best, array_size, conflicts: best_conflicts }
}

/// On sorted inputs, comparing neighbours counts every key that shares its
/// slot with an earlier key.
pub proof fn law_adjacent_counting_is_exact(m: LinearModel, inputs: Seq<i128>, size: int)
    requires
        m.wf(),
        size > 0,
        sorted_inputs(inputs),
    ensures
        conflict_count(m, inputs, size) == inputs.len() - predicted(m, inputs, size).to_set().len(),
{
    let slots = predicted(m, inputs, size);
    assert forall|i: int, j: int| 0 <= i <= j < slots.len() implies slots[i] <= slots[j] by {
        lemma_position_monotone(m, inputs[i] as int, inputs[j] as int);
    }
    lemma_adjacent_equal(slots);
}

/// A sequence that does not descend has as many distinct elements as it has
/// elements that differ from their predecessor, and one more.
proof fn lemma_adjacent_equal(slots: Seq<int>)
    requires
        forall|i: int, j: int| 0 <= i <= j < slots.len() ==> slots[i] <= slots[j],
    ensures
        adjacent_equal(slots) == slots.len() - slots.to_set().len(),
        slots.to_set().finite(),
    decreases slots.len(),
{
    vstd::seq_lib::seq_to_set_is_finite(slots);
    if slots.len() == 0 {
        assert(slots.to_set() =~= Set::empty());
    } else {
        let rest = slots.drop_last();
        lemma_adjacent_equal(rest);
        let x = slots.last();
        assert(slots.to_set() =~= rest.to_set().insert(x)) by {
            assert forall|y: int| slots.to_set().contains(y) <==> rest.to_set().insert(x).contains(
                y,
            ) by {
                if rest.contains(y) {
                    let w = choose|w: int| 0 <= w < rest.len() && rest[w] == y;
                    assert(slots[w] == y);
                }
                if y == x {
                    assert(slots[slots.len() - 1] == y);
                }
                if slots.contains(y) {
                    let w = choose|w: int| 0 <= w < slots.len() && slots[w] == y;
                    if w < rest.len() {
                        assert(rest[w] == y);
                    }
                }
            }
        }
        if slots.len() > 1 {
            let p = slots[slots.len() - 2];
            assert(rest[rest.len() - 1] == p);
            if p == x {
                assert(rest.contains(x));
            } else {
                assert(!rest.contains(x)) by {
                    if rest.contains(x) {
                        let w = choose|w: int| 0 <= w < rest.len() && rest[w] == x;
                        assert(slots[w] == x);
                        assert(slots[w] <= slots[slots.len() - 2]);
                    }
                }
            }
        }
    }
}

} // verus!
