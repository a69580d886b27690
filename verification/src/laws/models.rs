//! What models promise: a prediction is the slot that is nearest to the line, and a
//! fitted line has the fewest conflicts among its candidates.

use vstd::arithmetic::div_mod::lemma_fundamental_div_mod;
use vstd::prelude::*;

use crate::config::Ratio;
use crate::key::Key;
use crate::model::{
    candidate, ceil_div, conflict_count, count_conflicts, count_conflicts_fast, fit_fmcd,
    is_best, is_candidate, law_adjacent_counting_is_exact, lemma_ceil_div, lemma_position_monotone,
    lemma_unit_distances, lemma_widest_gap, predicted, rounded, sorted_inputs, unit_distance,
    unit_for, widest_gap, FmcdResult, LinearModel,
};

verus! {

/// The number of whole units from the anchor of a model to an input.
pub open spec fn whole_units(m: LinearModel, x: int) -> int {
    if x >= m.anchor {
        (x - m.anchor) / m.unit as int
    } else {
        -((m.anchor - x) / m.unit as int)
    }
}

/// Rounding finds the nearest integer.
proof fn lemma_nearest(num: int, t: int, den: int)
    requires
        den > 0,
    ensures
        den * (2 * rounded(num, t, den) - 1) <= 2 * (num * t) < den * (2 * rounded(num, t, den) + 1),
{
    let r = rounded(num, t, den);
    let p = num * t;
    lemma_fundamental_div_mod(2 * p + den, 2 * den);
    assert(den * (2 * r - 1) <= 2 * p < den * (2 * r + 1)) by (nonlinear_arith)
        requires
            2 * p + den == (2 * den) * r + (2 * p + den) % (2 * den),
            0 <= (2 * p + den) % (2 * den) < 2 * den,
    ;
}

/// A model predicts the slot that is nearest to its line, the upper one of two that
/// are equally near, and the first or the last slot for what is beyond them.
///
/// Inputs that are more than 64 bits of units away from the anchor are left out: they
/// are predicted like the farthest that is not.
pub proof fn law_predictions_are_the_nearest_slots(
    m: &LinearModel,
    x: i128,
    size: usize,
    slot: usize,
)
    requires
        m.wf(),
        size > 0,
        -u64::MAX <= whole_units(*m, x as int) <= u64::MAX,
        call_ensures(LinearModel::predict_raw, (m, x, size), slot),
    ensures
        slot < size,
        ({
            let t = whole_units(*m, x as int);
            let p = slot - m.offset;
            &&& slot > 0 ==> m.den * (2 * p - 1) <= 2 * (m.num * t)
            &&& slot < size - 1 ==> 2 * (m.num * t) < m.den * (2 * p + 1)
        }),
{
    let t = whole_units(*m, x as int);
    assert(t == m.units(x as int));
    let (num, den) = (m.num as int, m.den as int);
    let r = rounded(num, t, den);
    let p = slot - m.offset;
    lemma_nearest(num, t, den);
    if slot > 0 {
        assert(p <= r);
        assert(den * (2 * p - 1) <= den * (2 * r - 1)) by (nonlinear_arith)
            requires
                p <= r,
                den > 0,
        ;
    }
    if slot < size - 1 {
        assert(p >= r);
        assert(den * (2 * r + 1) <= den * (2 * p + 1)) by (nonlinear_arith)
            requires
                p >= r,
                den > 0,
        ;
    }
}

/// A larger input never predicts a lower slot.
pub proof fn law_predictions_follow_the_inputs(
    m: &LinearModel,
    x: i128,
    y: i128,
    size: usize,
    slot: usize,
    other: usize,
)
    requires
        m.wf(),
        x <= y,
        call_ensures(LinearModel::predict_raw, (m, x, size), slot),
        call_ensures(LinearModel::predict_raw, (m, y, size), other),
    ensures
        slot <= other,
        size > 0 ==> other < size,
{
    lemma_position_monotone(*m, x as int, y as int);
}

/// A key is predicted by its model input or, where a model splits its keys, by the
/// side of the split that its ordinal is on.
pub proof fn law_keys_are_predicted_by_their_numbers<K: Key>(
    m: &LinearModel,
    key: &K,
    size: usize,
    slot: usize,
    raw: usize,
)
    requires
        m.wf(),
        size > 0,
        call_ensures(LinearModel::predict::<K>, (m, key, size), slot),
        call_ensures(LinearModel::predict_raw, (m, K::model_input(key@) as i128, size), raw),
        i128::MIN <= K::model_input(key@) <= i128::MAX,
    ensures
        slot == match m.midpoint {
            Some(mid) => if K::exact_ordinal(key@) <= mid {
                0
            } else {
                (size - 1) as usize
            },
            None => raw,
        },
{
}

/// Models are what they are made of: a slope with an intercept, a line through two
/// slots, a split, or one slot for all.
pub proof fn law_models_are_made_as_asked(
    slope: Ratio,
    intercept: i64,
    anchor: i128,
    num: u64,
    den: u128,
    mid: i128,
    line: LinearModel,
    ray: LinearModel,
    split: LinearModel,
    flat: LinearModel,
)
    requires
        call_ensures(LinearModel::new, (slope, intercept), line),
        call_ensures(LinearModel::through, (anchor, num, den), ray),
        call_ensures(LinearModel::binary_split, (mid,), split),
        call_ensures(LinearModel::constant, (), flat),
    ensures
        line.num == slope.num && line.den == slope.den && line.offset == intercept,
        line.anchor == 0 && line.unit == 1 && line.midpoint is None,
        ray.num == num && ray.den == den && ray.anchor == anchor,
        ray.offset == 0 && ray.unit == 1 && ray.midpoint is None,
        split.midpoint == Some(mid),
        flat.num == 0 && flat.offset == 0 && flat.midpoint is None,
{
}

/// A line between two inputs predicts the first slot for one and the given slot for
/// the other. In between it is straight, in units so wide that their number has at most
/// 64 bits.
pub proof fn law_lines_lead_through_their_ends(
    lo: i128,
    hi: i128,
    last: u64,
    line: LinearModel,
    size: usize,
    first_slot: usize,
    last_slot: usize,
)
    requires
        lo < hi,
        last < size,
        call_ensures(LinearModel::between, (lo, hi, last), line),
        call_ensures(LinearModel::predict_raw, (&line, lo, size), first_slot),
        call_ensures(LinearModel::predict_raw, (&line, hi, size), last_slot),
    ensures
        first_slot == 0,
        last_slot == last,
        line.anchor == lo && line.num == last && line.offset == 0 && line.midpoint is None,
        line.unit == (hi - lo) / 0x1_0000_0000_0000_0000 + 1,
        line.den == (hi - lo) / line.unit as int,
        hi - lo < 0x1_0000_0000_0000_0000 ==> line.unit == 1 && line.den == hi - lo,
{
    let (range, unit) = (hi - lo, (hi - lo) / 0x1_0000_0000_0000_0000 + 1);
    assert(0 <= range / unit <= range) by (nonlinear_arith)
        requires
            range >= 0,
            unit >= 1,
    ;
    assert(unit <= u128::MAX && range <= u128::MAX);
    assert(unit as u128 == unit);
    if range < 0x1_0000_0000_0000_0000 {
        assert(unit == 1);
        assert(range / unit == range) by (nonlinear_arith)
            requires
                unit == 1,
        ;
    }
}

/// The size of a fitted array is the number of keys times the expansion factor times
/// one and the headroom, rounded up, as far as a `usize` reaches. One key gets one
/// slot.
pub proof fn law_fitted_arrays_have_the_asked_size(
    inputs: &[i128],
    factor: Ratio,
    headroom: Ratio,
    r: FmcdResult,
)
    requires
        call_ensures(fit_fmcd, (inputs, factor, headroom), r),
        inputs@.len() > 0,
        factor.wf(),
        headroom.wf(),
    ensures
        inputs@.len() == 1 ==> r.array_size == 1,
        inputs@.len() > 1 ==> ({
            let wanted = inputs@.len() * (factor.num * (headroom.den + headroom.num));
            let scale = factor.den * headroom.den;
            &&& (r.array_size - 1) * scale < wanted
            &&& r.array_size < usize::MAX ==> wanted <= r.array_size * scale
        }),
{
    if inputs@.len() > 1 {
        let wanted = inputs@.len() * (factor.num * (headroom.den + headroom.num));
        let scale = factor.den * headroom.den;
        assert(scale > 0) by (nonlinear_arith)
            requires
                scale == factor.den * headroom.den,
                factor.den > 0,
                headroom.den > 0,
        ;
        lemma_ceil_div(wanted, scale);
        let size = ceil_div(wanted, scale);
        assert(r.array_size <= size);
        assert((r.array_size - 1) * scale <= (size - 1) * scale) by (nonlinear_arith)
            requires
                r.array_size <= size,
                scale > 0,
        ;
        assert((size - 1) * scale == size * scale - scale) by (nonlinear_arith);
    }
}

/// Conflicts are the inputs whose slot an earlier input has: they are as many as
/// there are inputs beyond the distinct slots, whichever way they are counted. Two
/// inputs that share a slot make one, and without two such there is none.
pub proof fn law_conflicts_are_shared_slots(
    inputs: &[i128],
    m: &LinearModel,
    size: usize,
    count: usize,
    fast: usize,
    i: int,
    j: int,
    slot: usize,
    other: usize,
)
    requires
        m.wf(),
        size > 0,
        sorted_inputs(inputs@),
        0 <= i < j < inputs@.len(),
        call_ensures(count_conflicts, (inputs, m, size), count),
        call_ensures(count_conflicts_fast, (inputs, m, size), fast),
        call_ensures(LinearModel::predict_raw, (m, inputs@[i], size), slot),
        call_ensures(LinearModel::predict_raw, (m, inputs@[j], size), other),
    ensures
        count == fast,
        slot == other ==> count > 0,
        predicted(*m, inputs@, size as int).len() == inputs@.len(),
        predicted(*m, inputs@, size as int)[i] == slot,
        predicted(*m, inputs@, size as int)[j] == other,
        count == inputs@.len() - predicted(*m, inputs@, size as int).to_set().len(),
{
    law_adjacent_counting_is_exact(*m, inputs@, size as int);
    let slots = predicted(*m, inputs@, size as int);
    if slot == other {
        if slots.no_duplicates() {
            assert(slots[i] != slots[j]);
        }
        if count == 0 {
            slots.lemma_no_dup_set_cardinality();
        }
    }
}

/// A fitted line separates the first input from the last one, and counts its
/// conflicts.
pub proof fn law_fitted_lines_separate_the_ends(
    inputs: &[i128],
    factor: Ratio,
    headroom: Ratio,
    r: FmcdResult,
    first: usize,
    last: usize,
    conflicts: usize,
)
    requires
        inputs@.len() > 0,
        call_ensures(fit_fmcd, (inputs, factor, headroom), r),
        call_ensures(LinearModel::predict_raw, (&r.model, inputs@[0], r.array_size), first),
        call_ensures(LinearModel::predict_raw, (&r.model, inputs@.last(), r.array_size), last),
        call_ensures(count_conflicts_fast, (inputs, &r.model, r.array_size), conflicts),
    ensures
        inputs@[0] < inputs@.last() ==> first < last,
        r.conflicts == conflicts,
        r.array_size >= inputs@.len(),
{
}

/// The gap between two neighbours is the widest.
pub open spec fn is_widest_gap(inputs: Seq<i128>, gap: int) -> bool {
    &&& forall|i: int|
        0 <= i < inputs.len() - 1 ==> (#[trigger] inputs[i + 1]) - inputs[i] <= gap
    &&& exists|i: int| 0 <= i < inputs.len() - 1 && (#[trigger] inputs[i + 1]) - inputs[i] == gap
}

/// The widest gap in units of 1.
proof fn lemma_widest(inputs: Seq<i128>, n: int)
    requires
        1 < n <= inputs.len(),
        sorted_inputs(inputs),
        inputs[0] < inputs.last(),
        inputs.last() - inputs[0] < 0x1_0000_0000_0000_0000,
    ensures
        forall|i: int|
            0 <= i < n - 1 ==> (#[trigger] inputs[i + 1]) - inputs[i] <= widest_gap(inputs, n),
        exists|i: int|
            0 <= i < n - 1 && (#[trigger] inputs[i + 1]) - inputs[i] == widest_gap(inputs, n),
    decreases n,
{
    let gap = inputs[n - 1] - inputs[n - 2];
    assert(inputs[n - 2] <= inputs[n - 1]);
    let unit = unit_for(inputs.last() - inputs[0]);
    assert(unit == 1);
    assert forall|i: int| 0 <= i < inputs.len() implies #[trigger] unit_distance(inputs, i)
        == inputs[i] - inputs[0] by {
        let d = inputs[i] - inputs[0];
        assert(d / unit == d) by (nonlinear_arith)
            requires
                unit == 1,
        ;
    }
    assert(unit_distance(inputs, n - 1) - unit_distance(inputs, n - 2) == gap);
    assert(widest_gap(inputs, n) == if gap > widest_gap(inputs, n - 1) {
        gap
    } else {
        widest_gap(inputs, n - 1)
    });
    if n == 2 {
        assert(widest_gap(inputs, 1) == 0);
        let zero: int = 0;
        assert(inputs[zero + 1] - inputs[zero] == gap);
    } else {
        lemma_widest(inputs, n - 1);
        if gap > widest_gap(inputs, n - 1) {
            assert(inputs[n - 2 + 1] - inputs[n - 2] == gap);
        } else {
            let i = choose|i: int|
                0 <= i < n - 2 && (#[trigger] inputs[i + 1]) - inputs[i] == widest_gap(
                    inputs,
                    n - 1,
                );
            assert(inputs[i + 1] - inputs[i] == widest_gap(inputs, n));
        }
    }
}

/// A fitted line has no more conflicts than interpolation over the range with its
/// headroom, and no more than any line that places the widest gap at a distance of 1
/// to 32 slots and stays within the array. It is one of these lines.
///
/// Stated for inputs within 64 bits of each other; wider ranges are measured in larger
/// units.
pub proof fn law_fitted_lines_have_the_fewest_conflicts(
    inputs: &[i128],
    factor: Ratio,
    headroom: Ratio,
    r: FmcdResult,
    gap: int,
    j: int,
    line: LinearModel,
    conflicts: usize,
)
    requires
        inputs@.len() > 1,
        sorted_inputs(inputs@),
        inputs@[0] < inputs@.last(),
        inputs@.last() - inputs@[0] < 0x1_0000_0000_0000_0000,
        factor.wf(),
        factor.num >= factor.den,
        headroom.wf(),
        call_ensures(fit_fmcd, (inputs, factor, headroom), r),
        is_widest_gap(inputs@, gap),
        ({
            let range = inputs@.last() - inputs@[0];
            line == (LinearModel {
                anchor: inputs@[0],
                unit: 1,
                num: if j == 0 {
                    ((r.array_size - 1) * headroom.den) as u128
                } else {
                    j as u128
                },
                den: if j == 0 {
                    (range * (headroom.den + headroom.num)) as u128
                } else {
                    gap as u128
                },
                offset: 0,
                midpoint: None,
            })
        }),
        j == 0 || (1 <= j <= 32 && j * (inputs@.last() - inputs@[0]) <= (r.array_size - 1) * gap),
        call_ensures(count_conflicts_fast, (inputs, &line, r.array_size), conflicts),
    ensures
        r.conflicts <= conflicts,
        r.model.anchor == inputs@[0] && r.model.offset == 0 && r.model.midpoint is None,
        r.model.den == gap && 1 <= r.model.num <= 32 || r.model.num == (r.array_size - 1)
            * headroom.den && r.model.den == (inputs@.last() - inputs@[0]) * (headroom.den
            + headroom.num),
{
    let s = inputs@;
    let n = s.len() as int;
    let size = r.array_size as int;
    lemma_unit_distances(s);
    lemma_widest_gap(s, n);
    lemma_widest(s, n);
    let range = s.last() - s[0];
    assert(unit_distance(s, n - 1) == range);
    let w = widest_gap(s, n);
    assert(w == gap) by {
        let a = choose|i: int| 0 <= i < n - 1 && (#[trigger] s[i + 1]) - s[i] == gap;
        let b = choose|i: int| 0 <= i < n - 1 && (#[trigger] s[i + 1]) - s[i] == w;
        assert(s[a + 1] - s[a] <= w);
        assert(s[b + 1] - s[b] <= gap);
    }
    assert(is_candidate(s, size, j));
    assert(line == candidate(s, size, headroom, j));
    let best = choose|b: int|
        #[trigger] is_best(s, size, headroom, b) && r.model == candidate(s, size, headroom, b);
    assert(conflict_count(candidate(s, size, headroom, best), s, size) <= conflict_count(
        candidate(s, size, headroom, j),
        s,
        size,
    ));
    let reach = headroom.den + headroom.num;
    assert(0 <= (size - 1) * headroom.den <= 0xffff_ffff_ffff_ffff * 0x8000_0000 && 0 <= range
        * reach <= 0xffff_ffff_ffff_ffff * 0x1_0000_0000) by (nonlinear_arith)
        requires
            0 <= size - 1 <= 0xffff_ffff_ffff_ffff,
            0 <= headroom.den <= 0x8000_0000,
            0 <= range <= 0xffff_ffff_ffff_ffff,
            0 <= reach <= 0x1_0000_0000,
    ;
}

} // verus!
