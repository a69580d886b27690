//! Tests of models and their fitting.

use scry_index::model::{count_conflicts, count_conflicts_fast, fit_fmcd, LinearModel};
use scry_index::{Key, Ratio};

fn inputs<K: Key>(keys: &[K]) -> Vec<i128> {
    keys.iter().map(|k| k.to_model_input()).collect()
}

#[test]
fn single_key() {
    let keys = [42u64];
    let result = fit_fmcd(&inputs(&keys), Ratio::new(2, 1), Ratio::new(0, 1));
    assert_eq!(result.array_size, 1);
    assert_eq!(result.conflicts, 0);
    assert_eq!(result.model.predict(&42u64, 1), 0);
}

#[test]
fn two_keys() {
    let keys = [10u64, 20];
    let result = fit_fmcd(&inputs(&keys), Ratio::new(2, 1), Ratio::new(0, 1));
    assert_eq!(result.conflicts, 0);
    assert!(result.array_size >= 2);
    let s1 = result.model.predict(&10u64, result.array_size);
    let s2 = result.model.predict(&20u64, result.array_size);
    assert_ne!(s1, s2, "two keys should map to different slots");
}

#[test]
fn sequential_keys_no_conflicts() {
    let keys: Vec<u64> = (0..100).collect();
    let result = fit_fmcd(&inputs(&keys), Ratio::new(2, 1), Ratio::new(0, 1));
    assert_eq!(
        result.conflicts, 0,
        "sequential keys with 2x expansion should have zero conflicts"
    );
}

#[test]
fn dense_keys_some_conflicts() {
    let keys: Vec<u64> = vec![1, 2, 3, 100, 200, 300];
    let result = fit_fmcd(&inputs(&keys), Ratio::new(1, 1), Ratio::new(0, 1));
    assert!(result.array_size >= keys.len());
}

#[test]
fn predict_clamps_to_range() {
    let model = LinearModel::new(Ratio::new(1, 1), -10);
    assert_eq!(model.predict(&5u64, 100), 0);
    let model2 = LinearModel::new(Ratio::new(1, 1), 1000);
    assert_eq!(model2.predict(&5u64, 100), 99);
}

#[test]
fn expansion_factor_affects_size() {
    let keys: Vec<u64> = (0..50).collect();
    let r1 = fit_fmcd(&inputs(&keys), Ratio::new(3, 2), Ratio::new(0, 1));
    let r2 = fit_fmcd(&inputs(&keys), Ratio::new(3, 1), Ratio::new(0, 1));
    assert!(r2.array_size > r1.array_size);
}

#[test]
fn identical_keys_handled() {
    let keys = [5u64; 10];
    let result = fit_fmcd(&inputs(&keys), Ratio::new(2, 1), Ratio::new(0, 1));
    assert_eq!(result.conflicts, 9);
}

#[test]
fn large_key_range() {
    let keys = [0u64, u64::MAX / 2];
    let result = fit_fmcd(&inputs(&keys), Ratio::new(2, 1), Ratio::new(0, 1));
    assert_eq!(result.conflicts, 0);
}

#[test]
fn signed_keys() {
    let keys: Vec<i64> = vec![-100, -50, 0, 50, 100];
    let result = fit_fmcd(&inputs(&keys), Ratio::new(2, 1), Ratio::new(0, 1));
    assert_eq!(result.conflicts, 0);
}

#[test]
fn model_monotonic_for_sorted_keys() {
    let keys: Vec<u64> = (0..1000).map(|i| i * 7 + 3).collect();
    let result = fit_fmcd(&inputs(&keys), Ratio::new(2, 1), Ratio::new(0, 1));
    let positions: Vec<usize> = keys
        .iter()
        .map(|k| result.model.predict(k, result.array_size))
        .collect();
    for pair in positions.windows(2) {
        assert!(
            pair[0] <= pair[1],
            "model is not monotonic: {} > {}",
            pair[0],
            pair[1]
        );
    }
}

#[test]
fn binary_split_separates_keys() {
    let base: u64 = 1_700_000_000_000_000_000;
    let lo_ord = base.to_exact_ordinal();
    let hi_ord = (base + 1).to_exact_ordinal();
    let midpoint = lo_ord + (hi_ord - lo_ord) / 2;
    let model = LinearModel::binary_split(midpoint);

    // array_size = 2: should map lo to 0, hi to 1
    assert_eq!(model.predict(&base, 2), 0);
    assert_eq!(model.predict(&(base + 1), 2), 1);

    // array_size = 4: should map lo to 0, hi to 3
    assert_eq!(model.predict(&base, 4), 0);
    assert_eq!(model.predict(&(base + 1), 4), 3);
}

#[test]
fn binary_split_many_keys() {
    let base: u64 = 1_700_000_000_000_000_000;
    // Split at midpoint between base+4 and base+5
    let mid = base.to_exact_ordinal() + 4;
    let model = LinearModel::binary_split(mid);

    for i in 0..=4u64 {
        assert_eq!(
            model.predict(&(base + i), 2),
            0,
            "base+{i} should go to slot 0"
        );
    }
    for i in 5..10u64 {
        assert_eq!(
            model.predict(&(base + i), 2),
            1,
            "base+{i} should go to slot 1"
        );
    }
}

#[test]
fn fast_and_full_conflict_count_agree() {
    // Non-uniform keys where conflicts are likely with tight expansion
    let keys: Vec<u64> = vec![1, 2, 3, 4, 5, 100, 200, 300, 400, 500];
    let array_size = 15;
    let ki = inputs(&keys);
    let model = LinearModel::between(ki[0], ki[ki.len() - 1], array_size as u64 - 1);

    let fast = count_conflicts_fast(&ki, &model, array_size);
    let full = count_conflicts(&ki, &model, array_size);
    assert_eq!(
        fast, full,
        "fast ({fast}) and full ({full}) conflict counts disagree"
    );
}

#[test]
fn fmcd_reduces_conflicts_for_nonuniform_keys() {
    // Non-uniform spacing where FMCD can find a better slope than
    // linear interpolation. Keys with varying gaps benefit from
    // slope optimization.
    let keys: Vec<u64> = vec![0, 1, 2, 3, 10, 11, 12, 13, 20, 21];
    let result = fit_fmcd(&inputs(&keys), Ratio::new(2, 1), Ratio::new(0, 1));
    assert!(
        result.conflicts <= 2,
        "FMCD should achieve <= 2 conflicts for mildly clustered keys, got {}",
        result.conflicts
    );
}

#[test]
fn headroom_increases_array_size() {
    let keys: Vec<u64> = (0..100).collect();
    let r0 = fit_fmcd(&inputs(&keys), Ratio::new(2, 1), Ratio::new(0, 1));
    let r1 = fit_fmcd(&inputs(&keys), Ratio::new(2, 1), Ratio::new(1, 1));
    assert!(
        r1.array_size > r0.array_size,
        "headroom=1.0 should produce larger array: {} vs {}",
        r1.array_size,
        r0.array_size
    );
}

#[test]
fn headroom_keys_not_at_edge() {
    let keys: Vec<u64> = (0..100).collect();
    let result = fit_fmcd(&inputs(&keys), Ratio::new(2, 1), Ratio::new(1, 1));
    // With headroom=1.0, the last key should map to approximately
    // the middle of the array, not the end.
    let last_slot = result.model.predict(&99u64, result.array_size);
    let midpoint = result.array_size / 2;
    assert!(
        last_slot <= midpoint + midpoint / 4,
        "last key at slot {last_slot}, expected near {midpoint} (array_size={})",
        result.array_size
    );
}

#[test]
fn uniform_still_zero_conflicts_with_fmcd() {
    // Sequential keys with good expansion should get 0 conflicts.
    let keys: Vec<u64> = (0..1000).collect();
    let result = fit_fmcd(&inputs(&keys), Ratio::new(2, 1), Ratio::new(0, 1));
    assert_eq!(
        result.conflicts, 0,
        "sequential keys should have 0 conflicts"
    );
}

#[test]
fn prediction_rounds_to_the_nearest_slot() {
    // Halves are rounded up.
    let model = LinearModel::new(Ratio::new(1, 10), 0);
    assert_eq!(model.predict(&4u64, 100), 0);
    assert_eq!(model.predict(&5u64, 100), 1);
    assert_eq!(model.predict(&14u64, 100), 1);
    assert_eq!(model.predict(&15u64, 100), 2);
    assert_eq!(model.predict(&u64::MAX, 100), 99);
    assert_eq!(model.predict_raw(-1, 100), 0);
}

#[test]
fn array_sizes_are_exact() {
    let keys: Vec<u64> = (0..10).collect();
    let size = |factor: Ratio, headroom: Ratio| fit_fmcd(&inputs(&keys), factor, headroom).array_size;
    assert_eq!(size(Ratio::new(1, 1), Ratio::new(0, 1)), 10);
    assert_eq!(size(Ratio::new(2, 1), Ratio::new(0, 1)), 20);
    assert_eq!(size(Ratio::new(2, 1), Ratio::new(1, 1)), 40);
    assert_eq!(size(Ratio::new(5, 4), Ratio::new(1, 10)), 14); // 13.75
}

#[test]
fn widest_gap_gives_better_slopes_than_interpolation() {
    // Interpolation over the whole range puts the first keys into one slot.
    let keys: Vec<u64> = vec![0, 1, 2, 3, 1000];
    let interpolated = LinearModel::between(0, 1000, 9);
    assert_eq!(count_conflicts_fast(&inputs(&keys), &interpolated, 10), 3);
    let fitted = fit_fmcd(&inputs(&keys), Ratio::new(2, 1), Ratio::new(0, 1));
    assert!(fitted.conflicts <= 3);
    assert_eq!(
        fitted.conflicts,
        count_conflicts(&inputs(&keys), &fitted.model, fitted.array_size)
    );
}

#[test]
fn models_cover_the_widest_keys() {
    let keys = [i128::MIN, 0, i128::MAX];
    let fitted = fit_fmcd(&keys, Ratio::new(2, 1), Ratio::new(0, 1));
    assert_eq!(fitted.conflicts, 0);
    assert_eq!(fitted.model.predict_raw(i128::MIN, fitted.array_size), 0);
    assert_eq!(fitted.model.predict_raw(i128::MAX, fitted.array_size), fitted.array_size - 1);
}

#[test]
fn interpolation_covers_the_exact_range() {
    // The slope is 95 / 126.25.
    let keys: Vec<u64> = vec![0, 1, 2, 101];
    let fitted = fit_fmcd(&inputs(&keys), Ratio::new(153, 8), Ratio::new(1, 4));
    assert_eq!(fitted.array_size, 96);
    assert_eq!(fitted.conflicts, 0);
    let slots: Vec<usize> = keys.iter().map(|k| fitted.model.predict(k, 96)).collect();
    assert_eq!(slots, vec![0, 1, 2, 76]);
}

#[test]
fn wide_slopes_are_exact() {
    // Twice 2^64, over a range of 2^65 + 2.
    let model = LinearModel {
        anchor: 0,
        unit: 1,
        num: 1 << 65,
        den: (1 << 65) + 2,
        offset: 0,
        midpoint: None,
    };
    assert_eq!(model.predict_raw(0, 100), 0);
    assert_eq!(model.predict_raw(7, 100), 7);
    assert_eq!(model.predict_raw(1000, 100), 99);
    // Far from the anchor the slope falls short by one.
    let far = u64::MAX as usize;
    assert_eq!(model.predict_raw(u64::MAX as i128, far), far - 1);
    let steep = LinearModel { num: u128::MAX, den: 3, ..model };
    assert_eq!(steep.predict_raw(1, 100), 99);
    assert_eq!(steep.predict_raw(-1, 100), 0);
}
