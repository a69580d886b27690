//! Tests of the configuration.

use scry_index::config::CONFIG_PART_LIMIT;
use scry_index::model::fit_fmcd;
use scry_index::{Config, LearnedMap, Ratio};

fn value(r: Ratio) -> f64 {
    r.num as f64 / r.den as f64
}

#[test]
fn default_config() {
    let config = Config::default();
    assert!((value(config.expansion_factor) - 2.0).abs() < f64::EPSILON);
}

#[test]
fn builder_pattern() {
    let config = Config::new().expansion_factor(Ratio::new(3, 1));
    assert!((value(config.expansion_factor) - 3.0).abs() < f64::EPSILON);
}

#[test]
fn fractions_have_large_parts() {
    let largest = CONFIG_PART_LIMIT - 1;
    let inputs: Vec<i128> = (0..1000).collect();
    // Just above 1, just below 2, and just above 3.
    let size = |factor: Ratio| fit_fmcd(&inputs, factor, Ratio::new(0, 1)).array_size;
    assert_eq!(size(Ratio::new(largest, largest - 1)), 1001);
    assert_eq!(size(Ratio::new(largest, CONFIG_PART_LIMIT / 2)), 2000);
    assert_eq!(size(Ratio::new(300_000_001, 100_000_000)), 3001);

    let config = Config::new()
        .expansion_factor(Ratio::new(largest, largest / 2))
        .range_headroom(Ratio::new(1, largest))
        .tombstone_ratio_threshold(Ratio::new(largest - 1, largest));
    let pairs: Vec<(u64, u64)> = (0..500).map(|k| (k * k, k)).collect();
    let mut map = LearnedMap::bulk_load_with_config(&pairs, config).unwrap();
    let g = map.guard();
    for k in 500..1000u64 {
        map.insert(k * k, k, &g);
    }
    for k in 0..1000u64 {
        assert_eq!(map.get(&(k * k), &g), Some(&k));
    }
}
