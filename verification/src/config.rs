//! Configuration for the learned index.

use vstd::prelude::*;

verus! {

/// Exclusive limit on the parts of a [`Ratio`].
pub const RATIO_PART_LIMIT: u32 = 0x8000_0000;

/// Exclusive limit on the parts of a [`Ratio`] that a [`Config`] stores.
pub const CONFIG_PART_LIMIT: u32 = 0x2000_0000;

/// A non-negative rational number.
///
/// Model fitting works on exact fractions, so that every prediction is the
/// rounded value of the true line and node arrays get the exact size that the
/// configuration asks for.
#[derive(Clone, Copy, Debug, PartialEq, Eq, Structural)]
pub struct Ratio {
    /// Numerator.
    pub num: u32,
    /// Denominator, never zero in a well-formed ratio.
    pub den: u32,
}

impl Ratio {
    /// The parts are in range and the denominator is not zero.
    pub open spec fn wf(self) -> bool {
        0 < self.den < RATIO_PART_LIMIT && self.num < RATIO_PART_LIMIT
    }

    /// The parts leave room for the scaling that a subtree rebuild applies.
    pub open spec fn is_setting(self) -> bool {
        0 < self.den < CONFIG_PART_LIMIT && self.num < CONFIG_PART_LIMIT
    }

    /// `self >= other` as fractions.
    pub open spec fn at_least(self, other: Ratio) -> bool {
        self.num * other.den >= other.num * self.den
    }

    /// The fraction `num / den`, whose parts must be below [`CONFIG_PART_LIMIT`].
    pub fn new(num: u32, den: u32) -> (r: Self)
        requires
            0 < den < CONFIG_PART_LIMIT,
            num < CONFIG_PART_LIMIT,
        ensures
            r.num == num,
            r.den == den,
            r.is_setting(),
    {
        Ratio { num, den }
    }

    /// Whether `self >= other`.
    pub fn is_at_least(&self, other: &Ratio) -> (r: bool)
        ensures
            r == self.at_least(*other),
    {
        assert(self.num * other.den <= 0xffff_ffff * 0xffff_ffff) by (nonlinear_arith)
            requires
                self.num <= 0xffff_ffff,
                other.den <= 0xffff_ffff,
        ;
        assert(other.num * self.den <= 0xffff_ffff * 0xffff_ffff) by (nonlinear_arith)
            requires
                other.num <= 0xffff_ffff,
                self.den <= 0xffff_ffff,
        ;
        self.num as u64 * other.den as u64 >= other.num as u64 * self.den as u64
    }

    /// The larger of two fractions; `self` when they are equal.
    pub fn max(self, other: Ratio) -> (r: Ratio)
        ensures
            r == (if self.at_least(other) {
                self
            } else {
                other
            }),
    {
        if self.is_at_least(&other) {
            self
        } else {
            other
        }
    }
}

/// Configuration parameters for [`LearnedMap`](crate::map::LearnedMap).
#[derive(Clone, Copy, Debug)]
pub struct Config {
    /// Ratio of array size to key count.
    ///
    /// A factor of 2 means the array is twice as large as the number of keys
    /// (50% gaps), leaving room for future inserts without conflicts. Higher
    /// values reduce conflicts but use more memory.
    ///
    /// Default: `2`. Must be at least 1.
    pub expansion_factor: Ratio,
    /// Whether subtrees and the root are rebuilt automatically.
    ///
    /// Default: `true`.
    pub auto_rebuild: bool,
    /// Maximum subtree depth before a localized rebuild is triggered.
    ///
    /// When an insert descends through more child nodes than this threshold,
    /// the degraded subtree is rebuilt. Only applies when `auto_rebuild` is
    /// `true`. Set to `usize::MAX` to disable.
    ///
    /// Default: `8`.
    pub rebuild_depth_threshold: usize,
    /// Share of tombstones in a node above which a remove rebuilds the
    /// subtree. Only applies when `auto_rebuild` is `true`.
    ///
    /// Default: `1/2`.
    pub tombstone_ratio_threshold: Ratio,
    /// Extra key range that a fitted model covers beyond the largest key, as a
    /// share of the key range. Leaves space for keys that arrive later.
    ///
    /// Default: `0`.
    pub range_headroom: Ratio,
}

impl Config {
    /// The configuration can be used for building nodes.
    pub open spec fn can_build(self) -> bool {
        &&& self.expansion_factor.wf()
        &&& self.expansion_factor.num >= self.expansion_factor.den
        &&& self.range_headroom.wf()
    }

    /// The configuration holds settings that a map can be run with.
    pub open spec fn wf(self) -> bool {
        &&& self.expansion_factor.is_setting()
        &&& self.expansion_factor.num >= self.expansion_factor.den
        &&& self.range_headroom.is_setting()
        &&& self.tombstone_ratio_threshold.is_setting()
    }

    /// The default configuration.
    pub open spec fn defaults() -> Config {
        Config {
            expansion_factor: Ratio { num: 2, den: 1 },
            auto_rebuild: true,
            rebuild_depth_threshold: 8,
            tombstone_ratio_threshold: Ratio { num: 1, den: 2 },
            range_headroom: Ratio { num: 0, den: 1 },
        }
    }

    /// Create a new configuration with default values.
    pub fn new() -> (r: Self)
        ensures
            r == Self::defaults(),
            r.wf(),
    {
        Config {
            expansion_factor: Ratio { num: 2, den: 1 },
            auto_rebuild: true,
            rebuild_depth_threshold: 8,
            tombstone_ratio_threshold: Ratio { num: 1, den: 2 },
            range_headroom: Ratio { num: 0, den: 1 },
        }
    }

    /// Set the expansion factor, which must be at least 1.
    pub fn expansion_factor(self, factor: Ratio) -> (r: Self)
        requires
            factor.num >= factor.den,
        ensures
            r == (Config { expansion_factor: factor, ..self }),
    {
        Config { expansion_factor: factor, ..self }
    }

    /// Enable or disable automatic rebuilds.
    pub fn auto_rebuild(self, enabled: bool) -> (r: Self)
        ensures
            r == (Config { auto_rebuild: enabled, ..self }),
    {
        Config { auto_rebuild: enabled, ..self }
    }

    /// Set the maximum subtree depth before a localized rebuild triggers.
    pub fn rebuild_depth_threshold(self, threshold: usize) -> (r: Self)
        ensures
            r == (Config { rebuild_depth_threshold: threshold, ..self }),
    {
        Config { rebuild_depth_threshold: threshold, ..self }
    }

    /// Set the tombstone share above which a remove compacts the subtree.
    pub fn tombstone_ratio_threshold(self, threshold: Ratio) -> (r: Self)
        ensures
            r == (Config { tombstone_ratio_threshold: threshold, ..self }),
    {
        Config { tombstone_ratio_threshold: threshold, ..self }
    }

    /// Set the share of the key range that models cover beyond the last key.
    pub fn range_headroom(self, headroom: Ratio) -> (r: Self)
        ensures
            r == (Config { range_headroom: headroom, ..self }),
    {
        Config { range_headroom: headroom, ..self }
    }
}

impl Default for Config {
    fn default() -> (r: Self)
        ensures
            r == Config::defaults(),
            r.wf(),
    {
        Config::new()
    }
}

} // verus!
