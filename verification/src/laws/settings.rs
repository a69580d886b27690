//! What settings and errors promise.

use vstd::prelude::*;

use crate::config::Ratio;
use crate::error::Error;
use crate::Config;

verus! {

/// The usual settings: arrays twice as large as the number of keys, automatic rebuilds
/// below more than eight children or with more than half tombstones, and no headroom.
pub proof fn law_usual_settings(r: Config, d: Config)
    requires
        call_ensures(Config::new, (), r),
        call_ensures(<Config as Default>::default, (), d),
    ensures
        r == d,
        r.expansion_factor.num == 2 * r.expansion_factor.den,
        r.expansion_factor.den > 0,
        r.auto_rebuild,
        r.rebuild_depth_threshold == 8,
        2 * r.tombstone_ratio_threshold.num == r.tombstone_ratio_threshold.den,
        r.tombstone_ratio_threshold.den > 0,
        r.range_headroom.num == 0,
        r.range_headroom.den > 0,
{
}

/// A setter changes one setting to what it is given.
pub proof fn law_setters_change_one_setting(
    c: Config,
    factor: Ratio,
    enabled: bool,
    depth: usize,
    share: Ratio,
    headroom: Ratio,
    r: (Config, Config, Config, Config, Config),
)
    requires
        call_ensures(Config::expansion_factor, (c, factor), r.0),
        call_ensures(Config::auto_rebuild, (c, enabled), r.1),
        call_ensures(Config::rebuild_depth_threshold, (c, depth), r.2),
        call_ensures(Config::tombstone_ratio_threshold, (c, share), r.3),
        call_ensures(Config::range_headroom, (c, headroom), r.4),
    ensures
        r.0 == (Config { expansion_factor: factor, ..c }),
        r.1 == (Config { auto_rebuild: enabled, ..c }),
        r.2 == (Config { rebuild_depth_threshold: depth, ..c }),
        r.3 == (Config { tombstone_ratio_threshold: share, ..c }),
        r.4 == (Config { range_headroom: headroom, ..c }),
{
}

/// Fractions are compared by their values. The larger one is at least as large as both.
pub proof fn law_fractions_are_compared(
    a: Ratio,
    b: Ratio,
    r: bool,
    m: Ratio,
    num: u32,
    den: u32,
    n: Ratio,
)
    requires
        call_ensures(Ratio::is_at_least, (&a, &b), r),
        call_ensures(Ratio::max, (a, b), m),
        call_ensures(Ratio::new, (num, den), n),
    ensures
        r <==> a.num * b.den >= b.num * a.den,
        m == a || m == b,
        m.num * a.den >= a.num * m.den,
        m.num * b.den >= b.num * m.den,
        n.num == num && n.den == den,
{
}

/// The messages of errors, and copies of errors.
pub proof fn law_index_error_messages(e: &Error, r: String, copy: Error)
    requires
        call_ensures(Error::to_string, (e,), r),
        call_ensures(<Error as Clone>::clone, (e,), copy),
    ensures
        copy == *e,
        r@ == match *e {
            Error::EmptyData => "input data is empty"@,
            Error::NotSorted => "input data is not sorted"@,
            Error::InvalidKey { detail } => "invalid key: "@ + detail@,
        },
{
}

} // verus!
