//! What holds of every configuration that the daemon runs with.

use vstd::prelude::*;
use crate::config::DaemonConfig;
use crate::config::{LEAST_RATIO, LEAST_SHUTTER};
use crate::double::Double;
use crate::double::{HUNDRED, ONE, ZERO};

verus! {

/// Numbers from zero up, each greater than the one before.
pub open spec fn climbing(points: Seq<Double>) -> bool {
    &&& forall|i: int| 0 <= i < points.len() ==> Double::from_bits(ZERO).at_most(#[trigger] points[i])
    &&& forall|i: int, j: int|
        #![trigger points[i], points[j]]
        0 <= i < j < points.len() ==> points[i].less(points[j])
}

/// A value between two others, or not a number.
pub open spec fn between(d: Double, low: Double, high: Double) -> bool {
    d.is_nan() || (low.at_most(d) && d.at_most(high))
}

/// Every setting is in its range.
pub open spec fn valid(c: &DaemonConfig) -> bool {
    let zero = Double::from_bits(ZERO);
    let one = Double::from_bits(ONE);
    let hundred = Double::from_bits(HUNDRED);
    &&& c.lux_points@.len() >= 2
    &&& climbing(c.lux_points@)
    &&& c.max_lux matches Some(m) ==> zero.less(m)
    &&& between(c.lux_hysteresis_ratio, Double::from_bits(LEAST_RATIO), one)
    &&& zero.at_most(c.lux_hysteresis_abs)
    &&& c.auto_adjust_delay_ms >= 50
    &&& c.transition_duration_ms >= 50
    &&& 20 <= c.min_transition_duration_ms <= c.transition_duration_ms
    &&& between(c.shutter_threshold, Double::from_bits(LEAST_SHUTTER), one)
    &&& zero.at_most(c.min_brightness_percent)
    &&& c.min_brightness_percent.at_most(hundred)
    &&& between(c.max_brightness_percent, c.min_brightness_percent, hundred)
}

/// The points are those of `other`, and no other settings differ.
pub open spec fn same_settings(c: &DaemonConfig, other: &DaemonConfig) -> bool {
    &&& c.lux_points@ == other.lux_points@
    &&& c.max_lux == other.max_lux
    &&& c.lux_hysteresis_ratio == other.lux_hysteresis_ratio
    &&& c.lux_hysteresis_abs == other.lux_hysteresis_abs
    &&& c.auto_adjust_delay_ms == other.auto_adjust_delay_ms
    &&& c.transition_duration_ms == other.transition_duration_ms
    &&& c.min_transition_duration_ms == other.min_transition_duration_ms
    &&& c.adaptive_transition == other.adaptive_transition
    &&& c.shutter_threshold == other.shutter_threshold
    &&& c.default_learning == other.default_learning
    &&& c.default_adjust_enabled == other.default_adjust_enabled
    &&& c.min_brightness_percent == other.min_brightness_percent
    &&& c.max_brightness_percent == other.max_brightness_percent
    &&& c.backlight_device == other.backlight_device
    &&& c.poll_interval_ms == other.poll_interval_ms
}

/// A number that is put into climbing numbers leaves them climbing, and is then among them.
proof fn lemma_put(points: Seq<Double>, x: Double)
    requires
        climbing(points),
        Double::from_bits(ZERO).at_most(x),
    ensures
        climbing(crate::config::put(points, x)),
        forall|i: int|
            0 <= i < crate::config::put(points, x).len() ==> #[trigger] crate::config::put(points, x)[i] == x
                || points.contains(crate::config::put(points, x)[i]),
        exists|i: int|
            0 <= i < crate::config::put(points, x).len() && (#[trigger] crate::config::put(points, x)[i]).same(x),
        forall|i: int|
            0 <= i < points.len() ==> crate::config::put(points, x).contains(#[trigger] points[i]),
        crate::config::put(points, x).len() > 0,
        crate::config::put(points, x).last() == x || (points.len() > 0 && crate::config::put(points, x).last()
            == points.last()),
    decreases points.len(),
{
    let r = crate::config::put(points, x);
    let n = points.len();
    if n == 0 || points.last().less(x) {
        assert(r[n as int].same(x));
        assert forall|i: int, j: int| #![trigger r[i], r[j]] 0 <= i < j < r.len() implies r[i].less(r[j]) by {
            if j == n {
                if i < n - 1 {
                    assert(points[i].less(points[n - 1]));
                }
            } else {
                assert(points[i].less(points[j]));
            }
        }
        assert forall|i: int| 0 <= i < r.len() implies #[trigger] r[i] == x || points.contains(r[i]) by {
            if i < n {
                assert(points[i] == r[i]);
            }
        }
        assert forall|i: int| 0 <= i < points.len() implies r.contains(#[trigger] points[i]) by {
            assert(r[i] == points[i]);
        }
    } else if points.last().same(x) {
        assert(r[n - 1].same(x));
    } else {
        let shorter = points.drop_last();
        let last = points.last();
        assert(climbing(shorter)) by {
            assert forall|i: int| 0 <= i < shorter.len() implies Double::from_bits(ZERO).at_most(
                #[trigger] shorter[i],
            ) by {
                assert(shorter[i] == points[i]);
            }
            assert forall|i: int, j: int|
                #![trigger shorter[i], shorter[j]]
                0 <= i < j < shorter.len() implies shorter[i].less(shorter[j]) by {
                assert(points[i].less(points[j]));
            }
        }
        lemma_put(shorter, x);
        let before = crate::config::put(shorter, x);
        let m = before.len();
        assert(points[n - 1] == last);
        assert(before.last().less(last)) by {
            if shorter.len() > 0 {
                assert(points[n - 2].less(points[n - 1]));
            }
        }
        assert forall|i: int| 0 <= i < r.len() implies Double::from_bits(ZERO).at_most(#[trigger] r[i]) by {
            if i < m {
                assert(r[i] == before[i]);
            }
        }
        assert forall|i: int, j: int| #![trigger r[i], r[j]] 0 <= i < j < r.len() implies r[i].less(r[j]) by {
            if j < m {
                assert(before[i].less(before[j]));
            } else if i < m - 1 {
                assert(before[i].less(before[m - 1]));
            }
        }
        assert forall|i: int| 0 <= i < r.len() implies #[trigger] r[i] == x || points.contains(r[i]) by {
            if i < m {
                assert(r[i] == before[i]);
                if before[i] != x {
                    let k = choose|k: int| 0 <= k < shorter.len() && shorter[k] == before[i];
                    assert(points[k] == r[i]);
                }
            } else {
                assert(points[n - 1] == r[i]);
            }
        }
        let k = choose|k: int| 0 <= k < before.len() && (#[trigger] before[k]).same(x);
        assert(r[k].same(x));
        assert forall|i: int| 0 <= i < points.len() implies r.contains(#[trigger] points[i]) by {
            if i < n - 1 {
                assert(before.contains(shorter[i]));
                let j = choose|j: int| 0 <= j < before.len() && before[j] == shorter[i];
                assert(r[j] == points[i]);
            } else {
                assert(r[m as int] == points[i]);
            }
        }
    }
}

/// The reference points that are kept climb; each is one of those given; and each number from zero up
/// that is given is kept, or one equal to it.
pub proof fn law_reference_points(points: Seq<Double>)
    ensures
        climbing(crate::config::distinct(points)),
        forall|i: int|
            0 <= i < crate::config::distinct(points).len() ==> points.contains(
                #[trigger] crate::config::distinct(points)[i],
            ),
        forall|i: int|
            0 <= i < points.len() && Double::from_bits(ZERO).at_most(#[trigger] points[i]) ==> kept(
                crate::config::distinct(points),
                points[i],
            ),
    decreases points.len(),
{
    let r = crate::config::distinct(points);
    if points.len() > 0 {
        let n = points.len() - 1;
        let shorter = points.drop_last();
        let x = points.last();
        law_reference_points(shorter);
        let before = crate::config::distinct(shorter);
        assert(points[n] == x);
        if Double::from_bits(ZERO).at_most(x) {
            lemma_put(before, x);
        }
        assert forall|i: int| 0 <= i < r.len() implies points.contains(#[trigger] r[i]) by {
            if r[i] == x {
                assert(points[n] == r[i]);
            } else {
                assert(before.contains(r[i]));
                let k = choose|k: int| 0 <= k < before.len() && before[k] == r[i];
                assert(shorter.contains(before[k]));
                let j = choose|j: int| 0 <= j < shorter.len() && shorter[j] == r[i];
                assert(points[j] == r[i]);
            }
        }
        assert forall|i: int| 0 <= i < points.len() && Double::from_bits(ZERO).at_most(#[trigger] points[i]) implies kept(
            r,
            points[i],
        ) by {
            if i < n {
                assert(shorter[i] == points[i]);
                assert(kept(before, shorter[i]));
                let k = choose|k: int| 0 <= k < before.len() && (#[trigger] before[k]).same(points[i]);
                if Double::from_bits(ZERO).at_most(x) {
                    assert(r.contains(before[k]));
                    let j = choose|j: int| 0 <= j < r.len() && r[j] == before[k];
                    assert(r[j].same(points[i]));
                }
            } else {
                let k = choose|k: int| 0 <= k < r.len() && (#[trigger] r[k]).same(x);
                assert(r[k].same(points[i]));
            }
        }
    }
}

/// `x`, or a number equal to it, is among the points.
pub open spec fn kept(points: Seq<Double>, x: Double) -> bool {
    exists|k: int| 0 <= k < points.len() && (#[trigger] points[k]).same(x)
}

/// A validated configuration is valid.
pub proof fn law_validation_validates(c: &DaemonConfig, before: &DaemonConfig)
    requires
        c.validated_from(before),
        !before.min_brightness_percent.is_nan(),
    ensures
        valid(c),
{
    law_reference_points(before.lux_points@);
}

/// Validation leaves a valid configuration as it is, so that validating twice is validating once.
pub proof fn law_validation_is_idempotent(c: &DaemonConfig, before: &DaemonConfig)
    requires
        valid(before),
        c.validated_from(before),
    ensures
        same_settings(c, before),
{
    crate::config::lemma_distinct_of_ascending(before.lux_points@);
}

/// A setting out of its range goes to the nearest bound, and one in its range stays; the settings without a range
/// stay as they are.
pub proof fn law_validation_goes_to_the_nearest_bound(c: &DaemonConfig, before: &DaemonConfig)
    requires
        c.validated_from(before),
        !before.min_brightness_percent.is_nan(),
    ensures
        nearest(c.lux_hysteresis_ratio, before.lux_hysteresis_ratio, Double::from_bits(LEAST_RATIO), Double::from_bits(ONE)),
        nearest(c.shutter_threshold, before.shutter_threshold, Double::from_bits(LEAST_SHUTTER), Double::from_bits(ONE)),
        nearest(c.min_brightness_percent, before.min_brightness_percent, Double::from_bits(ZERO), Double::from_bits(HUNDRED)),
        nearest(c.max_brightness_percent, before.max_brightness_percent, c.min_brightness_percent, Double::from_bits(HUNDRED)),
        before.lux_hysteresis_abs.is_nan() || before.lux_hysteresis_abs.less(Double::from_bits(ZERO))
            ==> c.lux_hysteresis_abs.same(Double::from_bits(ZERO)),
        Double::from_bits(ZERO).less(before.lux_hysteresis_abs) ==> c.lux_hysteresis_abs == before.lux_hysteresis_abs,
        c.auto_adjust_delay_ms == (if before.auto_adjust_delay_ms < 50 {
            50
        } else {
            before.auto_adjust_delay_ms
        }),
        c.transition_duration_ms == (if before.transition_duration_ms < 50 {
            50
        } else {
            before.transition_duration_ms
        }),
        before.min_transition_duration_ms < 20 ==> c.min_transition_duration_ms == 20,
        before.min_transition_duration_ms > c.transition_duration_ms ==> c.min_transition_duration_ms
            == c.transition_duration_ms,
        20 <= before.min_transition_duration_ms <= c.transition_duration_ms ==> c.min_transition_duration_ms
            == before.min_transition_duration_ms,
        before.max_lux matches Some(m) ==> Double::from_bits(ZERO).less(m) ==> c.max_lux == Some(m),
        before.max_lux matches Some(m) ==> !Double::from_bits(ZERO).less(m) ==> c.max_lux is None,
        before.max_lux is None ==> c.max_lux is None,
        c.adaptive_transition == before.adaptive_transition,
        c.default_learning == before.default_learning,
        c.default_adjust_enabled == before.default_adjust_enabled,
        c.backlight_device == before.backlight_device,
        c.poll_interval_ms == before.poll_interval_ms,
{
}

/// `d` is what of the range from `low` to `high` is nearest to `x`.
pub open spec fn nearest(d: Double, x: Double, low: Double, high: Double) -> bool {
    &&& x.less(low) ==> d == low
    &&& high.less(x) ==> d == high
    &&& low.at_most(x) && x.at_most(high) ==> d == x
}

/// Reference points of which two are different numbers from zero up are taken, and no others.
pub proof fn law_two_reference_points_are_enough(c: &DaemonConfig, before: &DaemonConfig, i: int, j: int)
    requires
        c.validated_from(before),
        !before.min_brightness_percent.is_nan(),
        0 <= i < before.lux_points@.len(),
        0 <= j < before.lux_points@.len(),
        Double::from_bits(ZERO).at_most(before.lux_points@[i]),
        before.lux_points@[i].less(before.lux_points@[j]),
    ensures
        kept(c.lux_points@, before.lux_points@[i]),
        kept(c.lux_points@, before.lux_points@[j]),
        forall|k: int| 0 <= k < c.lux_points@.len() ==> before.lux_points@.contains(#[trigger] c.lux_points@[k]),
{
    let points = before.lux_points@;
    let r = crate::config::distinct(points);
    law_reference_points(points);
    assert(kept(r, points[i]));
    assert(kept(r, points[j]));
    let a = choose|k: int| 0 <= k < r.len() && (#[trigger] r[k]).same(points[i]);
    let b = choose|k: int| 0 <= k < r.len() && (#[trigger] r[k]).same(points[j]);
    assert(a != b);
}

/// The default configuration is valid.
pub proof fn law_default_is_valid(c: &DaemonConfig)
    requires
        c.is_default(),
    ensures
        valid(c),
{
}

/// A start without a configuration file and one with a file that reads as the default configuration run
/// with the same settings, and the second leaves the file as it is.
pub proof fn law_default_comes_back(first: (DaemonConfig, bool), read: &DaemonConfig, second: (DaemonConfig, bool))
    requires
        first.0.is_default() && first.1,
        read.is_default(),
        second.0.validated_from(read) && !second.1,
    ensures
        same_settings(&second.0, &first.0),
        second.0.is_default(),
{
    law_default_is_valid(read);
    law_validation_is_idempotent(&second.0, read);
}

} // verus!
