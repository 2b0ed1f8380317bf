//! What holds of the daemon from one event to the next.

use vstd::prelude::*;
use crate::config::DaemonConfig;
use crate::curve::Point;
use crate::double::Double;
use crate::double::{HUNDRED, ONE, ZERO};
use crate::engine::{Engine, Frame, HoldChange};

verus! {

// ---------------------------------------------------------------------------
// The start and changes of the configuration
// ---------------------------------------------------------------------------

/// A new daemon watches the light at once, does not take what the backlight shows for the user's, has nothing to
/// save, and where the backlight is not at the level for the light, its first frame is due at once.
pub proof fn law_new_daemon_is_ready(e: &Engine, lux: Option<Double>, hw: Option<i64>, now: u64)
    requires
        e.started_from(lux, hw, now),
        now >= 10_000_000_000,
    ensures
        e.adjust_enabled ==> e.watches(now),
        !e.is_suspended,
        lux matches Some(l) ==> e.current_lux == l,
        lux is None ==> crate::measure::value(e.current_lux) == 100 as real,
        hw matches Some(h) ==> e.current_hw_br == h,
        !e.save_is_due(now),
        e.headed(now) == *e,
        e.frame_is_due(now) <==> e.current_hw_br != e.backlight.raw_for(e.level_at(e.current_lux)),
        e.hold_timer is None,
        !e.is_users(e.current_hw_br) || e.manual_delta_threshold <= 0,
        e.learning_enabled == e.config.default_learning,
        e.adjust_enabled == e.config.default_adjust_enabled,
{
    crate::measure::lemma_constants();
}

/// A new configuration takes effect at once: the backlight has its range, its target is the level of the new curve
/// for the present light, and the transition there starts at what it shows; what the user did and the light stay.
pub proof fn law_reload_takes_effect_at_once(before: &Engine, after: &Engine, now: u64)
    requires
        after.reloaded_from(before, now),
        now >= 25_000_000,
    ensures
        after.backlight.hw_max_brightness == before.backlight.hw_max_brightness,
        after.backlight.min_allowed_raw == crate::backlight::lowest_raw(
            before.backlight.hw_max_brightness,
            after.config.min_brightness_percent,
        ),
        after.backlight.max_allowed_raw == crate::backlight::highest_raw(
            before.backlight.hw_max_brightness,
            after.config.max_brightness_percent,
        ),
        after.current_target_br == after.level_at(before.current_lux),
        after.anim_target_br == after.backlight.raw_for(after.current_target_br),
        after.anim_start_br == before.current_hw_br,
        after.anim_start_time == now,
        after.is_animating <==> before.current_hw_br != after.anim_target_br,
        after.headed(now) == *after,
        !before.is_suspended ==> (after.frame_is_due(now) <==> after.is_animating),
        after.current_lux == before.current_lux,
        after.current_hw_br == before.current_hw_br,
        after.last_written_br == before.last_written_br,
        after.last_user_action == before.last_user_action,
        after.pending_save == before.pending_save,
        after.hold_timer == before.hold_timer,
        after.hold_lux == before.hold_lux,
        after.active_target_lux == before.active_target_lux,
        after.is_suspended == before.is_suspended,
        after.learning_enabled == before.learning_enabled,
        after.adjust_enabled == before.adjust_enabled,
        after.lux_filter == before.lux_filter,
        after.manual_delta_threshold == before.manual_delta_threshold,
{
}

// ---------------------------------------------------------------------------
// Light
// ---------------------------------------------------------------------------

/// A reading changes the light and the hold, and nothing else.
pub proof fn law_light_changes_only_the_hold(before: &Engine, after: &Engine, lux: Double, now: u64)
    requires
        after.lit_from(before, lux, now),
    ensures
        after.config == before.config,
        after.backlight == before.backlight,
        after.curve == before.curve,
        after.learning_enabled == before.learning_enabled,
        after.adjust_enabled == before.adjust_enabled,
        after.active_target_lux == before.active_target_lux,
        after.current_target_br == before.current_target_br,
        after.is_suspended == before.is_suspended,
        after.current_hw_br == before.current_hw_br,
        after.last_written_br == before.last_written_br,
        after.last_user_action == before.last_user_action,
        after.pending_save == before.pending_save,
        after.anim_start_time == before.anim_start_time,
        after.anim_start_br == before.anim_start_br,
        after.anim_target_br == before.anim_target_br,
        after.is_animating == before.is_animating,
        after.last_anim_frame == before.last_anim_frame,
        after.manual_delta_threshold == before.manual_delta_threshold,
{
}

/// A hold that a reading starts runs from then on and remembers the light; one that it ends is gone.
pub proof fn law_readings_start_and_end_holds(before: &Engine, after: &Engine, lux: Double, now: u64, later: u64)
    requires
        after.lit_from(before, lux, now),
        !before.is_suspended,
        now <= later,
    ensures
        before.hold_change(after.current_lux, now) == HoldChange::Started ==> {
            &&& after.hold_timer == Some(now)
            &&& after.hold_lux == after.current_lux
            &&& after.hold_is_over(later) <==> later - now >= after.config.auto_adjust_delay_ms * 1_000_000
        },
        before.hold_change(after.current_lux, now) == HoldChange::Cancelled ==> after.hold_timer is None,
        before.hold_change(after.current_lux, now) == HoldChange::Kept ==> after.hold_timer == before.hold_timer
            && after.hold_lux == before.hold_lux,
{
}

/// The same light read twice is the present light; a single other one does not count, and is forgotten.
pub proof fn law_light_counts_at_its_second_reading(
    a: &Engine,
    b: &Engine,
    c: &Engine,
    lux: Double,
    other: Double,
    now: u64,
    later: u64,
)
    requires
        !lux.is_nan(),
        !other.is_nan(),
        !a.lux_filter.buf@[2].is_nan(),
        b.lit_from(a, lux, now),
        c.lit_from(b, other, later),
    ensures
        other.same(lux) ==> c.current_lux.same(lux),
        a.lux_filter.buf@[2].same(lux) ==> b.current_lux.same(lux) || a.lux_filter.buf@[1].is_nan(),
        a.lux_filter.buf@[2].same(lux) ==> c.current_lux.same(lux),
        a.lux_filter.buf@[2].same(other) ==> c.current_lux.same(other),
{
}

/// Once the hold is over the target is the level for the present light, and that light is the one that later ones
/// are compared with: it starts no new hold.
pub proof fn law_adjustment_settles_the_light(e: &Engine, now: u64)
    requires
        e.current_lux.finite(),
        Double::from_bits(ZERO).at_most(e.config.lux_hysteresis_abs),
    ensures
        e.adjusted().active_target_lux == e.current_lux,
        e.adjusted().current_target_br == e.level_at(e.current_lux),
        e.adjusted().hold_timer is None,
        e.adjusted().hold_change(e.current_lux, now) == HoldChange::Kept,
        e.adjusted().curve == e.curve,
        e.adjusted().config == e.config,
        e.adjusted().backlight == e.backlight,
        e.adjusted().current_lux == e.current_lux,
        e.adjusted().lux_filter == e.lux_filter,
        e.adjusted().current_hw_br == e.current_hw_br,
        e.adjusted().last_written_br == e.last_written_br,
        e.adjusted().last_user_action == e.last_user_action,
        e.adjusted().pending_save == e.pending_save,
        e.adjusted().anim_target_br == e.anim_target_br,
        e.adjusted().is_animating == e.is_animating,
        !e.is_suspended ==> e.adjusted().headed(now).anim_target_br == e.backlight.raw_for(e.level_at(e.current_lux)),
{
    let d = e.current_lux.minus(e.current_lux).absolute();
    crate::curve_laws::lemma_distance(e.current_lux, e.current_lux);
    assert(d.zero());
    crate::measure::lemma_constants();
}

// ---------------------------------------------------------------------------
// The user
// ---------------------------------------------------------------------------

/// What the user sets is what the daemon goes by from then on: nothing is under way, the value is not the user's a
/// second time, the light is ignored for two seconds, and then one like the present one starts no hold.
pub proof fn law_users_value_is_taken(before: &Engine, after: &Engine, hw: i64, now: u64, later: u64, lux: Double)
    requires
        after.overridden_from(before, hw, now),
        now <= later,
    ensures
        !after.is_animating,
        after.hold_timer is None,
        after.current_hw_br == hw,
        after.last_written_br == hw,
        after.anim_target_br == hw,
        after.current_target_br == before.backlight.fraction_of(hw),
        after.last_user_action == now,
        after.active_target_lux == before.current_lux,
        after.current_lux == before.current_lux,
        !after.is_users(hw) || before.manual_delta_threshold <= 0,
        later - now < 2_000_000_000 ==> after.hold_change(lux, later) == HoldChange::Kept,
        before.teaches(hw) ==> after.pending_save,
        !before.teaches(hw) ==> after.pending_save == before.pending_save && after.curve == before.curve,
        after.pending_save ==> (after.save_is_due(later) <==> later - now >= 1_500_000_000),
        after.config == before.config,
        after.backlight == before.backlight,
        after.learning_enabled == before.learning_enabled,
        after.adjust_enabled == before.adjust_enabled,
        after.is_suspended == before.is_suspended,
        after.manual_delta_threshold == before.manual_delta_threshold,
{
}

/// A raw value calibrates where its level is off the curve by the shutter threshold or more, but for rounding, and
/// else does not.
pub proof fn law_deviations_calibrate(e: &Engine, low: int, high: int, hw: i64)
    requires
        crate::backlight_laws::ranges(&e.backlight, low, high),
        low < high,
        -0x1000_0000_0000 <= hw <= 0x1000_0000_0000,
        e.config.shutter_threshold.finite(),
        crate::lesson_laws::proper_level(e.level_at(e.current_lux)),
    ensures
        ({
            let off = crate::measure::abs(
                crate::measure::value(e.backlight.fraction_of(hw)) - crate::measure::value(e.level_at(e.current_lux)),
            );
            let least = crate::measure::value(e.config.shutter_threshold);
            let ep = crate::measure::epsilon();
            &&& off >= least + 2 as real * ep ==> e.calibrates(hw)
            &&& off <= least - 2 as real * ep ==> !e.calibrates(hw)
        }),
{
    let ep = crate::measure::epsilon();
    let f = e.backlight.fraction_of(hw);
    let y = e.level_at(e.current_lux);
    crate::scale_laws::law_level_is_proportional(&e.backlight, low, high, hw);
    crate::lesson_laws::lemma_proper(y);
    crate::measure::lemma_small();
    crate::measure::lemma_minus(f, y);
    let x = crate::measure::value(f) - crate::measure::value(y);
    crate::measure::lemma_part_of_error(ep, x, 1 as real);
    let d = f.minus(y);
    crate::measure::lemma_absolute(d);
    crate::measure::lemma_value_order(e.config.shutter_threshold, d.absolute());
}

/// A raw value teaches the curve exactly where it calibrates, learning is on, and the curve learns from its level.
pub proof fn law_learning_can_be_turned_off(e: &Engine, hw: i64)
    ensures
        !e.learning_enabled ==> !e.teaches(hw),
        !e.calibrates(hw) ==> !e.teaches(hw),
        e.learning_enabled && e.calibrates(hw) ==> (e.teaches(hw) <==> e.curve.learns_from(
            e.current_lux,
            e.backlight.fraction_of(hw),
        )),
{
}

// ---------------------------------------------------------------------------
// Transitions
// ---------------------------------------------------------------------------

/// A step of a transition that is due gives a frame, which is written where it changes the backlight. The last one
/// is the target's and ends the transition; another one leaves it running, and the next one comes 25 milliseconds
/// later at the soonest, unless it is the last.
pub proof fn law_transition_goes_step_by_step(e: &Engine, now: u64, later: u64)
    requires
        !e.is_suspended,
        crate::engine_laws::exact_motion(&e.headed(now)),
        e.headed(now).frame_is_due(now),
        now <= later,
    ensures
        ({
            let (after, frame) = e.moved_on(now);
            &&& frame matches Frame::Due { next, write, progress, settled } && {
                &&& write <==> next != e.current_hw_br
                &&& next == e.headed(now).next_value(now)
                &&& settled <==> Double::from_bits(ONE).at_most(progress)
                &&& progress == e.headed(now).transition_progress(now)
                &&& settled <==> !after.is_animating
                &&& settled ==> next == e.backlight.raw_for(e.current_target_br)
            }
            &&& after.last_anim_frame == now
            &&& after.anim_target_br == e.backlight.raw_for(e.current_target_br)
            &&& after.current_hw_br == e.current_hw_br
            &&& after.last_written_br == e.last_written_br
            &&& after.current_target_br == e.current_target_br
            &&& after.curve == e.curve
            &&& later - now < 25_000_000 && after.frame_is_due(later) ==> Double::from_bits(ONE).at_most(
                after.transition_progress(later),
            )
        }),
{
    let h = e.headed(now);
    crate::engine_laws::law_transition_leads_to_its_target(&h, now);
}

/// Once the last frame is written nothing moves any more, until there is another target.
pub proof fn law_settled_daemon_rests(e: &Engine, now: u64, later: u64)
    requires
        !e.is_suspended,
        e.headed(now).frame_is_due(now),
        Double::from_bits(ONE).at_most(e.headed(now).transition_progress(now)),
    ensures
        ({
            let (after, frame) = e.moved_on(now);
            let written = Engine { last_written_br: frame->next, current_hw_br: frame->next, ..after };
            written.moved_on(later) == (written, Frame::Idle)
        }),
{
}

/// A suspended daemon moves nothing, nor does one that is at its target.
pub proof fn law_nothing_moves_without_a_target(e: &Engine, now: u64)
    requires
        e.is_suspended || (!e.is_animating && e.backlight.raw_for(e.current_target_br) == e.anim_target_br),
    ensures
        e.moved_on(now) == (*e, Frame::Idle),
{
}

// ---------------------------------------------------------------------------
// Sleep
// ---------------------------------------------------------------------------

/// A sleep leaves the light, the target, the curve and the backlight as they are.
pub proof fn law_sleep_leaves_the_rest(e: &Engine)
    ensures
        e.suspended().config == e.config,
        e.suspended().backlight == e.backlight,
        e.suspended().curve == e.curve,
        e.suspended().learning_enabled == e.learning_enabled,
        e.suspended().adjust_enabled == e.adjust_enabled,
        e.suspended().current_lux == e.current_lux,
        e.suspended().active_target_lux == e.active_target_lux,
        e.suspended().current_target_br == e.current_target_br,
        e.suspended().current_hw_br == e.current_hw_br,
        e.suspended().last_written_br == e.last_written_br,
        e.suspended().last_user_action == e.last_user_action,
        e.suspended().lux_filter == e.lux_filter,
        e.suspended().manual_delta_threshold == e.manual_delta_threshold,
{
}

/// A wake leaves the settings, the curve and the backlight as they are. The filter holds the fresh light alone, or
/// stays as it was where there is none.
pub proof fn law_wake_leaves_the_rest(
    before: &Engine,
    after: &Engine,
    resume_lux: Option<Double>,
    hw: Option<i64>,
    now: u64,
)
    requires
        after.resumed_from(before, resume_lux, hw, now),
    ensures
        !after.is_suspended,
        after.hold_timer is None,
        after.last_user_action == now,
        after.config == before.config,
        after.backlight == before.backlight,
        after.curve == before.curve,
        after.learning_enabled == before.learning_enabled,
        after.adjust_enabled == before.adjust_enabled,
        after.pending_save == before.pending_save,
        after.manual_delta_threshold == before.manual_delta_threshold,
        hw is None ==> after.current_hw_br == before.current_hw_br && after.last_written_br == before.last_written_br,
        resume_lux is None ==> after.lux_filter == before.lux_filter,
        resume_lux matches Some(lux) ==> after.lux_filter.buf@ == seq![lux, lux, lux],
        after.current_target_br == before.level_at(after.current_lux),
        after.active_target_lux == after.current_lux,
{
}

// ---------------------------------------------------------------------------
// Numbers that are handed out
// ---------------------------------------------------------------------------

/// The target in the status is the nearest whole percentage.
pub proof fn law_target_percent_is_the_level(level: Double)
    requires
        crate::lesson_laws::proper_level(level),
    ensures
        crate::measure::abs(
            crate::measure::value(crate::engine::percent_of_level(level)) - 100 as real * crate::measure::value(level),
        ) <= 1 as real / 2 as real + 1 as real / 1024 as real,
{
    let hundred = Double::from_bits(HUNDRED);
    let v = crate::measure::value(level);
    crate::measure::lemma_constants();
    crate::measure::lemma_small();
    crate::lesson_laws::lemma_proper(level);
    crate::algebra::lemma_swap(v, 100 as real);
    crate::measure::lemma_times(level, hundred);
    crate::measure::lemma_part_of_error(crate::measure::epsilon(), v * 100 as real, 100 as real);
    let w = crate::measure::lemma_rounded(level.times(hundred));
}

/// The light of a point is its part of the range, in whole lux.
pub proof fn law_lights_of_points_are_whole(points: Seq<Point>, max_lux: Double, i: int)
    requires
        0 <= i < points.len(),
        crate::curve_laws::in_unit(points[i].x),
        max_lux.finite(),
        0 as real <= crate::measure::value(max_lux) <= 0x1_0000_0000 as real,
    ensures
        crate::curve::whole_lights(points, max_lux).len() == points.len(),
        crate::measure::abs(
            crate::measure::value(crate::curve::whole_lights(points, max_lux)[i]) - crate::measure::value(points[i].x)
                * crate::measure::value(max_lux),
        ) <= 1 as real / 2 as real + 1 as real / 1024 as real,
{
    let zero = Double::from_bits(ZERO);
    let one = Double::from_bits(ONE);
    let x = points[i].x;
    crate::measure::lemma_constants();
    crate::measure::lemma_small();
    crate::measure::lemma_value_order(zero, x);
    crate::measure::lemma_value_order(x, one);
    let v = crate::measure::value(x);
    let m = crate::measure::value(max_lux);
    crate::algebra::lemma_product_bound(v, m, 1 as real, 0x1_0000_0000 as real);
    crate::measure::lemma_times(x, max_lux);
    crate::measure::lemma_part_of_error(crate::measure::epsilon(), v * m, 0x1_0000_0000 as real);
    let w = crate::measure::lemma_rounded(x.times(max_lux));
}

/// What logarithms are taken of before a lesson is one more than the lights: than the present one, zero at least,
/// and then than that of each point.
pub proof fn law_logarithms_are_of_the_lights(points: Seq<Point>, max_lux: Double, lux: Double, i: int)
    requires
        0 <= i < points.len(),
        crate::curve_laws::in_unit(points[i].x),
        max_lux.finite(),
        0 as real <= crate::measure::value(max_lux) <= 0x1_0000_0000 as real,
        lux.finite(),
        crate::measure::value(lux) <= 0x1_0000_0000 as real,
    ensures
        ({
            let a = crate::curve::log_inputs(points, max_lux, lux);
            let l = if crate::measure::value(lux) < 0 as real {
                0 as real
            } else {
                crate::measure::value(lux)
            };
            let p = crate::measure::value(points[i].x) * crate::measure::value(max_lux);
            &&& a.len() == points.len() + 1
            &&& crate::measure::abs(crate::measure::value(a[0]) - (1 as real + l)) <= 1 as real / 0x1_0000 as real
            &&& crate::measure::abs(crate::measure::value(a[i + 1]) - (1 as real + p)) <= 1 as real / 0x1_0000 as real
        }),
{
    let zero = Double::from_bits(ZERO);
    let one = Double::from_bits(ONE);
    let e = crate::measure::epsilon();
    let x = points[i].x;
    let top = 0x1_0000_0000 as real;
    crate::measure::lemma_constants();
    crate::measure::lemma_small();
    crate::measure::lemma_value_order(lux, zero);
    crate::measure::lemma_value_order(zero, lux);
    let g = lux.greater_of(zero);
    crate::measure::lemma_plus(one, g);
    crate::measure::lemma_part_of_error(e, 1 as real + crate::measure::value(g), 2 as real * top);
    crate::measure::lemma_value_order(zero, x);
    crate::measure::lemma_value_order(x, one);
    let v = crate::measure::value(x);
    let m = crate::measure::value(max_lux);
    crate::algebra::lemma_product_bound(v, m, 1 as real, top);
    crate::measure::lemma_times(x, max_lux);
    crate::measure::lemma_part_of_error(e, v * m, top);
    let t = x.times(max_lux);
    crate::measure::lemma_plus(one, t);
    crate::measure::lemma_part_of_error(e, 1 as real + crate::measure::value(t), 2 as real * top);
}

/// What exponentials are taken of for older levels is spread evenly from zero to the logarithm of one more than the
/// range.
pub proof fn law_exponents_are_even(count: nat, log_max: Double, i: int)
    requires
        2 <= count <= 0x1_0000_0000,
        0 <= i < count,
        log_max.finite(),
        0 as real <= crate::measure::value(log_max) <= 0x400 as real,
    ensures
        crate::state::exponents(count, log_max).len() == count,
        crate::measure::abs(
            crate::measure::value(crate::state::exponents(count, log_max)[i]) - crate::measure::value(
                crate::state::place(i, count),
            ) * crate::measure::value(log_max),
        ) <= 1 as real / 0x1_0000_0000 as real,
{
    crate::measure::lemma_small();
    crate::stored_laws::law_places_are_even(i, count);
    let p = crate::state::place(i, count);
    let v = crate::measure::value(p);
    let m = crate::measure::value(log_max);
    crate::algebra::lemma_product_bound(v, m, 1 as real, 0x400 as real);
    crate::measure::lemma_times(p, log_max);
    crate::measure::lemma_part_of_error(crate::measure::epsilon(), v * m, 0x400 as real);
}

/// The logarithm for older levels is taken of one more than the last reference point.
pub proof fn law_older_levels_reach_to_the_last_point(lux_points: Seq<Double>)
    requires
        lux_points.len() > 0,
        lux_points.last().finite(),
        0 as real <= crate::measure::value(lux_points.last()) <= 0x1_0000_0000 as real,
    ensures
        crate::measure::abs(
            crate::measure::value(crate::state::log_argument(lux_points)) - (1 as real + crate::measure::value(
                lux_points.last(),
            )),
        ) <= 1 as real / 0x1_0000 as real,
{
    let x = crate::measure::value(lux_points.last());
    crate::measure::lemma_constants();
    crate::measure::lemma_small();
    crate::measure::lemma_plus(Double::from_bits(ONE), lux_points.last());
    crate::measure::lemma_part_of_error(crate::measure::epsilon(), 1 as real + x, 0x2_0000_0000 as real);
}

/// A configured range is taken, else the last reference point, else 1000 lux.
pub proof fn law_range_is_configured(c: &DaemonConfig)
    ensures
        c.max_lux matches Some(m) ==> c.furthest_light() == m,
        c.max_lux is None && c.lux_points@.len() > 0 ==> c.furthest_light() == c.lux_points@[c.lux_points@.len() - 1],
        c.max_lux is None && c.lux_points@.len() == 0 ==> crate::measure::value(c.furthest_light()) == 1000 as real,
{
    crate::measure::lemma_constants();
}

} // verus!
