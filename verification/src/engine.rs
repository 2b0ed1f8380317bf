//! The daemon's decisions: when the light counts as changed, what a manual change means, and how the
//! backlight moves to its target.
//!
//! Times are nanoseconds of a clock that never runs back. What the engine decides on comes in as
//! arguments: the events of the sensor, the raw value that the backlight shows, and the time.

use vstd::prelude::*;
use crate::als::DaemonEvent;
use crate::backlight::{find_highest_raw, find_lowest_raw, BacklightDevice};
use crate::config::DaemonConfig;
use crate::curve::ClightCurve;
use crate::double::Double;
use crate::double::{HUNDRED, ONE, THREE, TWO, ZERO};
use crate::filter::MedianFilter3;

verus! {

/// Nanoseconds in a millisecond.
pub const MILLISECOND: u64 = 1_000_000;

/// How long after a manual change or a resume the light is ignored.
pub const USER_ADJUST_COOLDOWN: u64 = 2_000_000_000;

/// How long after the last manual change the curve is saved.
pub const STATE_SAVE_DELAY: u64 = 1_500_000_000;

/// The time between two frames of a transition.
pub const FRAME: u64 = 25_000_000;

/// How long the daemon waits for events where nothing is due.
pub const IDLE: u64 = 100_000_000;

/// How far back the last manual change is taken to be at the start.
pub const LONG_AGO: u64 = 10_000_000_000;

/// The part of the raw range, 0.02, by which the backlight has to differ from what was written for a
/// change to be taken as manual.
pub const MANUAL_DELTA_THRESHOLD_RATIO: u64 = 0x3f94_7ae1_47ae_147b;

/// The state of the daemon.
pub struct Engine {
    pub config: DaemonConfig,
    pub backlight: BacklightDevice,
    pub curve: ClightCurve,
    pub learning_enabled: bool,
    pub adjust_enabled: bool,
    /// The present light, filtered.
    pub current_lux: Double,
    /// The light that the present target was chosen for.
    pub active_target_lux: Double,
    /// The target on the curve.
    pub current_target_br: Double,
    pub is_suspended: bool,
    /// The raw value that the backlight shows.
    pub current_hw_br: i64,
    /// The raw value that was written last.
    pub last_written_br: i64,
    pub last_user_action: u64,
    /// Whether the curve has learned something that is not saved.
    pub pending_save: bool,
    pub anim_start_time: u64,
    pub anim_start_br: i64,
    pub anim_target_br: i64,
    pub is_animating: bool,
    pub last_anim_frame: u64,
    /// Since when the light has been beyond the hysteresis band.
    pub hold_timer: Option<u64>,
    /// The light at which `hold_timer` was set.
    pub hold_lux: Double,
    pub lux_filter: MedianFilter3,
    /// How far the backlight has to differ from what was written for a change to be manual.
    pub manual_delta_threshold: i64,
}

/// The time from `since` to `now`.
pub open spec fn elapsed(since: u64, now: u64) -> u64 {
    if now < since {
        0
    } else {
        (now - since) as u64
    }
}

fn find_elapsed(since: u64, now: u64) -> (r: u64)
    ensures
        r == elapsed(since, now),
{
    if now < since {
        0
    } else {
        now - since
    }
}

/// What is left of a period that began at `since`.
pub open spec fn remaining(period: int, since: u64, now: u64) -> int {
    if period < elapsed(since, now) {
        0
    } else {
        period - elapsed(since, now)
    }
}

/// The lesser of two.
pub open spec fn lesser(a: int, b: int) -> int {
    if a < b {
        a
    } else {
        b
    }
}

/// The light is beyond the hysteresis band round `center`: it differs by more than `abs`, and by the
/// fraction `ratio` at least.
pub open spec fn beyond(lux: Double, center: Double, abs: Double, ratio: Double) -> bool {
    let delta = lux.minus(center).absolute();
    abs.less(delta) && ratio.at_most(delta.over(center.greater_of(Double::from_bits(ONE))))
}

/// Whether the light is beyond the hysteresis band round `center`.
pub fn is_beyond(lux: Double, center: Double, abs: Double, ratio: Double) -> (r: bool)
    ensures
        r == beyond(lux, center, abs, ratio),
{
    let delta: Double = lux.minus(center).absolute();
    abs.less(delta) && ratio.at_most(delta.over(center.greater_of(Double::from_bits(ONE))))
}

/// The threshold for manual changes: a part of the raw range, but one at least.
pub open spec fn manual_threshold(hw_max: Double) -> i64 {
    let n = hw_max.times(Double::from_bits(MANUAL_DELTA_THRESHOLD_RATIO)).rounded().to_i64();
    if n < 1 {
        1
    } else {
        n
    }
}

/// The distance of two integers.
pub open spec fn distance(a: int, b: int) -> int {
    if a < b {
        b - a
    } else {
        a - b
    }
}

// ---------------------------------------------------------------------------
// Transitions
// ---------------------------------------------------------------------------

/// The duration of a transition in milliseconds. An adaptive one grows with the square root of the
/// step from its shortest to its longest duration.
pub open spec fn transition_ms(config: &DaemonConfig, span: Double, step: int) -> Double {
    let least = crate::config::at_least(config.min_transition_duration_ms, 50);
    if config.adaptive_transition {
        let part = Double::of_int(step).over(span).clamp(Double::from_bits(ZERO), Double::from_bits(ONE));
        let shortest = Double::of_int(least as int);
        let longest = Double::of_int(
            crate::config::at_least(config.transition_duration_ms, shortest.to_u64()) as int,
        );
        shortest.plus(longest.minus(shortest).times(part.square_root())).rounded()
    } else {
        Double::of_int(crate::config::at_least(config.transition_duration_ms, 50) as int)
    }
}

/// The part of a transition that is over after `nanoseconds`.
pub open spec fn progress(nanoseconds: u64, total_ms: Double) -> Double {
    Double::of_int(nanoseconds as int / MILLISECOND as int).over(total_ms).clamp(
        Double::from_bits(ZERO),
        Double::from_bits(ONE),
    )
}

/// The smoothstep `3t^2 - 2t^3`.
pub open spec fn smoothstep(t: Double) -> Double {
    t.times(t).times(Double::from_bits(THREE).minus(Double::from_bits(TWO).times(t)))
}

/// The smoothstep `3t^2 - 2t^3`.
pub fn ease(t: Double) -> (r: Double)
    ensures
        r == smoothstep(t),
{
    t.times(t).times(Double::from_bits(THREE).minus(Double::from_bits(TWO).times(t)))
}

/// The raw value on the way from `start` to `target` where the part `eased` of the way is done.
pub open spec fn on_the_way(start: i64, target: i64, eased: Double) -> i64 {
    Double::of_int(start as int).plus(Double::of_int(target - start).times(eased)).rounded().to_i64()
}

/// The raw value on the way from `start` to `target` where the part `eased` of the way is done.
pub fn interpolate(start: i64, target: i64, eased: Double) -> (r: i64)
    ensures
        r == on_the_way(start, target, eased),
{
    let step: i128 = target as i128 - start as i128;
    Double::from_i64(start).plus(Double::from_i128(step).times(eased)).rounded().to_i64()
}

/// What became of the hold timer.
#[derive(Debug, Clone, Copy, PartialEq, Eq, Structural)]
pub enum HoldChange {
    Kept,
    /// It starts to run, or starts anew after a drift of the light.
    Started,
    /// The light is back in the band.
    Cancelled,
}

/// What an event asks for.
#[derive(Debug, Clone, Copy, PartialEq, Eq, Structural)]
pub enum EventOutcome {
    /// The system goes to sleep. `save` says whether the curve is to be saved.
    Suspended { save: bool },
    Resumed,
    Light { hold: HoldChange },
}

/// What a reading of the backlight means.
#[derive(Debug, Clone, Copy, PartialEq, Eq, Structural)]
pub enum ReadingOutcome {
    /// It is what the daemon expects, or the daemon is suspended.
    Expected,
    /// The user has changed it. `calibrated` says whether it deviates from the curve by the shutter
    /// threshold, `learned` whether the curve has learned it.
    Manual { calibrated: bool, learned: bool },
}

/// A frame of a transition.
#[derive(Debug, Clone, Copy, PartialEq, Eq, Structural)]
pub enum Frame {
    /// No frame is due.
    Idle,
    /// The backlight goes to `next`; `write` says whether that is a change. `settled` marks the last
    /// frame.
    Due { next: i64, write: bool, progress: Double, settled: bool },
}

/// A new target for the light: the raw values of the old target and of the new one.
#[derive(Debug, Clone, Copy, PartialEq, Eq, Structural)]
pub struct Adjustment {
    pub prev_hw: i64,
    pub next_hw: i64,
}

impl Engine {
    /// The curve can be evaluated and taught, and the allowed range of raw values is not empty.
    pub open spec fn well_formed(&self) -> bool {
        &&& self.curve.well_formed()
        &&& crate::lesson::all_in_range(crate::curve::levels(self.curve.points@))
        &&& self.backlight.min_allowed_raw.at_most(self.backlight.max_allowed_raw)
        &&& self.backlight.min_allowed_raw.to_i64() <= self.backlight.max_allowed_raw.to_i64()
    }

    /// The level of the curve for a light.
    pub open spec fn level_at(&self, lux: Double) -> Double {
        crate::curve::level(
            self.curve.points@,
            self.curve.slopes@,
            crate::curve::normalized(lux, self.curve.max_lux),
        )
    }

    /// This is a daemon at its start, given the first light and what the backlight shows, as far as they are
    /// known.
    pub open spec fn started_from(&self, initial_lux: Option<Double>, hw: Option<i64>, now: u64) -> bool {
        &&& self.current_lux == (match initial_lux {
            Some(lux) => lux,
            None => Double::from_bits(HUNDRED),
        })
        &&& self.active_target_lux == self.current_lux
        &&& self.current_target_br == self.level_at(self.current_lux)
        &&& !self.is_suspended
        &&& self.current_hw_br == (match hw {
            Some(hw) => hw,
            None => self.backlight.hw_max_brightness.to_i64(),
        })
        &&& self.last_written_br == self.current_hw_br
        &&& self.last_user_action == now - LONG_AGO
        &&& !self.pending_save
        &&& self.anim_start_time == now
        &&& self.anim_start_br == self.current_hw_br
        &&& self.anim_target_br == self.backlight.raw_for(self.current_target_br)
        &&& self.is_animating == (self.current_hw_br != self.anim_target_br)
        &&& self.last_anim_frame == now - FRAME
        &&& self.hold_timer is None
        &&& self.hold_lux == self.current_lux
        &&& self.lux_filter.buf@ == seq![self.current_lux, self.current_lux, self.current_lux]
        &&& self.manual_delta_threshold == manual_threshold(self.backlight.hw_max_brightness)
        &&& self.learning_enabled == self.config.default_learning
        &&& self.adjust_enabled == self.config.default_adjust_enabled
    }

    /// A daemon at its start. `initial_lux` is the first reading of the sensor, 100 lux where there
    /// is none; `hw` is what the backlight shows, its maximum where that is unknown.
    pub fn new(
        config: DaemonConfig,
        backlight: BacklightDevice,
        curve: ClightCurve,
        initial_lux: Option<Double>,
        hw: Option<i64>,
        now: u64,
    ) -> (r: Self)
        requires
            now >= LONG_AGO,
            curve.well_formed(),
            crate::lesson::all_in_range(crate::curve::levels(curve.points@)),
            backlight.min_allowed_raw.at_most(backlight.max_allowed_raw),
            backlight.min_allowed_raw.to_i64() <= backlight.max_allowed_raw.to_i64(),
        ensures
            r.well_formed(),
            r.config == config,
            r.backlight == backlight,
            r.curve == curve,
            r.learning_enabled == config.default_learning,
            r.adjust_enabled == config.default_adjust_enabled,
            r.current_lux == (match initial_lux {
                Some(lux) => lux,
                None => Double::from_bits(HUNDRED),
            }),
            r.active_target_lux == r.current_lux,
            r.current_target_br == r.level_at(r.current_lux),
            !r.is_suspended,
            r.current_hw_br == (match hw {
                Some(hw) => hw,
                None => backlight.hw_max_brightness.to_i64(),
            }),
            r.last_written_br == r.current_hw_br,
            r.last_user_action == now - LONG_AGO,
            !r.pending_save,
            r.anim_start_time == now,
            r.anim_start_br == r.current_hw_br,
            r.anim_target_br == backlight.raw_for(r.current_target_br),
            r.is_animating == (r.current_hw_br != r.anim_target_br),
            r.last_anim_frame == now - FRAME,
            r.hold_timer is None,
            r.hold_lux == r.current_lux,
            r.lux_filter.buf@ == seq![r.current_lux, r.current_lux, r.current_lux],
            r.manual_delta_threshold == manual_threshold(backlight.hw_max_brightness),
            r.started_from(initial_lux, hw, now),
    {
        let current_lux: Double = match initial_lux {
            Some(lux) => lux,
            None => Double::from_bits(HUNDRED),
        };
        let current_target_br: Double = curve.evaluate(current_lux);
        let current_hw_br: i64 = match hw {
            Some(hw) => hw,
            None => backlight.hw_max_brightness.to_i64(),
        };
        let anim_target_br: i64 = backlight.curve_to_hw(current_target_br);
        let threshold: i64 = backlight.hw_max_brightness.times(
            Double::from_bits(MANUAL_DELTA_THRESHOLD_RATIO),
        ).rounded().to_i64();
        Engine {
            learning_enabled: config.default_learning,
            adjust_enabled: config.default_adjust_enabled,
            config,
            backlight,
            curve,
            current_lux,
            active_target_lux: current_lux,
            current_target_br,
            is_suspended: false,
            current_hw_br,
            last_written_br: current_hw_br,
            last_user_action: now - LONG_AGO,
            pending_save: false,
            anim_start_time: now,
            anim_start_br: current_hw_br,
            anim_target_br,
            is_animating: current_hw_br != anim_target_br,
            last_anim_frame: now - FRAME,
            hold_timer: None,
            hold_lux: current_lux,
            lux_filter: MedianFilter3::new(current_lux),
            manual_delta_threshold: if threshold < 1 {
                1
            } else {
                threshold
            },
        }
    }

    /// Turns learning on or off.
    pub fn toggle_learning(&mut self)
        ensures
            *final(self) == (Engine { learning_enabled: !old(self).learning_enabled, ..*old(self) }),
    {
        self.learning_enabled = !self.learning_enabled;
    }

    /// Turns automatic adjustment on or off.
    pub fn toggle_adjust(&mut self)
        ensures
            *final(self) == (Engine { adjust_enabled: !old(self).adjust_enabled, ..*old(self) }),
    {
        self.adjust_enabled = !self.adjust_enabled;
    }

    /// Whether the percentages of a configuration leave the backlight a range.
    pub fn has_range_for(&self, config: &DaemonConfig) -> (r: bool)
        ensures
            r == ({
                let low = crate::backlight::lowest_raw(
                    self.backlight.hw_max_brightness,
                    config.min_brightness_percent,
                );
                let high = crate::backlight::highest_raw(
                    self.backlight.hw_max_brightness,
                    config.max_brightness_percent,
                );
                low.at_most(high) && low.to_i64() <= high.to_i64()
            }),
    {
        let low: Double = find_lowest_raw(self.backlight.hw_max_brightness, config.min_brightness_percent);
        let high: Double = find_highest_raw(self.backlight.hw_max_brightness, config.max_brightness_percent);
        low.at_most(high) && low.to_i64() <= high.to_i64()
    }

    /// This is what `before` is after it went over to another configuration and curve: it has its own range and
    /// target for the present light, and starts to move there.
    pub open spec fn reloaded_from(&self, before: &Engine, now: u64) -> bool {
        &&& self.backlight == (BacklightDevice {
            min_allowed_raw: crate::backlight::lowest_raw(
                before.backlight.hw_max_brightness,
                self.config.min_brightness_percent,
            ),
            max_allowed_raw: crate::backlight::highest_raw(
                before.backlight.hw_max_brightness,
                self.config.max_brightness_percent,
            ),
            ..before.backlight
        })
        &&& *self == (Engine {
            config: self.config,
            backlight: self.backlight,
            curve: self.curve,
            current_target_br: self.level_at(before.current_lux),
            anim_start_time: now,
            anim_start_br: before.current_hw_br,
            anim_target_br: self.backlight.raw_for(self.current_target_br),
            is_animating: before.current_hw_br != self.anim_target_br,
            last_anim_frame: (now - FRAME) as u64,
            ..*before
        })
    }

    /// Goes over to another configuration and curve: the range of the backlight and the target are
    /// computed anew, and the backlight starts to move there.
    pub fn reload(&mut self, config: DaemonConfig, curve: ClightCurve, now: u64)
        requires
            now >= FRAME,
            curve.well_formed(),
            crate::lesson::all_in_range(crate::curve::levels(curve.points@)),
            ({
                let low = crate::backlight::lowest_raw(
                    old(self).backlight.hw_max_brightness,
                    config.min_brightness_percent,
                );
                let high = crate::backlight::highest_raw(
                    old(self).backlight.hw_max_brightness,
                    config.max_brightness_percent,
                );
                low.at_most(high) && low.to_i64() <= high.to_i64()
            }),
        ensures
            final(self).well_formed(),
            *final(self) == (Engine {
                config,
                backlight: final(self).backlight,
                curve,
                current_target_br: final(self).level_at(old(self).current_lux),
                anim_start_time: now,
                anim_start_br: old(self).current_hw_br,
                anim_target_br: final(self).backlight.raw_for(final(self).current_target_br),
                is_animating: old(self).current_hw_br != final(self).anim_target_br,
                last_anim_frame: (now - FRAME) as u64,
                ..*old(self)
            }),
            final(self).backlight == (BacklightDevice {
                min_allowed_raw: crate::backlight::lowest_raw(
                    old(self).backlight.hw_max_brightness,
                    config.min_brightness_percent,
                ),
                max_allowed_raw: crate::backlight::highest_raw(
                    old(self).backlight.hw_max_brightness,
                    config.max_brightness_percent,
                ),
                ..old(self).backlight
            }),
            final(self).reloaded_from(old(self), now),
    {
        self.backlight.set_range(config.min_brightness_percent, config.max_brightness_percent);
        self.config = config;
        self.curve = curve;
        self.current_target_br = self.curve.evaluate(self.current_lux);
        self.anim_target_br = self.backlight.curve_to_hw(self.current_target_br);
        self.anim_start_time = now;
        self.anim_start_br = self.current_hw_br;
        self.is_animating = self.current_hw_br != self.anim_target_br;
        self.last_anim_frame = now - FRAME;
    }

    /// How long the daemon may wait for events, in nanoseconds: until the next frame, the end of the
    /// hold or the time to save, whichever comes first.
    pub open spec fn patience(&self, now: u64) -> int {
        let frame = if self.is_animating {
            remaining(FRAME as int, self.last_anim_frame, now)
        } else {
            IDLE as int
        };
        let hold = match self.hold_timer {
            Some(start) => lesser(
                frame,
                remaining(self.config.auto_adjust_delay_ms * MILLISECOND, start, now),
            ),
            None => frame,
        };
        if self.pending_save {
            lesser(hold, remaining(STATE_SAVE_DELAY as int, self.last_user_action, now))
        } else {
            hold
        }
    }

    /// How long the daemon may wait for events, in nanoseconds.
    pub fn wait_timeout(&self, now: u64) -> (r: u64)
        ensures
            r == self.patience(now),
    {
        let mut wait: u64 = if self.is_animating {
            FRAME.saturating_sub(find_elapsed(self.last_anim_frame, now))
        } else {
            IDLE
        };
        if let Some(start) = self.hold_timer {
            let hold: u128 = self.config.auto_adjust_delay_ms as u128 * MILLISECOND as u128;
            let left: u128 = hold.saturating_sub(find_elapsed(start, now) as u128);
            if left < wait as u128 {
                wait = left as u64;
            }
        }
        if self.pending_save {
            let left: u64 = STATE_SAVE_DELAY.saturating_sub(find_elapsed(self.last_user_action, now));
            if left < wait {
                wait = left;
            }
        }
        wait
    }

    /// The engine asleep.
    pub open spec fn suspended(&self) -> Engine {
        Engine { is_suspended: true, pending_save: false, is_animating: false, hold_timer: None, ..*self }
    }

    /// Goes to sleep: stops to adjust, and says whether the curve is to be saved first.
    pub fn suspend(&mut self) -> (save: bool)
        ensures
            save == old(self).pending_save,
            *final(self) == old(self).suspended(),
    {
        let save: bool = self.pending_save;
        self.is_suspended = true;
        self.pending_save = false;
        self.is_animating = false;
        self.hold_timer = None;
        save
    }

    /// The light after a resume: the fresh one, where the sensor gave one.
    pub open spec fn resumed_lux(&self, resume_lux: Option<Double>) -> Double {
        match resume_lux {
            Some(lux) => lux,
            None => self.current_lux,
        }
    }

    /// The raw value after a resume: what the backlight shows, where that is known.
    pub open spec fn resumed_hw(&self, hw: Option<i64>) -> i64 {
        match hw {
            Some(hw) => hw,
            None => self.current_hw_br,
        }
    }

    /// This is what `before` is after a resume: it takes the light and the backlight as they are
    /// now, and starts to move to the level for that light.
    pub open spec fn resumed_from(
        &self,
        before: &Engine,
        resume_lux: Option<Double>,
        hw: Option<i64>,
        now: u64,
    ) -> bool {
        &&& *self == (Engine {
            is_suspended: false,
            last_user_action: now,
            current_hw_br: before.resumed_hw(hw),
            last_written_br: match hw {
                Some(hw) => hw,
                None => before.last_written_br,
            },
            lux_filter: self.lux_filter,
            current_lux: before.resumed_lux(resume_lux),
            active_target_lux: before.resumed_lux(resume_lux),
            current_target_br: before.level_at(before.resumed_lux(resume_lux)),
            anim_start_time: now,
            anim_start_br: before.resumed_hw(hw),
            anim_target_br: before.backlight.raw_for(self.current_target_br),
            is_animating: self.current_hw_br != self.anim_target_br,
            hold_timer: None,
            ..*before
        })
        &&& match resume_lux {
            Some(lux) => self.lux_filter.buf@ == seq![lux, lux, lux],
            None => self.lux_filter == before.lux_filter,
        }
    }

    /// Wakes up.
    pub fn resume(&mut self, resume_lux: Option<Double>, hw: Option<i64>, now: u64)
        requires
            old(self).well_formed(),
        ensures
            final(self).resumed_from(old(self), resume_lux, hw, now),
            final(self).well_formed(),
    {
        self.is_suspended = false;
        self.last_user_action = now;
        if let Some(hw) = hw {
            self.current_hw_br = hw;
            self.last_written_br = hw;
        }
        if let Some(lux) = resume_lux {
            self.lux_filter.reset(lux);
            self.current_lux = lux;
        }
        self.active_target_lux = self.current_lux;
        self.current_target_br = self.curve.evaluate(self.current_lux);
        self.anim_start_time = now;
        self.anim_start_br = self.current_hw_br;
        self.anim_target_br = self.backlight.curve_to_hw(self.current_target_br);
        self.is_animating = self.current_hw_br != self.anim_target_br;
        self.hold_timer = None;
    }

    /// Whether the light may start or end a hold: the daemon is awake, adjusts, and the last manual
    /// change is long enough ago.
    pub open spec fn watches(&self, now: u64) -> bool {
        &&& !self.is_suspended
        &&& self.adjust_enabled
        &&& elapsed(self.last_user_action, now) >= USER_ADJUST_COOLDOWN
    }

    /// The light `lux` is beyond the band round the active target.
    pub open spec fn leaves_band(&self, lux: Double) -> bool {
        beyond(lux, self.active_target_lux, self.config.lux_hysteresis_abs, self.config.lux_hysteresis_ratio)
    }

    /// The light `lux` is beyond the band round the light that the hold began with.
    pub open spec fn drifts(&self, lux: Double) -> bool {
        beyond(lux, self.hold_lux, self.config.lux_hysteresis_abs, self.config.lux_hysteresis_ratio)
    }

    /// What the filtered light `lux` does to the hold timer.
    pub open spec fn hold_change(&self, lux: Double, now: u64) -> HoldChange {
        if !self.watches(now) {
            HoldChange::Kept
        } else if self.leaves_band(lux) {
            if self.hold_timer is None || self.drifts(lux) {
                HoldChange::Started
            } else {
                HoldChange::Kept
            }
        } else if self.hold_timer is Some {
            HoldChange::Cancelled
        } else {
            HoldChange::Kept
        }
    }

    /// This is what `before` is after a reading of the sensor: the filter has taken it in, and the
    /// hold timer has started or stopped.
    pub open spec fn lit_from(&self, before: &Engine, lux: Double, now: u64) -> bool {
        let change = before.hold_change(self.current_lux, now);
        &&& self.lux_filter.buf@ == seq![before.lux_filter.buf@[1], before.lux_filter.buf@[2], lux]
        &&& self.current_lux == crate::filter::median(before.lux_filter.buf@[1], before.lux_filter.buf@[2], lux)
        &&& *self == (Engine {
            lux_filter: self.lux_filter,
            current_lux: self.current_lux,
            hold_timer: match change {
                HoldChange::Kept => before.hold_timer,
                HoldChange::Started => Some(now),
                HoldChange::Cancelled => None,
            },
            hold_lux: if change == HoldChange::Started {
                self.current_lux
            } else {
                before.hold_lux
            },
            ..*before
        })
    }

    /// Takes a reading of the sensor in.
    pub fn on_lux(&mut self, lux: Double, now: u64) -> (r: HoldChange)
        ensures
            final(self).lit_from(old(self), lux, now),
            r == old(self).hold_change(final(self).current_lux, now),
    {
        let current_lux: Double = self.lux_filter.update(lux);
        self.current_lux = current_lux;
        let abs: Double = self.config.lux_hysteresis_abs;
        let ratio: Double = self.config.lux_hysteresis_ratio;
        if self.is_suspended || !self.adjust_enabled || find_elapsed(self.last_user_action, now)
            < USER_ADJUST_COOLDOWN {
            return HoldChange::Kept;
        }
        if is_beyond(current_lux, self.active_target_lux, abs, ratio) {
            let starts: bool = match self.hold_timer {
                None => true,
                Some(_) => is_beyond(current_lux, self.hold_lux, abs, ratio),
            };
            if starts {
                self.hold_timer = Some(now);
                self.hold_lux = current_lux;
                HoldChange::Started
            } else {
                HoldChange::Kept
            }
        } else if self.hold_timer.is_some() {
            self.hold_timer = None;
            HoldChange::Cancelled
        } else {
            HoldChange::Kept
        }
    }

    /// Takes an event in. `hw` is what the backlight shows, where that is known; only a resume asks
    /// for it.
    pub fn on_event(&mut self, event: DaemonEvent, hw: Option<i64>, now: u64) -> (r: EventOutcome)
        requires
            old(self).well_formed(),
        ensures
            final(self).well_formed(),
            match event {
                DaemonEvent::PrepareForSleep { going_to_sleep: true, resume_lux: _ } => {
                    &&& r == EventOutcome::Suspended { save: old(self).pending_save }
                    &&& *final(self) == old(self).suspended()
                },
                DaemonEvent::PrepareForSleep { going_to_sleep: false, resume_lux } => {
                    &&& r == EventOutcome::Resumed
                    &&& final(self).resumed_from(old(self), resume_lux, hw, now)
                },
                DaemonEvent::LuxChanged { lux, source: _ } => {
                    &&& r == EventOutcome::Light { hold: old(self).hold_change(final(self).current_lux, now) }
                    &&& final(self).lit_from(old(self), lux, now)
                },
            },
    {
        match event {
            DaemonEvent::PrepareForSleep { going_to_sleep, resume_lux } => {
                if going_to_sleep {
                    let save: bool = self.suspend();
                    EventOutcome::Suspended { save }
                } else {
                    self.resume(resume_lux, hw, now);
                    EventOutcome::Resumed
                }
            },
            DaemonEvent::LuxChanged { lux, source: _ } => {
                let hold: HoldChange = self.on_lux(lux, now);
                EventOutcome::Light { hold }
            },
        }
    }

    /// The hold is over: the daemon is awake and the light has been beyond the band for the delay.
    pub open spec fn hold_is_over(&self, now: u64) -> bool {
        &&& !self.is_suspended
        &&& self.hold_timer matches Some(start) && elapsed(start, now) >= self.config.auto_adjust_delay_ms
            * MILLISECOND
    }

    /// The engine with the level for the present light as its target.
    pub open spec fn adjusted(&self) -> Engine {
        Engine {
            active_target_lux: self.current_lux,
            current_target_br: self.level_at(self.current_lux),
            hold_timer: None,
            ..*self
        }
    }

    /// Goes over to the level for the present light, where the hold is over.
    pub fn check_hold(&mut self, now: u64) -> (r: Option<Adjustment>)
        requires
            old(self).well_formed(),
        ensures
            r is Some <==> old(self).hold_is_over(now),
            r matches Some(a) ==> a == (Adjustment {
                prev_hw: old(self).backlight.raw_for(old(self).current_target_br),
                next_hw: old(self).backlight.raw_for(final(self).current_target_br),
            }),
            r is Some ==> *final(self) == (Engine {
                active_target_lux: old(self).current_lux,
                current_target_br: old(self).level_at(old(self).current_lux),
                hold_timer: None,
                ..*old(self)
            }),
            r is None ==> *final(self) == *old(self),
            r is Some ==> *final(self) == old(self).adjusted(),
    {
        if self.is_suspended {
            return None;
        }
        match self.hold_timer {
            Some(start) => {
                let delay: u128 = self.config.auto_adjust_delay_ms as u128 * MILLISECOND as u128;
                if (find_elapsed(start, now) as u128) < delay {
                    return None;
                }
                let next: Double = self.curve.evaluate(self.current_lux);
                let a: Adjustment = Adjustment {
                    prev_hw: self.backlight.curve_to_hw(self.current_target_br),
                    next_hw: self.backlight.curve_to_hw(next),
                };
                self.active_target_lux = self.current_lux;
                self.current_target_br = next;
                self.hold_timer = None;
                Some(a)
            },
            None => None,
        }
    }

    /// The raw value `hw` is the user's: it differs from the one that was written last by the
    /// threshold at least.
    pub open spec fn is_users(&self, hw: i64) -> bool {
        distance(hw as int, self.last_written_br as int) >= self.manual_delta_threshold
    }

    /// Whether the raw value `hw` is the user's.
    pub fn is_manual(&self, hw: i64) -> (r: bool)
        ensures
            r == self.is_users(hw),
    {
        let a: i128 = hw as i128;
        let b: i128 = self.last_written_br as i128;
        let d: i128 = if a < b {
            b - a
        } else {
            a - b
        };
        d >= self.manual_delta_threshold as i128
    }

    /// The raw value `hw` deviates from the curve by the shutter threshold at least.
    pub open spec fn calibrates(&self, hw: i64) -> bool {
        self.config.shutter_threshold.at_most(
            self.backlight.fraction_of(hw).minus(self.level_at(self.current_lux)).absolute(),
        )
    }

    /// The raw value `hw` teaches the curve.
    pub open spec fn teaches(&self, hw: i64) -> bool {
        &&& self.calibrates(hw)
        &&& self.learning_enabled
        &&& self.curve.learns_from(self.current_lux, self.backlight.fraction_of(hw))
    }

    /// What the natural logarithm is to be computed of before `on_reading`.
    pub fn log_arguments(&self) -> (r: Vec<Double>)
        requires
            self.curve.points@.len() < usize::MAX,
        ensures
            r@ == crate::curve::log_inputs(self.curve.points@, self.curve.max_lux, self.current_lux),
    {
        self.curve.log_arguments(self.current_lux)
    }

    /// This is what `before` is after the user has set the raw value `hw`, the curve and the filter apart:
    /// everything that was under way has stopped, and the value is the target for the present light.
    pub open spec fn overridden_from(&self, before: &Engine, hw: i64, now: u64) -> bool {
        &&& *self == (Engine {
            is_animating: false,
            hold_timer: None,
            last_written_br: hw,
            current_hw_br: hw,
            anim_start_br: hw,
            anim_target_br: hw,
            last_user_action: now,
            lux_filter: self.lux_filter,
            curve: self.curve,
            pending_save: before.pending_save || before.teaches(hw),
            current_target_br: before.backlight.fraction_of(hw),
            active_target_lux: before.current_lux,
            ..*before
        })
        &&& self.lux_filter.buf@ == seq![before.current_lux, before.current_lux, before.current_lux]
        &&& !before.teaches(hw) ==> self.curve == before.curve
    }

    /// Takes the raw value in that the backlight shows. Where it is the user's, everything that is
    /// under way stops, the value becomes the target for the present light, and the curve learns it.
    /// `logs` holds the natural logarithms of what `log_arguments` returns.
    pub fn on_reading(&mut self, hw: i64, logs: &Vec<Double>, now: u64) -> (r: ReadingOutcome)
        requires
            old(self).well_formed(),
            logs@.len() == old(self).curve.points@.len() + 1,
        ensures
            final(self).well_formed(),
            r == (if old(self).is_suspended || !old(self).is_users(hw) {
                ReadingOutcome::Expected
            } else {
                ReadingOutcome::Manual { calibrated: old(self).calibrates(hw), learned: old(self).teaches(hw) }
            }),
            old(self).is_suspended ==> *final(self) == *old(self),
            !old(self).is_suspended && r == ReadingOutcome::Expected ==> *final(self) == (Engine {
                current_hw_br: hw,
                ..*old(self)
            }),
            r is Manual ==> *final(self) == (Engine {
                is_animating: false,
                hold_timer: None,
                last_written_br: hw,
                current_hw_br: hw,
                anim_start_br: hw,
                anim_target_br: hw,
                last_user_action: now,
                lux_filter: final(self).lux_filter,
                curve: final(self).curve,
                pending_save: old(self).pending_save || old(self).teaches(hw),
                current_target_br: old(self).backlight.fraction_of(hw),
                active_target_lux: old(self).current_lux,
                ..*old(self)
            }),
            r is Manual ==> final(self).lux_filter.buf@ == seq![
                old(self).current_lux,
                old(self).current_lux,
                old(self).current_lux,
            ],
            r is Manual && !old(self).teaches(hw) ==> final(self).curve == old(self).curve,
            r is Manual && old(self).teaches(hw) ==> {
                &&& final(self).curve.points@ == old(self).curve.lesson(
                    old(self).current_lux,
                    old(self).backlight.fraction_of(hw),
                    logs@,
                )
                &&& final(self).curve.slopes@ == crate::curve::tangents(final(self).curve.points@)
                &&& final(self).curve.max_lux == old(self).curve.max_lux
                &&& final(self).curve.shutter_threshold == old(self).curve.shutter_threshold
            },
            r is Manual ==> final(self).overridden_from(old(self), hw, now),
    {
        if self.is_suspended {
            return ReadingOutcome::Expected;
        }
        if !self.is_manual(hw) {
            self.current_hw_br = hw;
            return ReadingOutcome::Expected;
        }
        self.is_animating = false;
        self.hold_timer = None;
        self.last_written_br = hw;
        self.current_hw_br = hw;
        self.anim_start_br = hw;
        self.anim_target_br = hw;
        self.last_user_action = now;
        self.lux_filter.reset(self.current_lux);
        let fraction: Double = self.backlight.hw_to_curve(hw);
        let level: Double = self.curve.evaluate(self.current_lux);
        let mut calibrated: bool = false;
        let mut learned: bool = false;
        if self.config.shutter_threshold.at_most(fraction.minus(level).absolute()) {
            calibrated = true;
            if self.learning_enabled {
                learned = self.curve.on_user_brightness_change(self.current_lux, fraction, logs);
                if learned {
                    self.pending_save = true;
                }
            }
        }
        self.current_target_br = fraction;
        self.active_target_lux = self.current_lux;
        ReadingOutcome::Manual { calibrated, learned }
    }

    /// The curve is to be saved: it has learned something, and the user has stopped to adjust.
    pub open spec fn save_is_due(&self, now: u64) -> bool {
        self.pending_save && elapsed(self.last_user_action, now) >= STATE_SAVE_DELAY
    }

    /// Says whether the curve is to be saved now.
    pub fn take_save(&mut self, now: u64) -> (r: bool)
        ensures
            r == old(self).save_is_due(now),
            *final(self) == (Engine { pending_save: old(self).pending_save && !r, ..*old(self) }),
    {
        if self.pending_save && find_elapsed(self.last_user_action, now) >= STATE_SAVE_DELAY {
            self.pending_save = false;
            true
        } else {
            false
        }
    }

    /// The engine on its way to the raw value of its target: a transition starts where the target is
    /// another one than that of the transition under way.
    pub open spec fn headed(&self, now: u64) -> Engine {
        let target = self.backlight.raw_for(self.current_target_br);
        if !self.is_suspended && target != self.anim_target_br {
            Engine {
                anim_start_time: now,
                anim_start_br: self.current_hw_br,
                anim_target_br: target,
                is_animating: true,
                ..*self
            }
        } else {
            *self
        }
    }

    /// The part of the transition that is over.
    pub open spec fn transition_progress(&self, now: u64) -> Double {
        progress(
            elapsed(self.anim_start_time, now),
            transition_ms(
                &self.config,
                crate::backlight::span(self.backlight.min_allowed_raw, self.backlight.max_allowed_raw),
                distance(self.anim_target_br as int, self.anim_start_br as int),
            ),
        )
    }

    /// A frame is due: the last one is long enough ago, or the transition is over.
    pub open spec fn frame_is_due(&self, now: u64) -> bool {
        &&& !self.is_suspended
        &&& self.is_animating
        &&& elapsed(self.last_anim_frame, now) >= FRAME || Double::from_bits(ONE).at_most(
            self.transition_progress(now),
        )
    }

    /// The raw value of the next frame.
    pub open spec fn next_value(&self, now: u64) -> i64 {
        on_the_way(self.anim_start_br, self.anim_target_br, smoothstep(self.transition_progress(now)))
    }

    /// The engine after a step of its transition, and the frame of the step.
    pub open spec fn moved_on(&self, now: u64) -> (Engine, Frame) {
        let e = self.headed(now);
        let done = Double::from_bits(ONE).at_most(e.transition_progress(now));
        if e.frame_is_due(now) {
            (
                Engine { last_anim_frame: now, is_animating: !done, ..e },
                Frame::Due {
                    next: e.next_value(now),
                    write: e.next_value(now) != e.current_hw_br,
                    progress: e.transition_progress(now),
                    settled: done,
                },
            )
        } else {
            (e, Frame::Idle)
        }
    }

    /// Moves the transition on: says which raw value the backlight goes to, where a frame is due.
    pub fn advance(&mut self, now: u64) -> (r: Frame)
        requires
            old(self).well_formed(),
        ensures
            ({
                let e = old(self).headed(now);
                if e.frame_is_due(now) {
                    let done = Double::from_bits(ONE).at_most(e.transition_progress(now));
                    &&& r == Frame::Due {
                        next: e.next_value(now),
                        write: e.next_value(now) != e.current_hw_br,
                        progress: e.transition_progress(now),
                        settled: done,
                    }
                    &&& *final(self) == (Engine { last_anim_frame: now, is_animating: !done, ..e })
                } else {
                    &&& r == Frame::Idle
                    &&& *final(self) == e
                }
            }),
            (*final(self), r) == old(self).moved_on(now),
    {
        if self.is_suspended {
            return Frame::Idle;
        }
        let target: i64 = self.backlight.curve_to_hw(self.current_target_br);
        if target != self.anim_target_br {
            self.anim_start_time = now;
            self.anim_start_br = self.current_hw_br;
            self.anim_target_br = target;
            self.is_animating = true;
        }
        if !self.is_animating {
            return Frame::Idle;
        }
        let total: Double = self.find_transition_ms();
        let milliseconds: u64 = find_elapsed(self.anim_start_time, now) / MILLISECOND;
        let zero: Double = Double::from_bits(ZERO);
        let one: Double = Double::from_bits(ONE);
        let progress: Double = Double::from_u64(milliseconds).over(total).clamp(zero, one);
        let settled: bool = one.at_most(progress);
        if find_elapsed(self.last_anim_frame, now) < FRAME && !settled {
            return Frame::Idle;
        }
        self.last_anim_frame = now;
        let next: i64 = interpolate(self.anim_start_br, self.anim_target_br, ease(progress));
        if settled {
            self.is_animating = false;
        }
        Frame::Due { next, write: next != self.current_hw_br, progress, settled }
    }

    fn find_transition_ms(&self) -> (r: Double)
        ensures
            r == transition_ms(
                &self.config,
                crate::backlight::span(self.backlight.min_allowed_raw, self.backlight.max_allowed_raw),
                distance(self.anim_target_br as int, self.anim_start_br as int),
            ),
    {
        let one: Double = Double::from_bits(ONE);
        if self.config.adaptive_transition {
            let span: Double = self.backlight.max_allowed_raw.minus(self.backlight.min_allowed_raw).greater_of(one);
            let a: i128 = self.anim_target_br as i128;
            let b: i128 = self.anim_start_br as i128;
            let step: i128 = if a < b {
                b - a
            } else {
                a - b
            };
            let part: Double = Double::from_i128(step).over(span).clamp(Double::from_bits(ZERO), one);
            let shortest: Double = Double::from_u64(
                if self.config.min_transition_duration_ms < 50 {
                    50
                } else {
                    self.config.min_transition_duration_ms
                },
            );
            let least: u64 = shortest.to_u64();
            let longest: Double = Double::from_u64(
                if self.config.transition_duration_ms < least {
                    least
                } else {
                    self.config.transition_duration_ms
                },
            );
            shortest.plus(longest.minus(shortest).times(part.square_root())).rounded()
        } else if self.config.transition_duration_ms < 50 {
            Double::from_u64(50)
        } else {
            Double::from_u64(self.config.transition_duration_ms)
        }
    }

    /// The raw value that goes to the controller for the frame value `next`.
    pub fn output(&self, next: i64) -> (r: u32)
        requires
            self.well_formed(),
        ensures
            r == Double::of_int(next as u32 as int).clamp(
                self.backlight.min_allowed_raw,
                self.backlight.max_allowed_raw,
            ).rounded().to_u32(),
            r == self.backlight.written_for(next as u32),
    {
        self.backlight.set_brightness(#[verifier::truncate] (next as u32))
    }

    /// The backlight has gone to `next`.
    pub fn written(&mut self, next: i64)
        ensures
            *final(self) == (Engine { last_written_br: next, current_hw_br: next, ..*old(self) }),
    {
        self.last_written_br = next;
        self.current_hw_br = next;
    }
}

// ---------------------------------------------------------------------------
// Status
// ---------------------------------------------------------------------------

/// The brightness in percent of the raw range, rounded.
pub open spec fn current_percent(hw: i64, hw_max: Double) -> Double {
    if Double::from_bits(ZERO).less(hw_max) {
        Double::of_int(hw as int).over(hw_max).times(Double::from_bits(HUNDRED)).rounded()
    } else {
        Double::from_bits(ZERO)
    }
}

/// The brightness in percent of the raw range, rounded.
pub fn status_percent(hw: i64, hw_max: Double) -> (r: Double)
    ensures
        r == current_percent(hw, hw_max),
{
    if Double::from_bits(ZERO).less(hw_max) {
        Double::from_i64(hw).over(hw_max).times(Double::from_bits(HUNDRED)).rounded()
    } else {
        Double::from_bits(ZERO)
    }
}

/// A level in percent, rounded.
pub open spec fn percent_of_level(level: Double) -> Double {
    level.times(Double::from_bits(HUNDRED)).rounded()
}

/// The level of a curve in percent, rounded.
pub fn target_percent(curve: &ClightCurve, lux: Double) -> (r: Double)
    requires
        curve.well_formed(),
    ensures
        r == crate::curve::level(
            curve.points@,
            curve.slopes@,
            crate::curve::normalized(lux, curve.max_lux),
        ).times(Double::from_bits(HUNDRED)).rounded(),
        r == percent_of_level(
            crate::curve::level(curve.points@, curve.slopes@, crate::curve::normalized(lux, curve.max_lux)),
        ),
{
    curve.evaluate(lux).times(Double::from_bits(HUNDRED)).rounded()
}

/// The status as a JSON object. The light and the target are `null` where the sensor gave no light.
pub open spec fn status_text(
    device: Seq<char>,
    lux: Option<(Seq<char>, Seq<char>)>,
    current: Seq<char>,
    hw: Seq<char>,
    hw_max: Seq<char>,
) -> Seq<char> {
    let (lux, target) = match lux {
        Some((lux, target)) => (lux, target),
        None => ("null"@, "null"@),
    };
    "{\"device\": \""@ + device + "\", \"lux\": "@ + lux + ", \"current_brightness_percent\": "@ + current
        + ", \"target_brightness_percent\": "@ + target + ", \"hw_brightness\": "@ + hw
        + ", \"hw_max_brightness\": "@ + hw_max + "}"@
}

/// The status as a JSON object. `lux` holds the texts of the light and of the target in percent,
/// where the sensor gave a light.
pub fn status_line(
    device: &str,
    lux: Option<(&str, &str)>,
    current: &str,
    hw: &str,
    hw_max: &str,
) -> (r: String)
    ensures
        r@ == status_text(
            device@,
            match lux {
                Some((lux, target)) => Some((lux@, target@)),
                None => None,
            },
            current@,
            hw@,
            hw_max@,
        ),
{
    let (lux, target): (&str, &str) = match lux {
        Some((lux, target)) => (lux, target),
        None => ("null", "null"),
    };
    let mut r: String = "{\"device\": \"".to_owned();
    r.append(device);
    r.append("\", \"lux\": ");
    r.append(lux);
    r.append(", \"current_brightness_percent\": ");
    r.append(current);
    r.append(", \"target_brightness_percent\": ");
    r.append(target);
    r.append(", \"hw_brightness\": ");
    r.append(hw);
    r.append(", \"hw_max_brightness\": ");
    r.append(hw_max);
    r.append("}");
    r
}

} // verus!
