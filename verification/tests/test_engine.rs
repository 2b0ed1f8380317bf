use kirialsd::als::{DaemonEvent, LuxSource};
use kirialsd::backlight::{BacklightDevice, Candidate};
use kirialsd::config::DaemonConfig;
use kirialsd::curve::ClightCurve;
use kirialsd::double::Double;
use kirialsd::engine::{
    ease, interpolate, is_beyond, status_line, status_percent, target_percent, Adjustment, Engine, EventOutcome, Frame,
    HoldChange, ReadingOutcome, FRAME, IDLE, MILLISECOND, STATE_SAVE_DELAY,
};

fn d(x: f64) -> Double {
    Double::from_bits(x.to_bits())
}

fn f(x: Double) -> f64 {
    f64::from_bits(x.to_bits())
}

const LUX: [f64; 8] = [0.0, 15.0, 35.0, 70.0, 100.0, 300.0, 600.0, 1000.0];
const LEVELS: [f64; 8] = [0.05, 0.08, 0.15, 0.25, 0.35, 0.55, 0.75, 1.00];
const START: u64 = 100_000_000_000;

fn ms(n: u64) -> u64 {
    START + n * MILLISECOND
}

fn curve() -> ClightCurve {
    let x: Vec<Double> = LUX.iter().map(|&v| d(v)).collect();
    let y: Vec<Double> = LEVELS.iter().map(|&v| d(v)).collect();
    assert!(ClightCurve::accepts(&x, &y, d(1000.0)));
    ClightCurve::new(&x, &y, d(1000.0), d(0.05))
}

/// A controller with 1000 steps, used from 20 to 1000.
fn device() -> BacklightDevice {
    let found = vec![Candidate {
        name: "intel_backlight".to_string(),
        path: "/sys/class/backlight/intel_backlight".to_string(),
        max_brightness: Some(1000),
        kind: "raw\n".to_string(),
    }];
    let dev = BacklightDevice::discover(&found, None, d(2.0), d(100.0)).unwrap();
    assert!(dev.has_range());
    dev
}

fn engine(lux: f64, hw: i64) -> Engine {
    Engine::new(DaemonConfig::default(), device(), curve(), Some(d(lux)), Some(hw), START)
}

/// An engine whose backlight shows the target for 100 lux.
fn settled() -> Engine {
    engine(100.0, 363)
}

fn light(lux: f64) -> DaemonEvent {
    DaemonEvent::LuxChanged { lux: d(lux), source: LuxSource::Signal }
}

fn sleep(going_to_sleep: bool, resume_lux: Option<f64>) -> DaemonEvent {
    DaemonEvent::PrepareForSleep { going_to_sleep, resume_lux: resume_lux.map(d) }
}

fn logs(e: &Engine) -> Vec<Double> {
    e.log_arguments().iter().map(|&x| d(f(x).ln())).collect()
}

fn read(e: &mut Engine, hw: i64, now: u64) -> ReadingOutcome {
    let l = logs(e);
    e.on_reading(hw, &l, now)
}

#[test]
fn a_start_moves_to_the_level_for_the_light() {
    let e = engine(100.0, 500);
    assert_eq!(f(e.current_target_br), 0.35);
    assert_eq!(e.anim_target_br, 363);
    assert!(e.is_animating && !e.is_suspended && !e.pending_save);
    assert_eq!(e.manual_delta_threshold, 20);
    assert_eq!(e.wait_timeout(START), 0);
    assert!(!settled().is_animating);
    assert_eq!(settled().wait_timeout(START), IDLE);
    // without a sensor and without a reading
    let e = Engine::new(DaemonConfig::default(), device(), curve(), None, None, START);
    assert_eq!(f(e.current_lux), 100.0);
    assert_eq!(e.current_hw_br, 1000);
}

#[test]
fn smoothstep_at_its_ends_and_in_the_middle() {
    assert_eq!(f(ease(d(0.0))), 0.0);
    assert_eq!(f(ease(d(1.0))), 1.0);
    assert_eq!(f(ease(d(0.5))), 0.5);
    assert_eq!(f(ease(d(0.25))), 0.15625);
    assert_eq!(interpolate(500, 363, d(0.0)), 500);
    assert_eq!(interpolate(500, 363, d(0.5)), 432);
    assert_eq!(interpolate(500, 363, d(1.0)), 363);
    assert_eq!(interpolate(i64::MIN, i64::MAX, d(0.0)), i64::MIN);
}

/// Runs a transition in steps of 5 ms, holds each frame against native arithmetic, and says when it
/// settled.
fn run(e: &mut Engine, total: f64) -> u64 {
    let (from, to) = (e.anim_start_br, e.anim_target_br);
    let mut shown = from;
    let mut last_frame = 0;
    for t in 0..3000 {
        let now = ms(t);
        match e.advance(now) {
            Frame::Idle => assert!(t < last_frame + 25),
            Frame::Due { next, write, progress, settled } => {
                let p = (t as f64 / total).clamp(0.0, 1.0);
                let eased = p * p * (3.0 - 2.0 * p);
                assert_eq!(f(progress), p);
                assert_eq!(next, (from as f64 + (to - from) as f64 * eased).round() as i64);
                assert!(next >= from.min(to) && next <= from.max(to));
                assert_eq!(write, next != shown);
                if write {
                    e.written(next);
                    shown = next;
                }
                last_frame = t;
                if settled {
                    assert_eq!(shown, to);
                    assert!(!e.is_animating);
                    assert_eq!(e.advance(ms(t + 50)), Frame::Idle);
                    return t;
                }
                assert_eq!(e.wait_timeout(now), FRAME);
            }
        }
    }
    panic!("the transition has not ended");
}

#[test]
fn adaptive_transitions_take_longer_for_greater_steps() {
    let mut e = engine(100.0, 500);
    let total = (200.0 + 1300.0 * (137.0_f64 / 980.0).sqrt()).round();
    assert_eq!(run(&mut e, total), total as u64);
    let mut e = engine(100.0, 383);
    let shorter = (200.0 + 1300.0 * (20.0_f64 / 980.0).sqrt()).round();
    assert!(shorter < total);
    assert_eq!(run(&mut e, shorter), shorter as u64);
    // the whole range takes the longest
    let mut e = engine(1000.0, 20);
    assert_eq!(run(&mut e, 1500.0), 1500);
}

#[test]
fn fixed_transitions_take_the_same_time() {
    for hw in [383, 1000] {
        let mut config = DaemonConfig::default();
        config.adaptive_transition = false;
        let mut e = Engine::new(config, device(), curve(), Some(d(100.0)), Some(hw), START);
        assert_eq!(run(&mut e, 1500.0), 1500);
    }
}

#[test]
fn light_beyond_the_band_is_held_before_it_counts() {
    let mut e = settled();
    assert_eq!(e.on_event(light(300.0), None, ms(0)), EventOutcome::Light { hold: HoldChange::Kept });
    assert_eq!(f(e.current_lux), 100.0);
    assert_eq!(e.on_event(light(300.0), None, ms(10)), EventOutcome::Light { hold: HoldChange::Started });
    assert_eq!(f(e.current_lux), 300.0);
    assert_eq!(e.on_event(light(300.0), None, ms(500)), EventOutcome::Light { hold: HoldChange::Kept });
    assert_eq!(e.check_hold(ms(1009)), None);
    assert_eq!(e.wait_timeout(ms(1009)), MILLISECOND);
    assert_eq!(e.check_hold(ms(1010)), Some(Adjustment { prev_hw: 363, next_hw: 559 }));
    assert_eq!(e.hold_timer, None);
    assert_eq!(f(e.active_target_lux), 300.0);
    assert_eq!(f(e.current_target_br), 0.55);
    // the backlight then sets out
    assert!(matches!(e.advance(ms(1010)), Frame::Due { next: 363, write: false, settled: false, .. }));
    assert_eq!((e.anim_start_br, e.anim_target_br), (363, 559));
}

#[test]
fn a_drift_starts_the_hold_anew_and_a_return_ends_it() {
    let mut e = settled();
    e.on_event(light(300.0), None, ms(0));
    e.on_event(light(300.0), None, ms(1));
    e.on_event(light(600.0), None, ms(800));
    assert_eq!(e.on_event(light(600.0), None, ms(900)), EventOutcome::Light { hold: HoldChange::Started });
    assert_eq!(f(e.hold_lux), 600.0);
    assert_eq!(e.check_hold(ms(1001)), None);
    e.on_event(light(101.0), None, ms(1100));
    assert_eq!(e.on_event(light(101.0), None, ms(1200)), EventOutcome::Light { hold: HoldChange::Cancelled });
    assert_eq!(e.check_hold(ms(5000)), None);
    assert_eq!(f(e.active_target_lux), 100.0);
}

#[test]
fn both_thresholds_of_the_band() {
    // 5 lux and 15 percent
    assert!(!is_beyond(d(14.0), d(10.0), d(5.0), d(0.15)));
    assert!(!is_beyond(d(15.0), d(10.0), d(5.0), d(0.15)));
    assert!(is_beyond(d(15.5), d(10.0), d(5.0), d(0.15)));
    assert!(!is_beyond(d(114.0), d(100.0), d(5.0), d(0.15)));
    assert!(is_beyond(d(115.0), d(100.0), d(5.0), d(0.15)));
    assert!(is_beyond(d(85.0), d(100.0), d(5.0), d(0.15)));
    // in the dark the ratio is that to one lux
    assert!(is_beyond(d(5.5), d(0.0), d(5.0), d(0.15)));
}

#[test]
fn manual_changes_stop_everything_and_teach_the_curve() {
    let mut e = engine(100.0, 500);
    e.on_event(light(300.0), None, ms(0));
    e.on_event(light(300.0), None, ms(1));
    assert!(e.is_animating && e.hold_timer.is_some());
    assert_eq!(read(&mut e, 519, ms(2)), ReadingOutcome::Expected);
    assert_eq!((e.current_hw_br, e.last_written_br), (519, 500));
    assert!(e.is_animating);
    assert_eq!(read(&mut e, 800, ms(3)), ReadingOutcome::Manual { calibrated: true, learned: true });
    assert!(!e.is_animating && e.hold_timer.is_none() && e.pending_save);
    assert_eq!((e.current_hw_br, e.last_written_br, e.anim_target_br), (800, 800, 800));
    assert_eq!(f(e.active_target_lux), 300.0);
    let fraction = (800.0 - 20.0) / 980.0;
    assert_eq!(f(e.current_target_br), fraction);
    // the curve says now what it was taught
    assert_eq!(f(e.curve.evaluate(d(300.0))), fraction);
    // and the choice stays
    assert_eq!(e.advance(ms(4)), Frame::Idle);
    // light within the next two seconds is taken in but starts nothing
    e.on_event(light(20.0), None, ms(1000));
    assert_eq!(e.on_event(light(20.0), None, ms(2002)), EventOutcome::Light { hold: HoldChange::Kept });
    assert_eq!(e.on_event(light(20.0), None, ms(2003)), EventOutcome::Light { hold: HoldChange::Started });
}

#[test]
fn small_manual_changes_are_respected_but_not_learned() {
    let mut e = settled();
    // 30 of 980 is less than five percent
    assert_eq!(read(&mut e, 393, ms(0)), ReadingOutcome::Manual { calibrated: false, learned: false });
    assert!(!e.pending_save);
    assert_eq!(f(e.curve.evaluate(d(100.0))), 0.35);
    assert_eq!(e.advance(ms(1)), Frame::Idle);
}

#[test]
fn learning_can_be_turned_off() {
    let mut e = settled();
    e.toggle_learning();
    assert_eq!(read(&mut e, 800, ms(0)), ReadingOutcome::Manual { calibrated: true, learned: false });
    assert!(!e.pending_save);
    assert_eq!(f(e.curve.evaluate(d(100.0))), 0.35);
    e.toggle_learning();
    assert_eq!(read(&mut e, 100, ms(1)), ReadingOutcome::Manual { calibrated: true, learned: true });
}

#[test]
fn adjustment_can_be_paused() {
    let mut e = settled();
    e.toggle_adjust();
    for i in 0..5 {
        assert_eq!(e.on_event(light(900.0), None, ms(i)), EventOutcome::Light { hold: HoldChange::Kept });
    }
    assert_eq!(f(e.current_lux), 900.0);
    assert_eq!(e.check_hold(ms(9000)), None);
    e.toggle_adjust();
    assert_eq!(e.on_event(light(900.0), None, ms(6)), EventOutcome::Light { hold: HoldChange::Started });
}

#[test]
fn a_lesson_is_saved_when_the_user_has_stopped() {
    let mut e = settled();
    read(&mut e, 800, ms(0));
    assert_eq!(e.wait_timeout(ms(1450)), 50 * MILLISECOND);
    assert!(!e.take_save(ms(1499)));
    assert!(e.pending_save);
    assert!(e.take_save(START + STATE_SAVE_DELAY));
    assert!(!e.pending_save);
    assert!(!e.take_save(ms(9000)));
}

#[test]
fn a_suspended_daemon_rests() {
    let mut e = settled();
    read(&mut e, 800, ms(0));
    e.on_event(light(10.0), None, ms(3000));
    e.on_event(light(10.0), None, ms(3001));
    assert!(e.hold_timer.is_some());
    assert_eq!(e.on_event(sleep(true, None), None, ms(3002)), EventOutcome::Suspended { save: true });
    assert!(e.is_suspended && !e.is_animating && !e.pending_save && e.hold_timer.is_none());
    assert_eq!(e.on_event(sleep(true, None), None, ms(3003)), EventOutcome::Suspended { save: false });
    assert_eq!(e.check_hold(ms(9000)), None);
    assert_eq!(read(&mut e, 20, ms(9000)), ReadingOutcome::Expected);
    assert_eq!(e.current_hw_br, 800);
    assert_eq!(e.advance(ms(9000)), Frame::Idle);
    assert_eq!(e.on_event(light(900.0), None, ms(9001)), EventOutcome::Light { hold: HoldChange::Kept });
}

#[test]
fn a_wake_recalibrates() {
    let mut e = settled();
    e.on_event(sleep(true, None), None, ms(0));
    assert_eq!(e.on_event(sleep(false, Some(300.0)), Some(1000), ms(5000)), EventOutcome::Resumed);
    assert!(!e.is_suspended && e.is_animating);
    assert_eq!(f(e.current_lux), 300.0);
    assert_eq!((e.current_hw_br, e.last_written_br), (1000, 1000));
    assert_eq!((e.anim_start_br, e.anim_target_br), (1000, 559));
    // a single spike is still rejected
    e.on_event(light(0.0), None, ms(8000));
    assert_eq!(f(e.current_lux), 300.0);
    // without a reading of the sensor or the backlight the last ones stay
    let mut e = settled();
    e.on_event(sleep(true, None), None, ms(0));
    e.on_event(sleep(false, None), None, ms(1));
    assert_eq!(f(e.current_lux), 100.0);
    assert_eq!(e.current_hw_br, 363);
    assert!(!e.is_animating);
}

#[test]
fn a_reload_takes_over_range_and_curve() {
    let mut e = settled();
    let mut config = DaemonConfig::default();
    config.min_brightness_percent = d(50.0);
    config.max_brightness_percent = d(80.0);
    let y: Vec<Double> = [0.01; 8].iter().map(|&v| d(v)).collect();
    let x: Vec<Double> = LUX.iter().map(|&v| d(v)).collect();
    assert!(e.has_range_for(&config));
    e.reload(config, ClightCurve::new(&x, &y, d(1000.0), d(0.05)), ms(100));
    assert_eq!(f(e.backlight.min_allowed_raw), 500.0);
    assert_eq!(f(e.backlight.max_allowed_raw), 800.0);
    assert_eq!(f(e.current_target_br), 0.01);
    assert_eq!((e.anim_start_br, e.anim_target_br), (363, 503));
    assert!(e.is_animating);
    assert_eq!(e.wait_timeout(ms(100)), 0);
    let mut dark = DaemonConfig::default();
    dark.min_brightness_percent = d(0.0);
    dark.max_brightness_percent = d(0.0);
    assert!(!e.has_range_for(&dark));
}

#[test]
fn what_goes_to_the_controller_is_allowed() {
    let e = settled();
    assert_eq!(e.output(5), 20);
    assert_eq!(e.output(500), 500);
    assert_eq!(e.output(5000), 1000);
    assert_eq!(e.output(-1), 1000);
    assert_eq!(e.output(1 << 32), 20);
}

#[test]
fn status_as_json() {
    assert_eq!(f(status_percent(107, d(496.0))), 22.0);
    assert_eq!(f(status_percent(107, d(0.0))), 0.0);
    assert_eq!(f(target_percent(&curve(), d(70.0))), 25.0);
    assert_eq!(
        status_line("intel_backlight", Some(("22.0", "11")), "22", "107", "496"),
        "{\"device\": \"intel_backlight\", \"lux\": 22.0, \"current_brightness_percent\": 22, \
         \"target_brightness_percent\": 11, \"hw_brightness\": 107, \"hw_max_brightness\": 496}"
    );
    assert_eq!(
        status_line("unknown", None, "0", "0", "0"),
        "{\"device\": \"unknown\", \"lux\": null, \"current_brightness_percent\": 0, \
         \"target_brightness_percent\": null, \"hw_brightness\": 0, \"hw_max_brightness\": 0}"
    );
}
