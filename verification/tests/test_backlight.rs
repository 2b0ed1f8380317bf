use kirialsd::backlight::{
    find_highest_raw, find_lowest_raw, find_priority, read_sysfs_buffer, BacklightDevice, Candidate, Sending,
};
use kirialsd::double::Double;
use kirialsd::engine::{ease, interpolate, status_percent};

fn d(x: f64) -> Double {
    Double::from_bits(x.to_bits())
}

fn f(x: Double) -> f64 {
    f64::from_bits(x.to_bits())
}

fn device(hw_max: f64, low: f64, high: f64) -> BacklightDevice {
    BacklightDevice {
        name: "test_dev".to_string(),
        path: "/dev/null".to_string(),
        hw_max_brightness: d(hw_max),
        min_allowed_raw: d(low),
        max_allowed_raw: d(high),
    }
}

#[test]
fn test_smoothstep_lerp() {
    let smoothstep = |t: f64| -> f64 { f(ease(d(t).clamp(d(0.0), d(1.0)))) };

    assert!((smoothstep(0.0) - 0.0).abs() < 1e-6);
    assert!((smoothstep(0.5) - 0.5).abs() < 1e-6);
    assert!((smoothstep(1.0) - 1.0).abs() < 1e-6);

    // S-curve acceleration and deceleration
    assert!(smoothstep(0.25) < 0.25);
    assert!(smoothstep(0.75) > 0.75);
}

#[test]
fn test_brightness_clamping_limits() {
    let hw_max: f64 = 1000.0;
    let min_percent: f64 = 2.0;
    let max_percent: f64 = 80.0; // User capped max brightness to 80%

    let min_raw = find_lowest_raw(d(hw_max), d(min_percent));
    let max_raw = find_highest_raw(d(hw_max), d(max_percent));

    assert_eq!(f(min_raw), 20.0);
    assert_eq!(f(max_raw), 800.0);

    // The user fraction is calculated against true hw_max
    let actual_hw_br: f64 = 800.0;
    let user_fraction = d(actual_hw_br).over(d(hw_max)).clamp(d(0.01), d(1.0));
    assert_eq!(f(user_fraction), 0.80); // Correct 80%, not 100%

    // Target calculation clamped to [min_raw, max_raw]
    let target_br = 0.95; // Curve requests 95%
    let target_raw = d(target_br).times(d(hw_max)).rounded().to_i64().clamp(min_raw.to_i64(), max_raw.to_i64());
    assert_eq!(target_raw, 800); // Clamped cleanly to max_raw
}

#[test]
fn test_backlight_curve_conversions() {
    let dev = device(500.0, 10.0, 500.0);

    // Test 0.0 -> min_allowed_raw
    assert_eq!(dev.curve_to_hw(d(0.0)), 10);
    // Test 1.0 -> max_allowed_raw
    assert_eq!(dev.curve_to_hw(d(1.0)), 500);
    // Test inverse mapping
    assert!((f(dev.hw_to_curve(10)) - 0.0).abs() < 1e-6);
    assert!((f(dev.hw_to_curve(500)) - 1.0).abs() < 1e-6);
    assert!((f(dev.hw_to_curve(255)) - 0.5).abs() < 0.01);

    // Percentage
    assert_eq!(f(dev.hw_to_percent(250)) as i64, 50);
}

#[test]
fn every_raw_value_is_that_of_its_own_level() {
    for (low, high) in [(1.0, 1.0), (1.0, 2.0), (10.0, 500.0), (3.0, 96000.0), (1.0, 4294967295.0)] {
        let dev = device(high, low, high);
        assert!(dev.has_range());
        let step = (((high - low) / 1000.0) as i64).max(1);
        let mut hw = low as i64;
        while hw <= high as i64 {
            assert_eq!(dev.curve_to_hw(dev.hw_to_curve(hw)), hw);
            hw += step;
        }
    }
}

#[test]
fn raw_values_follow_the_level_and_stay_in_range() {
    let dev = device(255.0, 5.0, 204.0);
    let mut prev = 5;
    for i in -20..=220 {
        let raw = dev.curve_to_hw(d(i as f64 / 200.0));
        assert!(raw >= prev && raw <= 204);
        prev = raw;
    }
    assert_eq!(prev, 204);
    assert_eq!(dev.curve_to_hw(d(f64::NAN)), 5);
}

#[test]
fn what_is_written_is_held_to_the_range() {
    let dev = device(255.0, 5.0, 204.0);
    assert_eq!(dev.set_brightness(0), 5);
    assert_eq!(dev.set_brightness(5), 5);
    assert_eq!(dev.set_brightness(77), 77);
    assert_eq!(dev.set_brightness(204), 204);
    assert_eq!(dev.set_brightness(u32::MAX), 204);
}

#[test]
fn the_backlight_never_goes_out() {
    assert_eq!(f(find_lowest_raw(d(255.0), d(0.0))), 1.0);
    assert_eq!(f(find_lowest_raw(d(7.0), d(2.0))), 1.0);
    assert_eq!(f(find_lowest_raw(d(255.0), d(f64::NAN))), 1.0);
    assert_eq!(f(find_highest_raw(d(255.0), d(100.0))), 255.0);
    assert_eq!(f(find_highest_raw(d(255.0), d(250.0))), 255.0);
    let mut dev = device(255.0, 1.0, 255.0);
    dev.set_range(d(10.0), d(50.0));
    assert_eq!(f(dev.min_allowed_raw), 26.0);
    assert_eq!(f(dev.max_allowed_raw), 128.0);
    dev.set_range(d(0.0), d(0.0));
    assert!(!dev.has_range());
}

#[test]
fn percentages_lie_between_0_and_100() {
    let dev = device(496.0, 10.0, 496.0);
    assert_eq!(f(dev.hw_to_percent(107)), 22.0);
    assert_eq!(f(dev.hw_to_percent(-5)), 0.0);
    assert_eq!(f(dev.hw_to_percent(i64::MAX)), 100.0);
    assert_eq!(f(device(0.0, 1.0, 1.0).hw_to_percent(3)), 0.0);
    assert_eq!(f(status_percent(107, d(496.0))), 22.0);
    assert_eq!(f(status_percent(992, d(496.0))), 200.0);
    assert_eq!(f(status_percent(3, d(0.0))), 0.0);
}

fn candidate(name: &str, max: Option<i64>, kind: &str) -> Candidate {
    Candidate {
        name: name.to_string(),
        path: format!("/sys/class/backlight/{}", name),
        max_brightness: max,
        kind: kind.to_string(),
    }
}

#[test]
fn the_best_controller_is_chosen() {
    let found = vec![
        candidate("acpi_video0", Some(15), "firmware\n"),
        candidate("dell_backlight", Some(100), " platform\n"),
        candidate("broken_intel", Some(0), "raw"),
        candidate("unread", None, "raw"),
        candidate("amdgpu_bl1", Some(255), "firmware"),
        candidate("other", Some(500), "raw\n"),
    ];
    let dev = BacklightDevice::discover(&found, None, d(2.0), d(100.0)).unwrap();
    assert_eq!(dev.name, "amdgpu_bl1");
    assert_eq!(dev.path, "/sys/class/backlight/amdgpu_bl1");
    assert_eq!(f(dev.hw_max_brightness), 255.0);
    assert_eq!(f(dev.min_allowed_raw), 5.0);
    assert_eq!(f(dev.max_allowed_raw), 255.0);
    let dev = BacklightDevice::discover(&found, Some("dell_backlight"), d(2.0), d(50.0)).unwrap();
    assert_eq!(dev.name, "dell_backlight");
    assert_eq!(f(dev.max_allowed_raw), 50.0);
    let dev = BacklightDevice::discover(&found, Some("missing"), d(2.0), d(100.0)).unwrap();
    assert_eq!(dev.name, "acpi_video0");
    assert!(BacklightDevice::discover(&found[2..4].iter().map(|c| candidate(&c.name, c.max_brightness, &c.kind)).collect(), None, d(2.0), d(100.0)).is_none());
}

#[test]
fn priorities_of_controllers() {
    assert_eq!(find_priority(None, "x", " raw\n"), 30);
    assert_eq!(find_priority(None, "my_intel_backlight", "firmware"), 30);
    assert_eq!(find_priority(None, "nvidia_0", ""), 30);
    assert_eq!(find_priority(None, "x", "platform"), 20);
    assert_eq!(find_priority(None, "x", "firmware"), 10);
    assert_eq!(find_priority(Some("x"), "x", "firmware"), 100);
    assert_eq!(find_priority(Some("x"), "intel", "raw"), 0);
}

#[test]
fn sysfs_numbers() {
    assert_eq!(read_sysfs_buffer(b"96000\n"), Some(96000));
    assert_eq!(read_sysfs_buffer(b" -12 "), Some(-12));
    assert_eq!(read_sysfs_buffer(b"+7"), Some(7));
    assert_eq!(read_sysfs_buffer(b"9223372036854775807"), Some(i64::MAX));
    assert_eq!(read_sysfs_buffer(b"-9223372036854775808"), Some(i64::MIN));
    assert_eq!(read_sysfs_buffer(b"9223372036854775808"), None);
    assert_eq!(read_sysfs_buffer(b""), None);
    assert_eq!(read_sysfs_buffer(b"\n"), None);
    assert_eq!(read_sysfs_buffer(b"1 2"), None);
    assert_eq!(read_sysfs_buffer(b"-"), None);
    assert_eq!(read_sysfs_buffer(b"12\xff"), None);
    assert_eq!(read_sysfs_buffer("\u{2003}42\u{a0}".as_bytes()), Some(42));
    assert_eq!(read_sysfs_buffer("\u{663}".as_bytes()), None);
}

#[test]
fn frames_lead_from_the_start_to_the_target() {
    for (start, target) in [(10i64, 500i64), (500, 10), (0, 4294967295), (7, 7), (-3, 5)] {
        let mut prev = start;
        for i in 0..=1000 {
            let next = interpolate(start, target, ease(d(i as f64 / 1000.0)));
            assert!(next >= start.min(target) && next <= start.max(target));
            assert!(if start <= target { next >= prev } else { next <= prev });
            let t = i as f64 / 1000.0;
            let eased = t * t * (3.0 - 2.0 * t);
            assert_eq!(next, (start as f64 + (target - start) as f64 * eased).round() as i64);
            prev = next;
        }
        assert_eq!(prev, target);
    }
}

#[test]
fn sending_falls_back_to_the_file() {
    assert_eq!(Sending::start(true), Sending::Logind);
    assert_eq!(Sending::start(false), Sending::File);
    assert_eq!(Sending::Logind.next(true), Sending::Sent);
    assert_eq!(Sending::Logind.next(false), Sending::File);
    assert_eq!(Sending::File.next(true), Sending::Sent);
    assert_eq!(Sending::File.next(false), Sending::Failed);
    assert_eq!(Sending::Sent.next(false), Sending::Sent);
    assert_eq!(Sending::Failed.next(true), Sending::Failed);
    assert_eq!(device(100.0, 1.0, 100.0).sending_error(), "Failed to set brightness for test_dev");
}
