use kirialsd::curve::ClightCurve;
use kirialsd::double::Double;

fn d(x: f64) -> Double {
    Double::from_bits(x.to_bits())
}

fn f(x: Double) -> f64 {
    f64::from_bits(x.to_bits())
}

fn all(v: &[f64]) -> Vec<Double> {
    v.iter().map(|&x| d(x)).collect()
}

fn new_curve(lux: &[f64], y: &[f64], max_lux: f64, threshold: f64) -> ClightCurve {
    assert!(ClightCurve::accepts(&all(lux), &all(y), d(max_lux)));
    ClightCurve::new(&all(lux), &all(y), d(max_lux), d(threshold))
}

fn evaluate(curve: &ClightCurve, lux: f64) -> f64 {
    f(curve.evaluate(d(lux)))
}

fn learn(curve: &mut ClightCurve, lux: f64, br: f64) -> bool {
    let logs: Vec<Double> = curve.log_arguments(d(lux)).iter().map(|&x| d(f(x).ln())).collect();
    curve.on_user_brightness_change(d(lux), d(br), &logs)
}

#[test]
fn test_curve_monotonicity() {
    let lux_points = vec![0.0, 15.0, 35.0, 70.0, 100.0, 300.0, 600.0, 1000.0];
    let y_coords = vec![0.05, 0.08, 0.15, 0.25, 0.35, 0.55, 0.75, 1.00];

    let curve = new_curve(&lux_points, &y_coords, 1000.0, 0.05);

    // Boundary values
    assert!((evaluate(&curve, 0.0) - 0.05).abs() < 1e-4);
    assert!((evaluate(&curve, 1000.0) - 1.00).abs() < 1e-4);
    assert!((evaluate(&curve, 2000.0) - 1.00).abs() < 1e-4);
    assert!((evaluate(&curve, -50.0) - 0.05).abs() < 1e-4);

    // Global monotonicity at 100 sample points
    let mut prev = evaluate(&curve, 0.0);
    for i in 1..=100 {
        let lux = (i as f64) * 10.0;
        let br = evaluate(&curve, lux);
        assert!(br >= prev - 1e-6, "Monotonicity violated at {} lux: {} < {}", lux, br, prev);
        prev = br;
    }
}

#[test]
fn test_user_calibration_learning_and_proportional_scaling() {
    let lux_points = vec![0.0, 15.0, 35.0, 70.0, 100.0, 300.0, 600.0, 1000.0];
    let y_coords = vec![0.05, 0.08, 0.15, 0.25, 0.35, 0.55, 0.75, 1.00];

    let mut curve = new_curve(&lux_points, &y_coords, 1000.0, 0.05);

    // Initial value at 70 lux is 0.25
    assert!((evaluate(&curve, 70.0) - 0.25).abs() < 1e-4);

    // Small change within shutter threshold (0.05) should be ignored
    let modified = learn(&mut curve, 70.0, 0.27);
    assert!(!modified, "Should ignore changes below shutter threshold");

    // Significant user change at 70 lux: user raises brightness to 0.50
    let modified = learn(&mut curve, 70.0, 0.50);
    assert!(modified, "Should accept user calibration");

    // 70 lux is now ~0.50
    assert!((evaluate(&curve, 70.0) - 0.50).abs() < 1e-3);

    // Monotonicity is strictly maintained
    let mut prev = evaluate(&curve, 0.0);
    for i in 1..=100 {
        let lux = (i as f64) * 10.0;
        let br = evaluate(&curve, lux);
        assert!(br >= prev - 1e-6, "Monotonicity violated after calibration at {} lux: {} < {}", lux, br, prev);
        prev = br;
    }

    // Proportional scaling: lower pivot at 70 lux to 0.10
    let modified_lower = learn(&mut curve, 70.0, 0.10);
    assert!(modified_lower);
    assert!((evaluate(&curve, 70.0) - 0.10).abs() < 1e-3);

    // Preceding points must not be a flat plateau
    let y15 = evaluate(&curve, 15.0);
    let y35 = evaluate(&curve, 35.0);
    let y70 = evaluate(&curve, 70.0);
    assert!(y15 < y35, "Points should scale proportionally, not flatten: {} < {}", y15, y35);
    assert!(y35 <= y70);
}

#[test]
fn test_out_of_bounds_lux_does_not_corrupt_curve() {
    let lux_points = vec![0.0, 15.0, 35.0, 70.0, 100.0, 300.0, 600.0, 1000.0];
    let y_coords = vec![0.05, 0.08, 0.15, 0.25, 0.35, 0.55, 0.75, 1.00];

    let mut curve = new_curve(&lux_points, &y_coords, 1000.0, 0.05);

    // Attempt to calibrate at 2500 lux (far beyond 1000 lux max)
    let modified = learn(&mut curve, 2500.0, 0.60);
    assert!(!modified, "Should not calibrate when lux is far outside curve neighborhood");

    // The 1000 lux point must remain unchanged at 1.00
    assert!((evaluate(&curve, 1000.0) - 1.00).abs() < 1e-4);
}

#[test]
fn test_localized_learning_preserves_unrelated_points() {
    let lux_points = vec![0.0, 15.0, 35.0, 70.0, 100.0, 300.0, 600.0, 1000.0];
    let y_coords = vec![0.05, 0.08, 0.15, 0.25, 0.35, 0.55, 0.75, 1.00];

    let mut curve = new_curve(&lux_points, &y_coords, 1000.0, 0.05);

    let initial_day_br = evaluate(&curve, 600.0);
    assert!((initial_day_br - 0.75).abs() < 1e-4);

    // Night setting at 15 lux raised from 0.08 to 0.14
    let modified = learn(&mut curve, 15.0, 0.14);
    assert!(modified);
    assert!((evaluate(&curve, 15.0) - 0.14).abs() < 1e-3);

    // Daytime brightness at 600 lux remains 0.75
    let day_br_after = evaluate(&curve, 600.0);
    assert!(
        (day_br_after - initial_day_br).abs() < 1e-4,
        "Calibrating night brightness (15 lx) corrupted daytime brightness (600 lx): {} -> {}",
        initial_day_br,
        day_br_after
    );

    // Max lux point (1000 lx) remains 1.00
    assert!((evaluate(&curve, 1000.0) - 1.00).abs() < 1e-4);

    // Daytime at 600 lux: from 0.75 to 0.82
    let modified_day = learn(&mut curve, 600.0, 0.82);
    assert!(modified_day);
    assert!((evaluate(&curve, 600.0) - 0.82).abs() < 1e-3);

    // Night brightness at 15 lux remains 0.14
    let night_br_after = evaluate(&curve, 15.0);
    assert!(
        (night_br_after - 0.14).abs() < 1e-3,
        "Calibrating day brightness (600 lx) corrupted night brightness (15 lx): {} -> {}",
        0.14,
        night_br_after
    );
}

#[test]
fn test_calibration_at_extreme_boundaries() {
    let lux_points = vec![0.0, 15.0, 35.0, 70.0, 100.0, 300.0, 600.0, 1000.0];
    let y_coords = vec![0.05, 0.08, 0.15, 0.25, 0.35, 0.55, 0.75, 1.00];

    let mut curve = new_curve(&lux_points, &y_coords, 1000.0, 0.05);

    // User sets 100% brightness (1.0) at 70 lux
    let modified = learn(&mut curve, 70.0, 1.00);
    assert!(modified);

    // All subsequent points must be 1.0 without panic or NaN
    for pt in &curve.points {
        assert!(!f(pt.y).is_nan(), "Point y must not be NaN");
        assert!(f(pt.y) >= 0.01 && f(pt.y) <= 1.00);
    }
    assert!((evaluate(&curve, 70.0) - 1.00).abs() < 1e-3);
    assert!((evaluate(&curve, 100.0) - 1.00).abs() < 1e-3);
    assert!((evaluate(&curve, 1000.0) - 1.00).abs() < 1e-3);

    // Monotonicity verification
    let mut prev = evaluate(&curve, 0.0);
    for i in 1..=100 {
        let lux = (i as f64) * 10.0;
        let br = evaluate(&curve, lux);
        assert!(!br.is_nan());
        assert!(br >= prev - 1e-6);
        prev = br;
    }

    // Lowering to minimum (0.01) at 300 lux
    let modified_low = learn(&mut curve, 300.0, 0.01);
    assert!(modified_low);
    for pt in &curve.points {
        assert!(!f(pt.y).is_nan());
        assert!(f(pt.y) >= 0.01 && f(pt.y) <= 1.00);
    }

    let mut prev = evaluate(&curve, 0.0);
    for i in 1..=100 {
        let lux = (i as f64) * 10.0;
        let br = evaluate(&curve, lux);
        assert!(!br.is_nan());
        assert!(br >= prev - 1e-6);
        prev = br;
    }
}

#[test]
fn test_downward_learning_clears_elevated_ceiling() {
    let lux_points = vec![0.0, 15.0, 35.0, 70.0, 100.0, 300.0, 600.0, 1000.0];
    let y_coords = vec![0.01, 0.029, 0.436, 0.443, 0.449, 0.487, 0.680, 1.000];

    let mut curve = new_curve(&lux_points, &y_coords, 1000.0, 0.05);

    // User at ~35 lux lowers brightness from 43.6% to 18%
    let modified = learn(&mut curve, 35.0, 0.18);
    assert!(modified);

    assert!((evaluate(&curve, 35.0) - 0.18).abs() < 1e-3);

    // 70 lux must not stay at 0.443
    let br_70 = evaluate(&curve, 70.0);
    assert!(br_70 < 0.35, "Subsequent point at 70 lux was not lowered to clear ceiling: {}", br_70);

    // Monotonicity must strictly hold
    let mut prev = evaluate(&curve, 0.0);
    for i in 1..=100 {
        let lux = (i as f64) * 10.0;
        let br = evaluate(&curve, lux);
        assert!(br >= prev - 1e-6, "Monotonicity violated at {} lux: {} < {}", lux, br, prev);
        prev = br;
    }

    // Small sensor drift: 37 lux should be close to 18%, not jumping to 44%
    let br_37 = evaluate(&curve, 37.0);
    assert!(br_37 < 0.22, "Slight lux drift to 37 lx jumped back up to high brightness: {}", br_37);
}

// The curve and its lessons in native arithmetic, to compare with bit by bit.

struct Native {
    points: Vec<(f64, f64)>,
    slopes: Vec<f64>,
    max_lux: f64,
    threshold: f64,
}

impl Native {
    fn new(lux: &[f64], y: &[f64], max_lux: f64, threshold: f64) -> Native {
        let range = if max_lux > 0.0 { max_lux } else { 1000.0 };
        let mut points: Vec<(f64, f64)> = lux
            .iter()
            .zip(y.iter())
            .map(|(&x, &y)| ((x / range).clamp(0.0, 1.0), y.clamp(0.01, 1.0)))
            .collect();
        points.sort_by(|a, b| a.0.partial_cmp(&b.0).unwrap());
        let mut r = Native { points, slopes: Vec::new(), max_lux: range, threshold };
        r.level();
        r.recompute();
        r
    }

    fn level(&mut self) {
        for i in 1..self.points.len() {
            if self.points[i].1 < self.points[i - 1].1 {
                self.points[i].1 = self.points[i - 1].1;
            }
        }
    }

    fn recompute(&mut self) {
        let n = self.points.len();
        let mut deltas = vec![0.0; n - 1];
        let mut slopes = vec![0.0; n];
        for i in 0..n - 1 {
            let h = self.points[i + 1].0 - self.points[i].0;
            deltas[i] = if h > 0.0 { (self.points[i + 1].1 - self.points[i].1) / h } else { 0.0 };
        }
        slopes[0] = deltas[0];
        for i in 1..n - 1 {
            slopes[i] = (deltas[i - 1] + deltas[i]) * 0.5;
        }
        slopes[n - 1] = deltas[n - 2];
        for i in 0..n - 1 {
            if deltas[i].abs() < 1e-9 {
                slopes[i] = 0.0;
                slopes[i + 1] = 0.0;
            } else {
                let alpha = slopes[i] / deltas[i];
                let beta = slopes[i + 1] / deltas[i];
                let dist: f64 = alpha * alpha + beta * beta;
                if dist > 9.0 {
                    let tau = 3.0 / dist.sqrt();
                    slopes[i] = tau * alpha * deltas[i];
                    slopes[i + 1] = tau * beta * deltas[i];
                }
            }
        }
        self.slopes = slopes;
    }

    fn evaluate(&self, lux: f64) -> f64 {
        let x = if lux.is_nan() || self.max_lux <= 0.0 { 0.0 } else { (lux / self.max_lux).clamp(0.0, 1.0) };
        let p = &self.points;
        let n = p.len();
        if x <= p[0].0 {
            return p[0].1;
        }
        if x >= p[n - 1].0 {
            return p[n - 1].1;
        }
        let i = (0..n).rev().find(|&i| p[i].0 <= x).unwrap();
        if p[i].0 == x {
            return p[i].1;
        }
        let h = p[i + 1].0 - p[i].0;
        let t = (x - p[i].0) / h;
        let t2 = t * t;
        let t3 = t2 * t;
        let h00 = 2.0 * t3 - 3.0 * t2 + 1.0;
        let h10 = t3 - 2.0 * t2 + t;
        let h01 = -2.0 * t3 + 3.0 * t2;
        let h11 = t3 - t2;
        let y = h00 * p[i].1 + h10 * h * self.slopes[i] + h01 * p[i + 1].1 + h11 * h * self.slopes[i + 1];
        y.clamp(0.01, 1.0)
    }

    fn learn(&mut self, lux: f64, br: f64) -> bool {
        let n = self.points.len();
        let raw = lux / self.max_lux;
        let target = br.clamp(0.01, 1.0);
        let delta = target - self.evaluate(lux);
        if delta.abs() < self.threshold || raw > 1.5 {
            return false;
        }
        let place = raw.clamp(0.0, 1.0);
        let mut pivot = 0;
        let mut least = f64::MAX;
        for (i, p) in self.points.iter().enumerate() {
            let dist = (p.0 - place).abs();
            if dist < least {
                least = dist;
                pivot = i;
            }
        }
        let was: Vec<f64> = self.points.iter().map(|p| p.1).collect();
        let log = (1.0 + lux.max(0.0)).ln();
        for i in 0..n {
            let dist = ((1.0 + self.points[i].0 * self.max_lux).ln() - log).abs();
            if dist < 1.5 {
                let w = 1.0 - dist / 1.5;
                self.points[i].1 = (self.points[i].1 + delta * w).clamp(0.01, 1.0);
            }
        }
        self.points[pivot].1 = target;
        if delta < 0.0 {
            for i in (0..pivot).rev() {
                let next = self.points[i + 1].1;
                if self.points[i].1 > next {
                    let ratio = if was[i + 1] > 1e-6 { was[i] / was[i + 1] } else { 1.0 };
                    self.points[i].1 = if ratio < 1.0 { (next * ratio).clamp(0.01, next) } else { next };
                }
            }
            for i in pivot + 1..n {
                if self.points[i].1 < self.points[i - 1].1 {
                    self.points[i].1 = self.points[i - 1].1;
                }
            }
        } else {
            for i in pivot + 1..n {
                let last = self.points[i - 1].1;
                if self.points[i].1 < last {
                    let room = 1.0 - was[i - 1];
                    let ratio = if room > 1e-6 { (1.0 - was[i]) / room } else { 1.0 };
                    self.points[i].1 =
                        if ratio < 1.0 { (1.0 - (1.0 - last) * ratio).clamp(last, 1.0) } else { last };
                }
            }
            for i in (0..pivot).rev() {
                if self.points[i].1 > self.points[i + 1].1 {
                    self.points[i].1 = self.points[i + 1].1;
                }
            }
        }
        self.level();
        self.recompute();
        true
    }
}

fn compare(curve: &ClightCurve, native: &Native) {
    assert_eq!(curve.points.len(), native.points.len());
    for (p, q) in curve.points.iter().zip(native.points.iter()) {
        assert_eq!(p.x.to_bits(), q.0.to_bits());
        assert_eq!(p.y.to_bits(), q.1.to_bits());
    }
    for i in 0..=600 {
        let lux = i as f64 * 2.3 - 40.0;
        assert_eq!(evaluate(curve, lux).to_bits(), native.evaluate(lux).to_bits());
    }
}

#[test]
fn lessons_agree_with_native_arithmetic() {
    let lux_points = [0.0, 15.0, 35.0, 70.0, 100.0, 300.0, 600.0, 1000.0];
    let y_coords = [0.05, 0.08, 0.15, 0.25, 0.35, 0.55, 0.75, 1.00];
    let mut curve = new_curve(&lux_points, &y_coords, 1000.0, 0.05);
    let mut native = Native::new(&lux_points, &y_coords, 1000.0, 0.05);
    compare(&curve, &native);
    let lessons = [
        (70.0, 0.5),
        (12.5, 0.3),
        (640.0, 0.2),
        (0.0, 0.9),
        (1450.0, 0.31),
        (85.0, 0.02),
        (250.0, 0.99),
        (1600.0, 0.5),
        (-3.0, 0.012),
        (333.3, 0.34),
        (999.0, 1.0),
        (20.0, 0.01),
    ];
    for (lux, br) in lessons {
        assert_eq!(learn(&mut curve, lux, br), native.learn(lux, br));
        compare(&curve, &native);
    }
}

#[test]
fn unsorted_points_and_falling_levels_are_put_in_order() {
    let lux = [600.0, 0.0, 100.0, 100.0, 50.0];
    let y = [0.3, 0.5, 0.2, 0.9, f64::INFINITY];
    let curve = new_curve(&lux, &y, 500.0, 0.05);
    let native = Native::new(&lux, &y, 500.0, 0.05);
    compare(&curve, &native);
    let levels: Vec<f64> = curve.get_y_values().iter().map(|&v| f(v)).collect();
    assert_eq!(levels, vec![0.5, 1.0, 1.0, 1.0, 1.0]);
    let lux: Vec<f64> = curve.get_lux_points().iter().map(|&v| f(v)).collect();
    assert_eq!(lux, vec![0.0, 50.0, 100.0, 100.0, 500.0]);
}

#[test]
fn a_curve_runs_through_its_points() {
    let lux = [0.0, 15.0, 35.0, 70.0, 100.0, 300.0, 600.0, 1000.0];
    let y = [0.05, 0.08, 0.15, 0.25, 0.35, 0.55, 0.75, 1.00];
    let curve = new_curve(&lux, &y, 1000.0, 0.05);
    for i in 0..lux.len() {
        assert_eq!(evaluate(&curve, lux[i]), y[i]);
    }
    assert_eq!(evaluate(&curve, f64::NEG_INFINITY), 0.05);
    assert_eq!(evaluate(&curve, f64::INFINITY), 1.0);
    assert_eq!(evaluate(&curve, f64::NAN), 0.05);
}

#[test]
fn levels_rise_with_the_light() {
    let lux = [0.0, 1.0, 1.5, 30.0, 31.0, 400.0, 1000.0];
    let y = [0.01, 0.6, 0.601, 0.602, 0.98, 0.98, 1.0];
    let curve = new_curve(&lux, &y, 1000.0, 0.05);
    let mut prev = evaluate(&curve, -1.0);
    for i in 0..20_000 {
        let br = evaluate(&curve, i as f64 * 0.0505);
        assert!(br >= prev - 1.0 / (1u64 << 40) as f64);
        assert!((0.01..=1.0).contains(&br));
        prev = br;
    }
}

#[test]
fn a_range_that_is_none_becomes_a_thousand() {
    let curve = new_curve(&[0.0, 500.0], &[0.1, 0.9], -3.0, 0.05);
    assert_eq!(f(curve.max_lux), 1000.0);
    assert_eq!(f(curve.normalize_lux(d(250.0))), 0.25);
    assert_eq!(f(curve.normalize_lux(d(f64::NAN))), 0.0);
    assert_eq!(f(curve.normalize_lux(d(5000.0))), 1.0);
}

#[test]
fn what_is_no_curve_is_not_accepted() {
    assert!(!ClightCurve::accepts(&all(&[1.0]), &all(&[0.5]), d(10.0)));
    assert!(!ClightCurve::accepts(&all(&[1.0, 2.0]), &all(&[0.5]), d(10.0)));
    assert!(!ClightCurve::accepts(&all(&[1.0, f64::NAN]), &all(&[0.5, 0.6]), d(10.0)));
    assert!(!ClightCurve::accepts(&all(&[1.0, f64::INFINITY]), &all(&[0.5, 0.6]), d(f64::INFINITY)));
    assert!(ClightCurve::accepts(&all(&[1.0, f64::INFINITY]), &all(&[0.5, 0.6]), d(10.0)));
}

#[test]
fn a_lesson_without_numbers_is_refused() {
    let mut curve = new_curve(&[0.0, 500.0], &[0.1, 0.9], 500.0, 0.05);
    assert!(!learn(&mut curve, f64::NAN, 0.5));
    assert!(!learn(&mut curve, 100.0, f64::NAN));
    assert_eq!(evaluate(&curve, 0.0), 0.1);
    assert_eq!(evaluate(&curve, 500.0), 0.9);
}

#[test]
fn raising_lowers_nothing_and_lowering_raises_nothing() {
    let lux = [0.0, 15.0, 35.0, 70.0, 100.0, 300.0, 600.0, 1000.0];
    let y = [0.05, 0.08, 0.15, 0.25, 0.35, 0.55, 0.75, 1.00];
    let mut up = new_curve(&lux, &y, 1000.0, 0.05);
    assert!(learn(&mut up, 100.0, 0.8));
    let mut down = new_curve(&lux, &y, 1000.0, 0.05);
    assert!(learn(&mut down, 100.0, 0.1));
    for i in 0..y.len() {
        assert!(f(up.points[i].y) >= y[i]);
        assert!(f(down.points[i].y) <= y[i]);
        assert_eq!(f(up.points[i].x), lux[i] / 1000.0);
    }
    assert_eq!(f(up.points[4].y), 0.8);
    assert_eq!(f(down.points[4].y), 0.1);
    // out of reach and in order: kept
    assert_eq!(f(up.points[0].y), 0.05);
    assert_eq!(f(down.points[7].y), 1.0);
}

#[test]
fn points_near_each_other_make_a_smooth_curve() {
    let lux = [0.0, 1e-12, 2e-12, 500.0, 500.0000000001, 1000.0];
    let y = [0.05, 0.3, 0.3, 0.31, 0.9, 1.0];
    let mut curve = new_curve(&lux, &y, 1000.0, 0.05);
    assert!(learn(&mut curve, 500.0, 0.6));
    let mut prev = 0.0;
    for base in [0.0, 500.0] {
        for i in 0..300 {
            let level = evaluate(&curve, base + i as f64 * 1e-14 * if base > 0.0 { 100.0 } else { 1.0 });
            assert!(level >= 0.01 && level <= 1.0);
            assert!(level >= prev - 1e-12);
            prev = level;
        }
    }
}

#[test]
fn the_weight_of_a_lesson_is_triangular() {
    // two points half a unit apart in logarithmic light
    let near = (1.0_f64).exp() - 1.0;
    let far = (1.5_f64).exp() - 1.0;
    let mut curve = new_curve(&[near, far], &[0.5, 0.5], far, 0.05);
    assert!(learn(&mut curve, far, 1.0));
    assert_eq!(evaluate(&curve, far), 1.0);
    assert!((evaluate(&curve, near) - (0.5 + 0.5 * (1.0 - 0.5 / 1.5))).abs() < 1e-12);
    // and downwards, where the point within reach lies above the one that is taught
    let mut curve = new_curve(&[near, far], &[0.5, 0.9], far, 0.05);
    assert!(learn(&mut curve, near, 0.2));
    assert_eq!(evaluate(&curve, near), 0.2);
    assert!((evaluate(&curve, far) - (0.9 - 0.3 * (1.0 - 0.5 / 1.5))).abs() < 1e-12);
}
