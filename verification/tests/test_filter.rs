use kirialsd::double::Double;
use kirialsd::filter::MedianFilter3;

fn d(x: f64) -> Double {
    Double::from_bits(x.to_bits())
}

fn f(x: Double) -> f64 {
    f64::from_bits(x.to_bits())
}

#[test]
fn test_median_filter_noise_rejection() {
    let mut filter = MedianFilter3::new(d(30.0));

    // Constant input
    assert_eq!(f(filter.update(d(30.0))), 30.0);

    // Single sample spike (noise)
    assert_eq!(f(filter.update(d(100.0))), 30.0);

    // Return to normal
    assert_eq!(f(filter.update(d(30.0))), 30.0);

    // Single sample dip (noise)
    assert_eq!(f(filter.update(d(0.0))), 30.0);

    // Return to normal
    assert_eq!(f(filter.update(d(30.0))), 30.0);
}

#[test]
fn test_median_filter_step_transition() {
    let mut filter = MedianFilter3::new(d(30.0));

    // Sample 1: [30, 30, 10] -> median 30.0
    assert_eq!(f(filter.update(d(10.0))), 30.0);

    // Sample 2: [30, 10, 10] -> median 10.0
    assert_eq!(f(filter.update(d(10.0))), 10.0);

    // Sample 3: [10, 10, 10] -> median 10.0
    assert_eq!(f(filter.update(d(10.0))), 10.0);
}

#[test]
fn the_median_is_the_middle_one_in_every_order() {
    let orders = [
        [1.0, 2.0, 3.0],
        [1.0, 3.0, 2.0],
        [2.0, 1.0, 3.0],
        [2.0, 3.0, 1.0],
        [3.0, 1.0, 2.0],
        [3.0, 2.0, 1.0],
    ];
    for o in orders {
        let mut filter = MedianFilter3::new(d(9.0));
        filter.update(d(o[0]));
        filter.update(d(o[1]));
        assert_eq!(f(filter.update(d(o[2]))), 2.0);
    }
}

#[test]
fn a_reset_forgets() {
    let mut filter = MedianFilter3::new(d(30.0));
    filter.update(d(10.0));
    filter.reset(d(70.0));
    assert_eq!(f(filter.update(d(5.0))), 70.0);
    assert_eq!(f(filter.update(d(6.0))), 6.0);
}
