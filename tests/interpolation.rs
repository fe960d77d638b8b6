use fan_control::frac::Frac;
use fan_control::interpolation::Interpolator;

fn reference_table() -> Interpolator {
    Interpolator::with_points(vec![
        (255, 4945),
        (240, 4770),
        (225, 4485),
        (210, 4192),
        (195, 3890),
        (180, 3600),
        (165, 3308),
        (150, 2941),
        (135, 2621),
        (120, 2246),
        (105, 1862),
        (90, 1430),
        (75, 1055),
        (0, 1039),
    ])
}

fn equals(r: Frac, num: i128, den: i128) -> bool {
    r.den > 0 && r.num * den == num * r.den
}

#[test]
fn reference_table_is_monotonic() {
    let c = reference_table();
    assert!(c.has_increasing_x());
    assert!(c.has_increasing_y());
}

#[test]
fn duplicate_x_is_detected() {
    let c = Interpolator::with_points(vec![(10, 5), (10, 7), (20, 9)]);
    assert!(!c.has_increasing_x());
    assert!(c.has_increasing_y());
}

#[test]
fn decreasing_y_is_detected() {
    let c = Interpolator::with_points(vec![(0, 9), (10, 5), (20, 1)]);
    assert!(c.has_increasing_x());
    assert!(!c.has_increasing_y());
}

#[test]
fn estimate_y_at_every_sample() {
    let c = reference_table();
    let samples = [
        (0, 1039),
        (75, 1055),
        (90, 1430),
        (105, 1862),
        (120, 2246),
        (135, 2621),
        (150, 2941),
        (165, 3308),
        (180, 3600),
        (195, 3890),
        (210, 4192),
        (225, 4485),
        (240, 4770),
        (255, 4945),
    ];
    for (x, y) in samples {
        let r = c.estimate_y(Frac::from_int(x));
        assert!(equals(r, y as i128, 1), "at x = {}", x);
    }
}

#[test]
fn estimate_y_between_samples() {
    let c = reference_table();
    // Between (90, 1430) and (105, 1862): slope 432 / 15.
    assert!(equals(c.estimate_y(Frac::from_int(100)), 1718, 1));
    // Half way between (0, 1039) and (75, 1055).
    assert!(equals(c.estimate_y(Frac::new(75, 2)), 1047, 1));
}

#[test]
fn estimate_x_inverts_estimate_y() {
    let c = reference_table();
    for x in [1, 37, 80, 100, 131, 200, 254] {
        let y = c.estimate_y(Frac::from_int(x));
        assert!(y.den <= u32::MAX as i128 && y.num.abs() <= i64::MAX as i128);
        let back = c.estimate_x(Frac::new(y.num as i64, y.den as u32));
        assert!(equals(back, x as i128, 1), "at x = {}", x);
    }
}

#[test]
fn estimate_y_is_monotonic() {
    let c = reference_table();
    let mut last: Option<Frac> = None;
    for x in -50..320 {
        let r = c.estimate_y(Frac::new(x, 1));
        if let Some(p) = last {
            assert!(p.num * r.den <= r.num * p.den, "at x = {}", x);
        }
        last = Some(r);
    }
}

#[test]
fn extrapolates_below_first_sample() {
    let c = reference_table();
    // Slope of the first segment: (1055 - 1039) / 75.
    assert!(equals(c.estimate_y(Frac::from_int(-75)), 1023, 1));
    assert!(equals(c.estimate_y(Frac::from_int(-10)), 1039 * 75 - 10 * 16, 75));
}

#[test]
fn extrapolates_above_last_sample() {
    let c = reference_table();
    // Slope of the last segment: (4945 - 4770) / 15.
    assert!(equals(c.estimate_y(Frac::from_int(270)), 5120, 1));
    assert!(equals(c.estimate_y(Frac::from_int(256)), 4945 * 15 + 175, 15));
}

#[test]
fn estimate_x_uses_positional_slope() {
    let c = reference_table();
    // 2900 lies between 2621 and 2941: 150 - 41 * 15 / 320.
    assert!(equals(c.estimate_x(Frac::from_int(2900)), 9477, 64));
    // Below the first y the first segment is extended.
    assert!(equals(c.estimate_x(Frac::from_int(1023)), -75, 1));
}

#[test]
fn two_point_table() {
    let c = Interpolator::with_points(vec![(10, 100), (0, 0)]);
    assert!(equals(c.estimate_y(Frac::from_int(5)), 50, 1));
    assert!(equals(c.estimate_y(Frac::from_int(20)), 200, 1));
    assert!(equals(c.estimate_x(Frac::from_int(-30)), -3, 1));
}
