use fan_control::interpolation::Interpolator;
use fan_control::policy::get_pwm_value_by_temp;

fn reference_table() -> Interpolator {
    Interpolator::with_points(vec![
        (255, 4945),
        (240, 4770),
        (225, 4485),
        (210, 4192),
        (195, 3890),
        (180, 3600),
        (165, 3308),
        (150, 2941),
        (135, 2621),
        (120, 2246),
        (105, 1862),
        (90, 1430),
        (75, 1055),
        (0, 1039),
    ])
}

#[test]
fn idle_at_and_below_band() {
    let c = reference_table();
    assert_eq!(get_pwm_value_by_temp(&c, 30), (0, 1000));
    assert_eq!(get_pwm_value_by_temp(&c, 12), (0, 1000));
    assert_eq!(get_pwm_value_by_temp(&c, i32::MIN), (0, 1000));
}

#[test]
fn full_speed_at_and_above_band() {
    let c = reference_table();
    assert_eq!(get_pwm_value_by_temp(&c, 60), (255, 4800));
    assert_eq!(get_pwm_value_by_temp(&c, 85), (255, 4800));
    assert_eq!(get_pwm_value_by_temp(&c, i32::MAX), (255, 4800));
}

#[test]
fn midpoint_of_band() {
    let c = reference_table();
    assert_eq!(get_pwm_value_by_temp(&c, 45), (148, 2900));
}

#[test]
fn inside_band() {
    let c = reference_table();
    // 1000 + 3800 * 10 / 30 = 2266.67; 135 - (2621 - 2266.67) / 25 = 120.83.
    assert_eq!(get_pwm_value_by_temp(&c, 40), (120, 2266));
    // 1000 + 3800 / 30 = 1126.67, between 1055 and 1430: 90 - 303.33 / 25 = 77.87.
    assert_eq!(get_pwm_value_by_temp(&c, 31), (77, 1126));
}

#[test]
fn duty_stays_in_range_inside_band() {
    let c = reference_table();
    let mut last = 0;
    for t in 31..60 {
        let (duty, speed) = get_pwm_value_by_temp(&c, t);
        assert!((0..=255).contains(&duty));
        assert!((1000..=4800).contains(&speed));
        assert!(duty >= last);
        last = duty;
    }
}

#[test]
fn steep_curve_is_clamped() {
    // A curve that asks for far more than the device range.
    let c = Interpolator::with_points(vec![(0, 0), (1, 10)]);
    assert_eq!(get_pwm_value_by_temp(&c, 45), (255, 2900));
    // A curve that asks for less than zero.
    let c = Interpolator::with_points(vec![(0, 5000), (1, 5001)]);
    assert_eq!(get_pwm_value_by_temp(&c, 45), (0, 2900));
}
