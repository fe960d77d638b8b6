use fan_control::probe::{max_temperature, parse_temperature_line, parse_temperatures};

#[test]
fn reads_temperature_from_line() {
    assert_eq!(parse_temperature_line("/dev/sda: WDC WD40EFRX: 41\u{b0}C"), Some(41));
    assert_eq!(parse_temperature_line("/dev/sdb: ST4000: 7\u{b0}C  "), Some(7));
}

#[test]
fn line_without_temperature() {
    assert_eq!(parse_temperature_line("/dev/sdc: drive is sleeping"), None);
    assert_eq!(parse_temperature_line("/dev/sdc: 41 C"), None);
    assert_eq!(parse_temperature_line(""), None);
}

#[test]
fn out_of_range_digits() {
    assert_eq!(parse_temperature_line("/dev/sda: 99999999999\u{b0}C"), None);
}

#[test]
fn reads_all_lines() {
    let lines = vec![
        "/dev/sda: A: 35\u{b0}C".to_string(),
        "/dev/sdb: B: 44\u{b0}C".to_string(),
    ];
    assert_eq!(parse_temperatures(&lines), Some(vec![35, 44]));
    let bad = vec!["/dev/sda: A: 35\u{b0}C".to_string(), "oops".to_string()];
    assert_eq!(parse_temperatures(&bad), None);
    assert_eq!(parse_temperatures(&vec![]), Some(vec![]));
}

#[test]
fn highest_reading() {
    assert_eq!(max_temperature(&vec![35, 44, 39]), Some(44));
    assert_eq!(max_temperature(&vec![-3]), Some(-3));
    assert_eq!(max_temperature(&vec![]), None);
}
