use fan_control::controller::{step, write_for, Action, Event, Phase};
use fan_control::device::{decimal_string, set_pwm, set_pwm_enable, set_pwm_to_manual, FALLBACK_DUTY};

#[test]
fn decimal_strings() {
    assert_eq!(decimal_string(0), "0");
    assert_eq!(decimal_string(7), "7");
    assert_eq!(decimal_string(150), "150");
    assert_eq!(decimal_string(-42), "-42");
    assert_eq!(decimal_string(i32::MAX), "2147483647");
    assert_eq!(decimal_string(i32::MIN), "-2147483648");
}

#[test]
fn manual_mode_write() {
    let w = set_pwm_to_manual("/sys/class/hwmon/hwmon2/pwm1");
    assert_eq!(w.path, "/sys/class/hwmon/hwmon2/pwm1_enable");
    assert_eq!(w.contents, "1");
}

#[test]
fn enable_write_keeps_value() {
    let w = set_pwm_enable("/x/pwm2", "2\n");
    assert_eq!(w.path, "/x/pwm2_enable");
    assert_eq!(w.contents, "2\n");
}

#[test]
fn duty_write() {
    let w = set_pwm("/x/pwm1", 148);
    assert_eq!(w.path, "/x/pwm1");
    assert_eq!(w.contents, "148");
}

#[test]
fn ticks_write_duty_cycles() {
    let (phase, acts) = step(Phase::Polling, Event::Tick(77));
    assert_eq!(phase, Phase::Polling);
    assert_eq!(acts, vec![Action::WriteDuty(77)]);
}

#[test]
fn signal_writes_fallback_then_mode() {
    let (phase, acts) = step(Phase::Polling, Event::Signal);
    assert_eq!(phase, Phase::Stopped);
    assert_eq!(acts, vec![Action::WriteDuty(FALLBACK_DUTY), Action::RestoreMode]);
    let w0 = write_for("/x/pwm1", "2", acts[0]);
    let w1 = write_for("/x/pwm1", "2", acts[1]);
    assert_eq!((w0.path.as_str(), w0.contents.as_str()), ("/x/pwm1", "150"));
    assert_eq!((w1.path.as_str(), w1.contents.as_str()), ("/x/pwm1_enable", "2"));
}

#[test]
fn shutdown_sequence_whatever_the_tick() {
    for k in 0..5 {
        let mut phase = Phase::Polling;
        let mut all = Vec::new();
        let mut events: Vec<Event> = (0..k).map(|i| Event::Tick(i * 10)).collect();
        events.push(Event::Signal);
        events.push(Event::Tick(99));
        events.push(Event::Signal);
        for e in events {
            let (next, acts) = step(phase, e);
            phase = next;
            all.extend(acts);
        }
        let n = all.len();
        assert_eq!(n, k as usize + 2);
        assert_eq!(all[n - 2], Action::WriteDuty(FALLBACK_DUTY));
        assert_eq!(all[n - 1], Action::RestoreMode);
        assert_eq!(all.iter().filter(|a| **a == Action::RestoreMode).count(), 1);
    }
}

#[test]
fn stopped_controller_is_silent() {
    let (phase, acts) = step(Phase::Stopped, Event::Tick(10));
    assert_eq!(phase, Phase::Stopped);
    assert!(acts.is_empty());
}
