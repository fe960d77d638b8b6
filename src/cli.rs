use vstd::prelude::*;

verus! {

/// The controller's configuration, fixed at startup.
#[derive(Clone, Debug)]
pub struct Args {
    /// Disk devices whose temperature is watched, e.g. `/dev/sda`.
    pub disks: Vec<String>,
    /// The PWM file, e.g. `/sys/class/hwmon/hwmon2/pwm1`.
    pub pwm_path: String,
    /// The fan speed file, e.g. `/sys/class/hwmon/hwmon2/fan1_input`.
    pub fan_path: String,
    /// Seconds between two control decisions.
    pub interval: u64,
}

} // verus!
