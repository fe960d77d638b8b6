use vstd::prelude::*;

use crate::frac::{normalized, same_ratio, Frac};
use crate::interpolation::{strictly_increasing, Interpolator};

verus! {

/// At or below this temperature (°C) the fan idles.
pub const TEMP_MIN: i32 = 30;

/// At or above this temperature (°C) the fan runs at full speed.
pub const TEMP_MAX: i32 = 60;

/// Lowest duty cycle the PWM device accepts.
pub const PWM_MIN: i32 = 0;

/// Highest duty cycle the PWM device accepts.
pub const PWM_MAX: i32 = 255;

/// Target fan speed (RPM) at `TEMP_MIN`.
pub const SPEED_MIN: i32 = 1000;

/// Target fan speed (RPM) at `TEMP_MAX`.
pub const SPEED_MAX: i32 = 4800;

/// The target speed for a temperature inside the band, as the fraction
/// `(SPEED_MIN * band + (SPEED_MAX - SPEED_MIN) * (temp - TEMP_MIN)) / band`:
/// the linear map that sends `TEMP_MIN` to `SPEED_MIN` and `TEMP_MAX` to `SPEED_MAX`.
pub open spec fn target_speed(temp: int) -> (int, int) {
    let band = TEMP_MAX - TEMP_MIN;
    (SPEED_MIN * band + (SPEED_MAX - SPEED_MIN) * (temp - TEMP_MIN), band as int)
}

/// `k` is `n / d` (with `d > 0`) clamped to `[PWM_MIN, PWM_MAX]` and then
/// truncated to a whole number.
pub open spec fn clamped_duty(n: int, d: int, k: int) -> bool {
    if n <= PWM_MIN * d {
        k == PWM_MIN
    } else if n >= PWM_MAX * d {
        k == PWM_MAX
    } else {
        k * d <= n < (k + 1) * d
    }
}

/// What the control policy answers for `temp`: the duty cycle, and the
/// estimated speed truncated to a whole number.
pub open spec fn duty_for_temp(curve: Interpolator, temp: int, duty: int, speed: int) -> bool {
    if temp <= TEMP_MIN {
        duty == PWM_MIN && speed == SPEED_MIN
    } else if temp >= TEMP_MAX {
        duty == PWM_MAX && speed == SPEED_MAX
    } else {
        let (sn, sd) = target_speed(temp);
        let (pn, pd) = curve.estimate_x_spec(sn, sd);
        let (qn, qd) = normalized(pn, pd);
        clamped_duty(qn, qd, duty) && speed * sd <= sn < (speed + 1) * sd
    }
}


/// At the band's ends the policy has no jump in the speed it aims at: the
/// interior formula gives exactly the floor speed at `TEMP_MIN` and the
/// ceiling speed at `TEMP_MAX`. The duty cycle has no jump either wherever
/// the curve needs at most `PWM_MIN` for the floor speed and at least
/// `PWM_MAX` for the ceiling speed: the interior formula then clamps to
/// exactly the fixed outputs.
pub proof fn lemma_band_continuity(curve: Interpolator)
    ensures
        target_speed(TEMP_MIN as int).0 == SPEED_MIN * target_speed(TEMP_MIN as int).1,
        target_speed(TEMP_MAX as int).0 == SPEED_MAX * target_speed(TEMP_MAX as int).1,
        ({
            let (sn, sd) = target_speed(TEMP_MIN as int);
            let (qn, qd) = normalized(curve.estimate_x_spec(sn, sd).0, curve.estimate_x_spec(sn, sd).1);
            qn <= PWM_MIN * qd ==> clamped_duty(qn, qd, PWM_MIN as int)
        }),
        ({
            let (sn, sd) = target_speed(TEMP_MAX as int);
            let (qn, qd) = normalized(curve.estimate_x_spec(sn, sd).0, curve.estimate_x_spec(sn, sd).1);
            qn >= PWM_MAX * qd && qd > 0 ==> clamped_duty(qn, qd, PWM_MAX as int)
        }),
{
}

proof fn lemma_same_ratio_le(n1: int, d1: int, n2: int, d2: int, c: int)
    requires
        same_ratio(n1, d1, n2, d2),
        d1 > 0,
        d2 > 0,
    ensures
        (c * d1 <= n1) == (c * d2 <= n2),
        (n1 <= c * d1) == (n2 <= c * d2),
{
    assert((n1 <= c * d1) ==> (n2 <= c * d2)) by (nonlinear_arith)
        requires
            n1 * d2 == n2 * d1,
            d1 > 0,
            d2 > 0,
    ;
    assert((n2 <= c * d2) ==> (n1 <= c * d1)) by (nonlinear_arith)
        requires
            n1 * d2 == n2 * d1,
            d1 > 0,
            d2 > 0,
    ;
    assert((c * d1 <= n1) ==> (c * d2 <= n2)) by (nonlinear_arith)
        requires
            n1 * d2 == n2 * d1,
            d1 > 0,
            d2 > 0,
    ;
    assert((c * d2 <= n2) ==> (c * d1 <= n1)) by (nonlinear_arith)
        requires
            n1 * d2 == n2 * d1,
            d1 > 0,
            d2 > 0,
    ;
}

/// Clamps `v` to `[PWM_MIN, PWM_MAX]` and truncates it to a whole number.
fn clamp_duty(v: Frac) -> (k: i32)
    requires
        v.den > 0,
        v.den <= 0x1_0000_0000_0000_0000,
    ensures
        clamped_duty(v.num as int, v.den as int, k as int),
        PWM_MIN <= k <= PWM_MAX,
{
    if v.num <= 0 {
        PWM_MIN
    } else if v.num >= 255 * v.den {
        PWM_MAX
    } else {
        let k = v.num / v.den;
        proof {
            vstd::arithmetic::div_mod::lemma_fundamental_div_mod(v.num as int, v.den as int);
            assert(k * v.den <= v.num < (k + 1) * v.den) by (nonlinear_arith)
                requires
                    v.num == v.den * k + v.num % v.den,
                    0 <= v.num % v.den < v.den,
            ;
            assert(0 <= k <= 255) by (nonlinear_arith)
                requires
                    k * v.den <= v.num < (k + 1) * v.den,
                    0 < v.num < 255 * v.den,
                    v.den > 0,
            ;
        }
        k as i32
    }
}

/// The duty cycle for the device at temperature `temp`, and the fan speed
/// it aims at. Below the band the fan idles, above it runs at full speed;
/// inside it the target speed rises linearly and the calibration curve
/// gives the duty cycle that reaches it, clamped to the device's range.
pub fn get_pwm_value_by_temp(pwm_to_speed: &Interpolator, temp: i32) -> (r: (i32, i32))
    requires
        pwm_to_speed.wf(),
        strictly_increasing(pwm_to_speed.ys()),
    ensures
        duty_for_temp(*pwm_to_speed, temp as int, r.0 as int, r.1 as int),
        PWM_MIN <= r.0 <= PWM_MAX,
        SPEED_MIN <= r.1 <= SPEED_MAX,
{
    if temp <= TEMP_MIN {
        return (PWM_MIN, SPEED_MIN);
    }
    if temp >= TEMP_MAX {
        return (PWM_MAX, SPEED_MAX);
    }
    let band = TEMP_MAX - TEMP_MIN;
    let sn: i64 = (SPEED_MIN as i64) * (band as i64) + ((SPEED_MAX - SPEED_MIN) as i64) * ((temp
        - TEMP_MIN) as i64);
    let speed = Frac::new(sn, band as u32);
    assert(speed.num == target_speed(temp as int).0 && speed.den == target_speed(temp as int).1);
    let raw = pwm_to_speed.estimate_x(speed);
    let duty = clamp_duty(raw);
    let rpm = sn / (band as i64);
    proof {
        let (pn, pd) = pwm_to_speed.estimate_x_spec(sn as int, band as int);
        let (qn, qd) = normalized(pn, pd);
        assert(pd != 0) by {
            if pd == 0 {
                assert(raw.num * pd == pn * raw.den);
                assert(pn * raw.den == 0);
                assert(pn == 0) by (nonlinear_arith)
                    requires
                        pn * raw.den == 0,
                        raw.den > 0,
                ;
            }
        }
        assert(same_ratio(raw.num as int, raw.den as int, qn, qd)) by (nonlinear_arith)
            requires
                raw.num * pd == pn * raw.den,
                qn == (if pd < 0 { -pn } else { pn }),
                qd == (if pd < 0 { -pd } else { pd }),
        ;
        lemma_same_ratio_le(raw.num as int, raw.den as int, qn, qd, 0);
        lemma_same_ratio_le(raw.num as int, raw.den as int, qn, qd, 255);
        lemma_same_ratio_le(raw.num as int, raw.den as int, qn, qd, duty as int);
        lemma_same_ratio_le(raw.num as int, raw.den as int, qn, qd, duty + 1);
        vstd::arithmetic::div_mod::lemma_fundamental_div_mod(sn as int, band as int);
    }
    (duty, rpm as i32)
}

} // verus!
