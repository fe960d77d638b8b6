use vstd::prelude::*;

verus! {

/// Duty cycle left on the device when the controller shuts down.
pub const FALLBACK_DUTY: i32 = 150;

/// One write of `contents` to the device file at `path`.
#[derive(Debug)]
pub struct DeviceWrite {
    pub path: String,
    pub contents: String,
}

pub open spec fn digit_char(d: int) -> char {
    if d == 0 {
        '0'
    } else if d == 1 {
        '1'
    } else if d == 2 {
        '2'
    } else if d == 3 {
        '3'
    } else if d == 4 {
        '4'
    } else if d == 5 {
        '5'
    } else if d == 6 {
        '6'
    } else if d == 7 {
        '7'
    } else if d == 8 {
        '8'
    } else {
        '9'
    }
}

/// The decimal digits of `n`, most significant first, without leading zeros.
pub open spec fn decimal(n: nat) -> Seq<char>
    decreases n,
{
    if n < 10 {
        seq![digit_char(n as int)]
    } else {
        decimal(n / 10).push(digit_char((n % 10) as int))
    }
}

/// `v` written in decimal, with a leading `-` when negative.
pub open spec fn signed_decimal(v: int) -> Seq<char> {
    if v < 0 {
        seq!['-'] + decimal((-v) as nat)
    } else {
        decimal(v as nat)
    }
}

/// The path of the enable switch that belongs to the PWM file at `path`.
pub open spec fn enable_path(path: Seq<char>) -> Seq<char> {
    path + seq!['_', 'e', 'n', 'a', 'b', 'l', 'e']
}

fn digit_str(d: u32) -> (r: &'static str)
    requires
        d < 10,
    ensures
        r@ == seq![digit_char(d as int)],
{
    proof {
        reveal_strlit("0");
        reveal_strlit("1");
        reveal_strlit("2");
        reveal_strlit("3");
        reveal_strlit("4");
        reveal_strlit("5");
        reveal_strlit("6");
        reveal_strlit("7");
        reveal_strlit("8");
        reveal_strlit("9");
    }
    if d == 0 {
        "0"
    } else if d == 1 {
        "1"
    } else if d == 2 {
        "2"
    } else if d == 3 {
        "3"
    } else if d == 4 {
        "4"
    } else if d == 5 {
        "5"
    } else if d == 6 {
        "6"
    } else if d == 7 {
        "7"
    } else if d == 8 {
        "8"
    } else {
        "9"
    }
}

fn append_decimal(s: &mut String, n: u32)
    ensures
        final(s)@ == old(s)@ + decimal(n as nat),
    decreases n,
{
    if n >= 10 {
        append_decimal(s, n / 10);
    }
    s.append(digit_str(n % 10));
    assert(s@ =~= old(s)@ + decimal(n as nat));
}

/// `v` in decimal, as the device files expect it.
pub fn decimal_string(v: i32) -> (r: String)
    ensures
        r@ == signed_decimal(v as int),
{
    let mut s = String::new();
    if v < 0 {
        proof {
            reveal_strlit("-");
        }
        s.append("-");
        let m: u32 = (-(v as i64)) as u32;
        append_decimal(&mut s, m);
    } else {
        append_decimal(&mut s, v as u32);
    }
    assert(s@ =~= signed_decimal(v as int));
    s
}

/// The path of the enable switch that belongs to the PWM file at `path`.
pub fn pwm_enable_path(path: &str) -> (r: String)
    ensures
        r@ == enable_path(path@),
{
    proof {
        reveal_strlit("_enable");
    }
    let p = String::from_str(path).concat("_enable");
    assert(p@ =~= enable_path(path@));
    p
}

/// The write that sets the enable switch of the PWM file at `path` to `value`.
pub fn set_pwm_enable(path: &str, value: &str) -> (r: DeviceWrite)
    ensures
        r.path@ == enable_path(path@),
        r.contents@ == value@,
{
    DeviceWrite { path: pwm_enable_path(path), contents: String::from_str(value) }
}

/// The write that hands control of the PWM file at `path` to this program.
pub fn set_pwm_to_manual(path: &str) -> (r: DeviceWrite)
    ensures
        r.path@ == enable_path(path@),
        r.contents@ == seq!['1'],
{
    proof {
        reveal_strlit("1");
    }
    set_pwm_enable(path, "1")
}

/// The write that sets the duty cycle of the PWM file at `path` to `value`.
pub fn set_pwm(path: &str, value: i32) -> (r: DeviceWrite)
    ensures
        r.path@ == path@,
        r.contents@ == signed_decimal(value as int),
{
    DeviceWrite { path: String::from_str(path), contents: decimal_string(value) }
}

} // verus!
