use vstd::prelude::*;

verus! {

/// Group 1 of the leftmost match of the regular expression `pattern` in
/// `text`, or `None` where the pattern does not compile, nothing matches, or
/// the group takes no part in the match.
pub uninterp spec fn first_capture(pattern: Seq<char>, text: Seq<char>) -> Option<Seq<char>>;

/// Relies on `regex::Regex::new` and `regex::Regex::captures`: compiling
/// `pattern` and taking group 1 of its leftmost match in `text`, a function
/// of the two strings alone.
#[verifier::external_body]
fn capture_group_one(pattern: &str, text: &str) -> (r: Option<String>)
    ensures
        match r {
            Some(s) => first_capture(pattern@, text@) == Some(s@),
            None => first_capture(pattern@, text@) is None,
        },
{
    let re = regex::Regex::new(pattern).ok()?;
    let caps = re.captures(text)?;
    caps.get(1).map(|m| m.as_str().to_string())
}

/// The value of a string of ASCII decimal digits.
pub open spec fn digits_value(s: Seq<char>) -> int
    decreases s.len(),
{
    if s.len() == 0 {
        0
    } else {
        digits_value(s.drop_last()) * 10 + (s.last() as int - '0' as int)
    }
}

pub open spec fn all_ascii_digits(s: Seq<char>) -> bool {
    forall|i: int| 0 <= i < s.len() ==> '0' <= #[trigger] s[i] <= '9'
}

/// A decimal `i32`: an optional `+` or `-`, then at least one ASCII digit,
/// with the value in range.
pub open spec fn parsed_i32(s: Seq<char>) -> Option<i32> {
    let signed = s.len() > 0 && (s[0] == '-' || s[0] == '+');
    let body = if signed {
        s.drop_first()
    } else {
        s
    };
    let v = if s.len() > 0 && s[0] == '-' {
        -digits_value(body)
    } else {
        digits_value(body)
    };
    if body.len() > 0 && all_ascii_digits(body) && i32::MIN <= v <= i32::MAX {
        Some(v as i32)
    } else {
        None
    }
}

/// Relies on `str::parse::<i32>`: std's `FromStr` for `i32` accepts exactly
/// an optional sign followed by ASCII digits whose value fits.
#[verifier::external_body]
fn parse_i32(s: &str) -> (r: Option<i32>)
    ensures
        r == parsed_i32(s@),
{
    s.parse::<i32>().ok()
}

/// The pattern that finds a temperature such as `41°C` in a probe's line.
pub open spec fn temperature_pattern() -> Seq<char> {
    seq!['(', '\\', 'd', '+', ')', '\u{b0}', 'C']
}

/// The temperature a probe's output line reports: the digits in front of
/// the first `°C`, read as an `i32`.
pub open spec fn line_temperature(line: Seq<char>) -> Option<i32> {
    match first_capture(temperature_pattern(), line) {
        Some(digits) => parsed_i32(digits),
        None => None,
    }
}

/// Reads the temperature from one line of the probe's output.
pub fn parse_temperature_line(line: &str) -> (r: Option<i32>)
    ensures
        r == line_temperature(line@),
{
    let pattern = "(\\d+)\u{b0}C";
    proof {
        reveal_strlit("(\\d+)\u{b0}C");
        assert(pattern@ =~= temperature_pattern());
    }
    match capture_group_one(pattern, line) {
        Some(digits) => parse_i32(digits.as_str()),
        None => None,
    }
}

/// Reads one temperature from each line of the probe's output; `None` as
/// soon as a line holds none.
pub fn parse_temperatures(lines: &Vec<String>) -> (r: Option<Vec<i32>>)
    ensures
        match r {
            Some(t) => t@.len() == lines@.len() && forall|i: int|
                0 <= i < lines@.len() ==> line_temperature(#[trigger] lines@[i]@) == Some(t@[i]),
            None => exists|i: int|
                0 <= i < lines@.len() && #[trigger] line_temperature(lines@[i]@) is None,
        },
{
    let mut out: Vec<i32> = Vec::new();
    let mut k: usize = 0;
    while k < lines.len()
        invariant
            k <= lines@.len(),
            out@.len() == k,
            forall|i: int| 0 <= i < k ==> line_temperature(#[trigger] lines@[i]@) == Some(out@[i]),
        decreases lines.len() - k,
    {
        match parse_temperature_line(lines[k].as_str()) {
            Some(t) => out.push(t),
            None => {
                assert(line_temperature(lines@[k as int]@) is None);
                return None;
            },
        }
        k = k + 1;
    }
    Some(out)
}

/// The highest of the readings, which is the one that drives the fan.
pub fn max_temperature(temps: &Vec<i32>) -> (r: Option<i32>)
    ensures
        temps@.len() == 0 <==> r is None,
        r matches Some(m) ==> temps@.contains(m) && forall|i: int|
            0 <= i < temps@.len() ==> #[trigger] temps@[i] <= m,
{
    if temps.len() == 0 {
        return None;
    }
    let mut m = temps[0];
    let mut k: usize = 1;
    while k < temps.len()
        invariant
            1 <= k <= temps@.len(),
            temps@.contains(m),
            forall|i: int| 0 <= i < k ==> #[trigger] temps@[i] <= m,
        decreases temps.len() - k,
    {
        if temps[k] > m {
            m = temps[k];
        }
        k = k + 1;
    }
    Some(m)
}

} // verus!
