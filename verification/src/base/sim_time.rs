use vstd::prelude::*;
use vstd::string::StringExecFns;

verus! {

/// Simulated time, in abstract ticks.
pub type SimTime = i64;

/// `a + b` clamped to the range of `SimTime`.
pub open spec fn saturating_time_add_spec(a: SimTime, b: SimTime) -> SimTime {
    if a + b > i64::MAX {
        i64::MAX
    } else if a + b < i64::MIN {
        i64::MIN
    } else {
        (a + b) as SimTime
    }
}

/// Adds a delay to a time; a result beyond the range of `SimTime` is clamped
/// to its bound, so that rescheduling never overflows.
pub fn saturating_time_add(a: SimTime, b: SimTime) -> (r: SimTime)
    ensures
        r == saturating_time_add_spec(a, b),
{
    match a.checked_add(b) {
        Some(v) => v,
        None => if b > 0 {
            i64::MAX
        } else {
            i64::MIN
        },
    }
}

/// The digits of `n` in base ten, most significant first.
pub open spec fn decimal_digits(n: nat) -> Seq<char>
    decreases n,
{
    if n < 10 {
        seq![digit_char(n)]
    } else {
        decimal_digits(n / 10).push(digit_char(n % 10))
    }
}

/// The character of a decimal digit.
pub open spec fn digit_char(d: nat) -> char {
    (48 + d) as char
}

/// `n` written in base ten, with a leading minus sign when it is negative.
pub open spec fn decimal(n: int) -> Seq<char> {
    if n < 0 {
        seq!['-'] + decimal_digits((-n) as nat)
    } else {
        decimal_digits(n as nat)
    }
}

/// The text of one decimal digit.
fn digit_text(d: u64) -> (r: &'static str)
    requires
        d < 10,
    ensures
        r@ == seq![digit_char(d as nat)],
{
    proof {
        reveal_strlit("0");
        reveal_strlit("1");
        reveal_strlit("2");
        reveal_strlit("3");
        reveal_strlit("4");
        reveal_strlit("5");
        reveal_strlit("6");
        reveal_strlit("7");
        reveal_strlit("8");
        reveal_strlit("9");
    }
    if d == 0 {
        "0"
    } else if d == 1 {
        "1"
    } else if d == 2 {
        "2"
    } else if d == 3 {
        "3"
    } else if d == 4 {
        "4"
    } else if d == 5 {
        "5"
    } else if d == 6 {
        "6"
    } else if d == 7 {
        "7"
    } else if d == 8 {
        "8"
    } else {
        "9"
    }
}

/// Writes `n` in base ten, most significant digit first, without padding.
fn digits_text(n: u64) -> (r: String)
    ensures
        r@ == decimal_digits(n as nat),
    decreases n,
{
    if n < 10 {
        String::from_str(digit_text(n))
    } else {
        let mut text = digits_text(n / 10);
        text.append(digit_text(n % 10));
        text
    }
}

/// Writes a time in base ten, with a leading minus sign when it is negative.
pub(crate) fn time_text(t: SimTime) -> (r: String)
    ensures
        r@ == decimal(t as int),
{
    if t < 0 {
        let magnitude: u64 = if t == i64::MIN {
            9223372036854775808u64
        } else {
            (-t) as u64
        };
        let mut text = String::from_str("-");
        proof {
            reveal_strlit("-");
        }
        text.append(digits_text(magnitude).as_str());
        text
    } else {
        digits_text(t as u64)
    }
}

/// Writes a count in base ten.
pub(crate) fn count_text(n: usize) -> (r: String)
    ensures
        r@ == decimal(n as int),
{
    digits_text(n as u64)
}

} // verus!
