//! Saved clocks: small records of a city and its timezone, each under a
//! fresh identifier drawn from the wall clock at creation time. Their
//! persistence lives outside the library.

use vstd::prelude::*;

use vstd::string::StringExecFns;

verus! {

/// One saved clock.
pub struct Clock {
    pub id: String,
    pub city_name: String,
    pub timezone: String,
}

/// The decimal digits of a non-negative number, most significant first.
pub open spec fn decimal_digits(n: int) -> Seq<char>
    decreases n,
{
    if n < 10 {
        seq![digit_char(n)]
    } else {
        decimal_digits(n / 10).push(digit_char(n % 10))
    }
}

/// The character of one decimal digit.
pub open spec fn digit_char(d: int) -> char {
    if d == 0 {
        '0'
    } else if d == 1 {
        '1'
    } else if d == 2 {
        '2'
    } else if d == 3 {
        '3'
    } else if d == 4 {
        '4'
    } else if d == 5 {
        '5'
    } else if d == 6 {
        '6'
    } else if d == 7 {
        '7'
    } else if d == 8 {
        '8'
    } else {
        '9'
    }
}

/// Relies on std::time::SystemTime::now: the nanoseconds since the Unix
/// epoch, or 0 should the clock stand before it; nothing is promised of
/// the value.
#[verifier::external_body]
fn epoch_nanos() -> (r: u128) {
    std::time::SystemTime::now()
        .duration_since(std::time::UNIX_EPOCH)
        .map(|d| d.as_nanos())
        .unwrap_or(0)
}

/// Relies on the decimal formatting of u128: the digits of `n`, most
/// significant first.
#[verifier::external_body]
fn decimal_string(n: u128) -> (r: String)
    ensures
        r@ == decimal_digits(n as int),
{
    format!("{}", n)
}

/// A fresh identifier from the current time: "clock_" and the nanosecond
/// timestamp in decimal.
fn generate_unique_id() -> (r: String)
    ensures
        exists|n: int| n >= 0 && r@ == "clock_"@ + decimal_digits(n),
{
    let t = epoch_nanos();
    let digits = decimal_string(t);
    let mut s = "clock_".to_owned();
    s.append(digits.as_str());
    proof {
        assert(t as int >= 0 && s@ == "clock_"@ + decimal_digits(t as int));
    }
    s
}

impl Clock {
    /// A new clock for the city and timezone, under a fresh identifier.
    pub fn new(city_name: String, timezone: String) -> (r: Clock)
        ensures
            r.city_name == city_name,
            r.timezone == timezone,
            exists|n: int| n >= 0 && r.id@ == "clock_"@ + decimal_digits(n),
    {
        let id = generate_unique_id();
        Clock { id, city_name, timezone }
    }
}

} // verus!
