//! The year, from the number of seconds since the Unix epoch.
use vstd::prelude::*;

verus! {

pub open spec fn is_leap_spec(year: int) -> bool {
    (year % 4 == 0 && year % 100 != 0) || year % 400 == 0
}

/// The year that `days_left` days into `year` falls in.
pub open spec fn year_after(year: int, days_left: int) -> int
    decreases days_left,
{
    let len = if is_leap_spec(year) { 366int } else { 365int };
    if days_left < len {
        year
    } else {
        year_after(year + 1, days_left - len)
    }
}

fn divisible(n: i32, k: i32) -> (r: bool)
    requires
        n >= 1970,
        k > 0,
    ensures
        r == (n as int % k as int == 0),
{
    (n as u32) % (k as u32) == 0
}

fn is_leap(year: i32) -> (r: bool)
    requires
        year >= 1970,
    ensures
        r == is_leap_spec(year as int),
{
    (divisible(year, 4) && !divisible(year, 100)) || divisible(year, 400)
}

/// The year `secs` seconds after the start of 1970, in UTC. The day count is
/// taken as an `i32`, as the calendar arithmetic is.
pub fn year_from_unix_secs(secs: u64) -> (r: i32)
    ensures
        r == year_after(1970, ((secs / 86400) as i32) as int),
{
    let mut year: i32 = 1970;
    let mut days: i32 = (secs / 86400) as i32;
    loop
        invariant
            1970 <= year,
            year > 1970 ==> days >= 0,
            (year - 1970) * 365 <= ((secs / 86400) as i32) as int - days,
            year_after(1970, ((secs / 86400) as i32) as int) == year_after(year as int, days as int),
        ensures
            year_after(1970, ((secs / 86400) as i32) as int) == year as int,
        decreases days,
    {
        let len: i32 = if is_leap(year) { 366 } else { 365 };
        if days < len {
            break;
        }
        days = days - len;
        year = year + 1;
    }
    year
}

} // verus!
