//! Civil dates in the proleptic Gregorian calendar.
//!
//! Time of day and time zones are left out on purpose: `rfc822` pins every
//! date to midnight GMT.
use vstd::prelude::*;

use std::cmp::Ordering;
use vstd::std_specs::cmp::PartialOrdSpecImpl;

use crate::text::{
    chars_of, debug_str, decimal, find_char, find_char_spec, lemma_find_char_bounds, padded,
    parse_i32_at, parse_i32_spec, parse_u32_at, parse_u32_spec, push_decimal, push_padded,
    push_char, push_signed_padded, push_str, signed_padded, str_debug, trim_end, trim_end_pos, trim_start,
    trim_start_pos,
};

verus! {

#[derive(Clone, Copy, PartialEq, Eq, Debug, Structural, Ord)]
pub struct Date {
    y: i32,
    m: u32,
    d: u32,
}

pub const MONTHS: [&'static str; 12] = [
    "Jan", "Feb", "Mar", "Apr", "May", "Jun", "Jul", "Aug", "Sep", "Oct", "Nov", "Dec",
];

pub const WEEKDAYS: [&'static str; 7] = ["Sun", "Mon", "Tue", "Wed", "Thu", "Fri", "Sat"];

pub open spec fn is_leap_spec(y: int) -> bool {
    y % 4 == 0 && (y % 100 != 0 || y % 400 == 0)
}

/// The days in month `m` of year `y`; 0 for a month that does not exist.
pub open spec fn days_in_month_spec(y: int, m: int) -> int {
    if m == 1 || m == 3 || m == 5 || m == 7 || m == 8 || m == 10 || m == 12 {
        31
    } else if m == 4 || m == 6 || m == 9 || m == 11 {
        30
    } else if m == 2 {
        if is_leap_spec(y) { 29 } else { 28 }
    } else {
        0
    }
}

/// Year, month and day name a date that exists.
pub open spec fn valid_ymd(y: int, m: int, d: int) -> bool {
    days_in_month_spec(y, m) != 0 && 1 <= d <= days_in_month_spec(y, m)
}

impl View for Date {
    type V = (int, int, int);

    closed spec fn view(&self) -> (int, int, int) {
        (self.y as int, self.m as int, self.d as int)
    }
}

impl Date {
    #[verifier::type_invariant]
    spec fn exists_in_calendar(self) -> bool {
        valid_ymd(self.y as int, self.m as int, self.d as int)
    }
}

/// `n % k == 0`, for either sign of `n`.
fn divisible(n: i32, k: u64) -> (r: bool)
    requires
        k > 0,
    ensures
        r == (n as int % k as int == 0),
{
    let a: u64 = if n < 0 { (0i64 - n as i64) as u64 } else { n as u64 };
    let r = a % k == 0;
    proof {
        if n < 0 {
            let ai = a as int;
            let ki = k as int;
            assert(n as int == -ai);
            vstd::arithmetic::div_mod::lemma_fundamental_div_mod(ai, ki);
            let q = ai / ki;
            let m = ai % ki;
            if m == 0 {
                assert(-ai == (-q) * ki + 0) by (nonlinear_arith)
                    requires ai == ki * q + m, m == 0;
                vstd::arithmetic::div_mod::lemma_fundamental_div_mod_converse_mod(-ai, ki, -q, 0);
            } else {
                assert(-ai == (-q - 1) * ki + (ki - m)) by (nonlinear_arith)
                    requires ai == ki * q + m;
                vstd::arithmetic::div_mod::lemma_fundamental_div_mod_converse_mod(-ai, ki, -q - 1, ki - m);
            }
        }
    }
    r
}

fn is_leap(y: i32) -> (r: bool)
    ensures
        r == is_leap_spec(y as int),
{
    divisible(y, 4) && (!divisible(y, 100) || divisible(y, 400))
}

fn days_in_month(y: i32, m: u32) -> (r: u32)
    ensures
        r == days_in_month_spec(y as int, m as int),
{
    if m == 1 || m == 3 || m == 5 || m == 7 || m == 8 || m == 10 || m == 12 {
        31
    } else if m == 4 || m == 6 || m == 9 || m == 11 {
        30
    } else if m == 2 {
        if is_leap(y) { 29 } else { 28 }
    } else {
        0
    }
}

/// Why `y-m-d` names no date, if it does not.
pub open spec fn ymd_error(y: int, m: int, d: int) -> Option<Seq<char>> {
    let last = days_in_month_spec(y, m);
    if last == 0 {
        Some("month out of range: "@ + decimal(m as nat))
    } else if !(1 <= d <= last) {
        Some(
            "day out of range for "@ + signed_padded(y, 4) + "-"@ + padded(m as nat, 2) + ": "@
                + decimal(d as nat),
        )
    } else {
        None
    }
}

/// Where the date part of `s` ends: at the first `T` or space.
pub open spec fn date_end(s: Seq<char>, k: int) -> int
    decreases s.len() - k,
{
    if !(0 <= k < s.len()) {
        s.len() as int
    } else if s[k] == 'T' || s[k] == ' ' {
        k
    } else {
        date_end(s, k + 1)
    }
}

/// `s[a..b]` with whitespace trimmed from both ends.
pub open spec fn trimmed(s: Seq<char>, a: int, b: int) -> Seq<char> {
    let t = trim_start_pos(s, a, b);
    s.subrange(t, trim_end_pos(s, t, b))
}

pub open spec fn shape_error(s: Seq<char>) -> Seq<char> {
    "expected date as YYYY-MM-DD, got "@ + str_debug(s)
}

pub open spec fn field_error(s: Seq<char>, name: Seq<char>) -> Seq<char> {
    "invalid "@ + name + " in date "@ + str_debug(s)
}

/// What `Date::parse` reads from `s`: year, month and day, or why not.
pub open spec fn parse_spec(s: Seq<char>) -> Result<(int, int, int), Seq<char>> {
    let dp = date_end(s, 0);
    match find_char_spec(s, 0, dp, '-') {
        None => Err(shape_error(s)),
        Some(h1) => match find_char_spec(s, h1 + 1, dp, '-') {
            None => Err(shape_error(s)),
            Some(h2) => if find_char_spec(s, h2 + 1, dp, '-') is Some {
                Err(shape_error(s))
            } else {
                match parse_i32_spec(trimmed(s, 0, h1)) {
                    None => Err(field_error(s, "year"@)),
                    Some(y) => match parse_u32_spec(trimmed(s, h1 + 1, h2)) {
                        None => Err(field_error(s, "month"@)),
                        Some(m) => match parse_u32_spec(trimmed(s, h2 + 1, dp)) {
                            None => Err(field_error(s, "day"@)),
                            Some(d) => match ymd_error(y as int, m as int, d as int) {
                                Some(e) => Err(e + " in date "@ + str_debug(s)),
                                None => Ok((y as int, m as int, d as int)),
                            },
                        },
                    },
                }
            },
        },
    }
}

/// Four ASCII digits, a dash, two digits, a dash and two digits, naming a
/// real date.
pub open spec fn ymd_text(s: Seq<char>) -> bool {
    &&& s.len() == 10
    &&& s[4] == '-'
    &&& s[7] == '-'
    &&& forall|k: int| 0 <= k < 10 && k != 4 && k != 7 ==> crate::text::is_ascii_digit(#[trigger] s[k])
    &&& valid_ymd(ymd_fields(s).0, ymd_fields(s).1, ymd_fields(s).2)
}

/// The year, month and day that the digits of a `YYYY-MM-DD` text stand for.
pub open spec fn ymd_fields(s: Seq<char>) -> (int, int, int) {
    (
        crate::text::digits_value(s.subrange(0, 4)) as int,
        crate::text::digits_value(s.subrange(5, 7)) as int,
        crate::text::digits_value(s.subrange(8, 10)) as int,
    )
}

/// Zeller's congruence, counted from Sunday. Division here rounds toward
/// negative infinity, so the formula holds for every year of the proleptic
/// calendar, before year 0 too.
pub open spec fn weekday_spec(y: int, m: int, d: int) -> int {
    let mm = if m < 3 { m + 12 } else { m };
    let yy = if m < 3 { y - 1 } else { y };
    let k = yy % 100;
    let j = yy / 100;
    let h = (d + (13 * (mm + 1)) / 5 + k + k / 4 + j / 4 + 5 * j) % 7;
    (h + 6) % 7
}

/// A year as chrono's `%Y` writes it: four digits from 0 to 9999, and
/// otherwise a sign before at least four digits.
pub open spec fn year_text(y: int) -> Seq<char> {
    if 0 <= y < 10000 {
        padded(y as nat, 4)
    } else if y < 0 {
        seq!['-'] + padded((-y) as nat, 4)
    } else {
        seq!['+'] + padded(y as nat, 4)
    }
}

/// Appends `y` as `year_text` writes it.
pub fn push_year(out: &mut String, y: i32)
    ensures
        final(out)@ == old(out)@ + year_text(y as int),
{
    let ghost start = out@;
    if 0 <= y && y < 10000 {
        push_padded(out, y as u64, 4);
    } else if y < 0 {
        push_char(out, '-');
        push_padded(out, (0 - (y as i64)) as u64, 4);
        assert(out@ =~= start + year_text(y as int));
    } else {
        push_char(out, '+');
        push_padded(out, y as u64, 4);
        assert(out@ =~= start + year_text(y as int));
    }
}

/// Quotient and remainder of `a` by `b`, rounded toward negative infinity.
fn floor_div_mod(a: i64, b: i64) -> (r: (i64, i64))
    requires
        0 < b < 1000,
        -1000000000000 < a < 1000000000000,
    ensures
        r.0 == a as int / b as int,
        r.1 == a as int % b as int,
        0 <= r.1 < b,
        -1000000000000 <= r.0 <= 1000000000000,
{
    let ghost ai = a as int;
    let ghost bi = b as int;
    let q: i64 = if a >= 0 {
        let t = (a as u64) / (b as u64);
        proof {
            vstd::arithmetic::div_mod::lemma_div_is_ordered_by_denominator(ai, 1, bi);
        }
        t as i64
    } else {
        let n = (0 - a - 1) as u64;
        let t = n / (b as u64);
        proof {
            let ni = n as int;
            let ti = t as int;
            vstd::arithmetic::div_mod::lemma_fundamental_div_mod(ni, bi);
            vstd::arithmetic::div_mod::lemma_mod_bound(ni, bi);
            vstd::arithmetic::div_mod::lemma_div_is_ordered_by_denominator(ni, 1, bi);
            let rr = ni % bi;
            assert((-ti - 1) * bi + (bi - rr - 1) == -(bi * ti + rr) - 1) by (nonlinear_arith);
            vstd::arithmetic::div_mod::lemma_fundamental_div_mod_converse(ai, bi, -ti - 1, bi - rr - 1);
        }
        0 - (t as i64) - 1
    };
    proof {
        vstd::arithmetic::div_mod::lemma_fundamental_div_mod(ai, bi);
        vstd::arithmetic::div_mod::lemma_mod_bound(ai, bi);
        assert(-1000000000000 * 1000 <= bi * (q as int) <= 1000000000000 * 1000) by (nonlinear_arith)
            requires -1000000000000 <= q <= 1000000000000, 0 < bi < 1000;
    }
    (q, a - b * q)
}

impl Date {
    /// The date `y-m-d`, if it exists.
    pub fn from_ymd(y: i32, m: u32, d: u32) -> (r: Result<Date, String>)
        ensures
            match r {
                Ok(date) => ymd_error(y as int, m as int, d as int) is None && date@ == (
                    y as int,
                    m as int,
                    d as int,
                ),
                Err(e) => ymd_error(y as int, m as int, d as int) == Some(e@),
            },
            r is Ok <==> valid_ymd(y as int, m as int, d as int),
    {
        let last = days_in_month(y, m);
        if last == 0 {
            let mut e = String::new();
            push_str(&mut e, "month out of range: ");
            push_decimal(&mut e, m as u64);
            return Err(e);
        }
        if !(1 <= d && d <= last) {
            let mut e = String::new();
            push_str(&mut e, "day out of range for ");
            push_signed_padded(&mut e, y as i64, 4);
            push_str(&mut e, "-");
            push_padded(&mut e, m as u64, 2);
            push_str(&mut e, ": ");
            push_decimal(&mut e, d as u64);
            return Err(e);
        }
        Ok(Date { y, m, d })
    }

    /// Reads `YYYY-MM-DD`, ignoring a time that follows after a `T` or a space.
    pub fn parse(s: &str) -> (r: Result<Date, String>)
        ensures
            match (r, parse_spec(s@)) {
                (Ok(date), Ok(v)) => date@ == v,
                (Err(e), Err(msg)) => e@ == msg,
                _ => false,
            },
    {
        let cs = chars_of(s);
        let ghost t = cs@;
        let mut dp: usize = 0;
        while dp < cs.len() && cs[dp] != 'T' && cs[dp] != ' '
            invariant
                dp <= cs@.len(),
                date_end(t, 0) == date_end(t, dp as int),
                t == cs@,
            decreases cs@.len() - dp,
        {
            dp += 1;
        }
        proof { lemma_find_char_bounds(t, 0, dp as int, '-'); }
        let h1 = match find_char(&cs, 0, dp, '-') {
            None => return Err(shape(s)),
            Some(k) => k,
        };
        proof { lemma_find_char_bounds(t, h1 + 1, dp as int, '-'); }
        let h2 = match find_char(&cs, h1 + 1, dp, '-') {
            None => return Err(shape(s)),
            Some(k) => k,
        };
        proof { lemma_find_char_bounds(t, h2 + 1, dp as int, '-'); }
        if find_char(&cs, h2 + 1, dp, '-').is_some() {
            return Err(shape(s));
        }
        let a = trim_start(&cs, 0, h1);
        let y = match parse_i32_at(&cs, a, trim_end(&cs, a, h1)) {
            None => return Err(invalid(s, "year")),
            Some(v) => v,
        };
        let a = trim_start(&cs, h1 + 1, h2);
        let m = match parse_u32_at(&cs, a, trim_end(&cs, a, h2)) {
            None => return Err(invalid(s, "month")),
            Some(v) => v,
        };
        let a = trim_start(&cs, h2 + 1, dp);
        let d = match parse_u32_at(&cs, a, trim_end(&cs, a, dp)) {
            None => return Err(invalid(s, "day")),
            Some(v) => v,
        };
        match Date::from_ymd(y, m, d) {
            Ok(date) => Ok(date),
            Err(e) => {
                let mut msg = e;
                push_str(&mut msg, " in date ");
                let q = debug_str(s);
                push_str(&mut msg, q.as_str());
                Err(msg)
            },
        }
    }

    /// `YYYY-MM-DD`.
    pub fn iso(&self) -> (r: String)
        ensures
            r@ == signed_padded(self@.0, 4) + "-"@ + padded(self@.1 as nat, 2) + "-"@ + padded(
                self@.2 as nat,
                2,
            ),
    {
        proof { use_type_invariant(self); }
        let mut out = String::new();
        push_signed_padded(&mut out, self.y as i64, 4);
        push_str(&mut out, "-");
        push_padded(&mut out, self.m as u64, 2);
        push_str(&mut out, "-");
        push_padded(&mut out, self.d as u64, 2);
        out
    }

    /// `YYYY · MM · DD`, the year as chrono's `%Y` writes it.
    pub fn dotted(&self) -> (r: String)
        ensures
            r@ == year_text(self@.0) + " · "@ + padded(self@.1 as nat, 2) + " · "@ + padded(
                self@.2 as nat,
                2,
            ),
    {
        let mut out = String::new();
        push_year(&mut out, self.y);
        push_str(&mut out, " · ");
        push_padded(&mut out, self.m as u64, 2);
        push_str(&mut out, " · ");
        push_padded(&mut out, self.d as u64, 2);
        out
    }

    /// The day of the week, counted from Sunday.
    fn weekday(&self) -> (r: usize)
        ensures
            r == weekday_spec(self@.0, self@.1, self@.2),
            r < 7,
    {
        proof { use_type_invariant(self); }
        let y = self.y as i64;
        let m = self.m as i64;
        let mm = if m < 3 { m + 12 } else { m };
        let y = if m < 3 { y - 1 } else { y };
        let (j, k) = floor_div_mod(y, 100);
        let (kq, _) = floor_div_mod(k, 4);
        let (jq, _) = floor_div_mod(j, 4);
        let (_, h) = floor_div_mod(self.d as i64 + (13 * (mm + 1)) / 5 + k + kq + jq + 5 * j, 7);
        let (_, w) = floor_div_mod(h + 6, 7);
        w as usize
    }

    /// `Www, DD Mon YYYY 00:00:00 GMT`.
    pub fn rfc822(&self) -> (r: String)
        ensures
            r@ == WEEKDAYS@[weekday_spec(self@.0, self@.1, self@.2)]@ + ", "@ + padded(
                self@.2 as nat,
                2,
            ) + " "@ + MONTHS@[self@.1 - 1]@ + " "@ + year_text(self@.0) + " 00:00:00 GMT"@,
    {
        proof { use_type_invariant(self); }
        let w = self.weekday();
        let mut out = String::new();
        push_str(&mut out, WEEKDAYS[w]);
        push_str(&mut out, ", ");
        push_padded(&mut out, self.d as u64, 2);
        push_str(&mut out, " ");
        push_str(&mut out, MONTHS[(self.m - 1) as usize]);
        push_str(&mut out, " ");
        push_year(&mut out, self.y);
        push_str(&mut out, " 00:00:00 GMT");
        out
    }
}

fn shape(s: &str) -> (r: String)
    ensures
        r@ == shape_error(s@),
{
    let mut out = String::new();
    push_str(&mut out, "expected date as YYYY-MM-DD, got ");
    let q = debug_str(s);
    push_str(&mut out, q.as_str());
    out
}

fn invalid(s: &str, name: &str) -> (r: String)
    ensures
        r@ == field_error(s@, name@),
{
    let mut out = String::new();
    push_str(&mut out, "invalid ");
    push_str(&mut out, name);
    push_str(&mut out, " in date ");
    let q = debug_str(s);
    push_str(&mut out, q.as_str());
    out
}


/// Whether `a` comes before `b`: by year, then month, then day.
pub open spec fn before(a: (int, int, int), b: (int, int, int)) -> bool {
    a.0 < b.0 || (a.0 == b.0 && (a.1 < b.1 || (a.1 == b.1 && a.2 < b.2)))
}

impl PartialOrd for Date {
    fn partial_cmp(&self, o: &Self) -> (r: Option<Ordering>) {
        if self.y < o.y || (self.y == o.y && (self.m < o.m || (self.m == o.m && self.d < o.d))) {
            Some(Ordering::Less)
        } else if self.y == o.y && self.m == o.m && self.d == o.d {
            Some(Ordering::Equal)
        } else {
            Some(Ordering::Greater)
        }
    }
}

impl PartialOrdSpecImpl for Date {
    open spec fn obeys_partial_cmp_spec() -> bool {
        true
    }

    open spec fn partial_cmp_spec(&self, other: &Self) -> Option<Ordering> {
        if before(self@, other@) {
            Some(Ordering::Less)
        } else if self@ == other@ {
            Some(Ordering::Equal)
        } else {
            Some(Ordering::Greater)
        }
    }
}

} // verus!
