//! Calendar arithmetic and the parsing of `YYYY-MM-DD` dates into points in
//! time.
use vstd::prelude::*;
use vstd::arithmetic::div_mod::{lemma_fundamental_div_mod, lemma_fundamental_div_mod_converse};
use crate::error::{CliError, is_message, message};
use crate::text::{chars_of, decimal, digit_char, push_char, push_decimal, split, split_ranges, trim, trim_bounds, string_of};

verus! {

/// The date format the user is asked for.
pub const DATE_FORMAT: &'static str = "YYYY-MM-DD";

/// A point in time: whole seconds since the Unix epoch (negative before it)
/// and the nanoseconds within that second.
#[derive(Debug, Clone, Copy, PartialEq, Eq)]
pub struct Timestamp {
    pub secs: i64,
    pub nanos: u32,
}

/// `a` is strictly earlier than `b` (the order of `SystemTime`).
pub open spec fn is_earlier(a: Timestamp, b: Timestamp) -> bool {
    a.secs < b.secs || (a.secs == b.secs && a.nanos < b.nanos)
}

impl Timestamp {
    /// Whether `self` is strictly earlier than `other`.
    pub fn is_before(&self, other: &Timestamp) -> (r: bool)
        ensures
            r == is_earlier(*self, *other),
    {
        self.secs < other.secs || (self.secs == other.secs && self.nanos < other.nanos)
    }
}

// ---------------------------------------------------------------------------
// The proleptic Gregorian calendar.

/// Whether `year` is a leap year.
pub open spec fn is_leap(year: int) -> bool {
    (year % 4 == 0 && year % 100 != 0) || year % 400 == 0
}

/// The number of days of `month` (1 to 12) in `year`; 0 for any other month.
pub open spec fn month_len(year: int, month: int) -> int {
    if month == 1 || month == 3 || month == 5 || month == 7 || month == 8 || month == 10 || month
        == 12 {
        31
    } else if month == 4 || month == 6 || month == 9 || month == 11 {
        30
    } else if month == 2 {
        if is_leap(year) {
            29
        } else {
            28
        }
    } else {
        0
    }
}

/// The number of days of `year`.
pub open spec fn year_len(year: int) -> int {
    if is_leap(year) {
        366
    } else {
        365
    }
}

/// Whether `(year, month, day)` names a day of the calendar.
pub open spec fn is_valid_date(year: int, month: int, day: int) -> bool {
    1 <= month <= 12 && 1 <= day <= month_len(year, month)
}

/// The number of days from 1 January 1970 to 1 January of `year`
/// (negative for earlier years).
pub open spec fn days_before_year(year: int) -> int
    decreases (if year >= 1970 {
        year - 1970
    } else {
        1970 - year
    }),
{
    if year == 1970 {
        0
    } else if year > 1970 {
        days_before_year(year - 1) + year_len(year - 1)
    } else {
        days_before_year(year + 1) - year_len(year)
    }
}

/// The number of days of `year` before the first of `month`.
pub open spec fn days_before_month(year: int, month: int) -> int
    decreases month,
{
    if month <= 1 {
        0
    } else {
        days_before_month(year, month - 1) + month_len(year, month - 1)
    }
}

/// The number of days from 1 January 1970 to the given day.
pub open spec fn civil_day_number(year: int, month: int, day: int) -> int {
    days_before_year(year) + days_before_month(year, month) + day - 1
}

/// The day after a valid date.
pub open spec fn next_date(year: int, month: int, day: int) -> (int, int, int) {
    if day < month_len(year, month) {
        (year, month, day + 1)
    } else if month < 12 {
        (year, month + 1, 1)
    } else {
        (year + 1, 1, 1)
    }
}

/// The day number that `days_from_civil` computes for any input: days are
/// counted from 1 March of year 0 in years that begin in March, then moved
/// to the 1970 epoch.
pub open spec fn civil_formula(year: int, month: int, day: int) -> int {
    let y = if month <= 2 {
        year - 1
    } else {
        year
    };
    let mp = if month > 2 {
        month - 3
    } else {
        month + 9
    };
    365 * y + y / 4 - y / 100 + y / 400 + (153 * mp + 2) / 5 + day - 1 - 719468
}

/// The number of leap years in `[0, year)`, counted negatively below 0.
spec fn leaps_before(year: int) -> int {
    (year + 3) / 4 - (year + 99) / 100 + (year + 399) / 400
}

proof fn lemma_ceil_step(y: int, d: int)
    requires
        d > 0,
    ensures
        (y + d) / d == y / d + 1,
        (y + d) / d - (y + d - 1) / d == if y % d == 0 {
            1int
        } else {
            0int
        },
{
    let q = y / d;
    let r = y % d;
    lemma_fundamental_div_mod(y, d);
    assert(0 <= r < d);
    assert(d * (q + 1) == d * q + d) by (nonlinear_arith);
    assert((q + 1) * d == d * (q + 1)) by (nonlinear_arith);
    assert(q * d == d * q) by (nonlinear_arith);
    lemma_fundamental_div_mod_converse(y + d, d, q + 1, r);
    if r == 0 {
        lemma_fundamental_div_mod_converse(y + d - 1, d, q, d - 1);
    } else {
        lemma_fundamental_div_mod_converse(y + d - 1, d, q + 1, r - 1);
    }
}

proof fn lemma_divides_chain(y: int)
    ensures
        y % 400 == 0 ==> y % 100 == 0,
        y % 100 == 0 ==> y % 4 == 0,
{
    lemma_fundamental_div_mod(y, 400);
    lemma_fundamental_div_mod(y, 100);
    if y % 400 == 0 {
        lemma_fundamental_div_mod_converse(y, 100, 4 * (y / 400), 0);
    }
    if y % 100 == 0 {
        lemma_fundamental_div_mod_converse(y, 4, 25 * (y / 100), 0);
    }
}

proof fn lemma_leaps_step(year: int)
    ensures
        leaps_before(year + 1) == leaps_before(year) + if is_leap(year) {
            1int
        } else {
            0int
        },
        leaps_before(year + 1) - 1 == year / 4 - year / 100 + year / 400,
{
    lemma_ceil_step(year, 4);
    lemma_ceil_step(year, 100);
    lemma_ceil_step(year, 400);
    lemma_divides_chain(year);
    assert(leaps_before(year + 1) == (year + 4) / 4 - (year + 100) / 100 + (year + 400) / 400);
}

proof fn lemma_days_before_year(year: int)
    ensures
        days_before_year(year) == 365 * (year - 1970) + leaps_before(year) - 478,
    decreases (if year >= 1970 {
        year - 1970
    } else {
        1970 - year
    }),
{
    if year == 1970 {
        assert(leaps_before(1970) == 478);
    } else if year > 1970 {
        lemma_days_before_year(year - 1);
        lemma_leaps_step(year - 1);
    } else {
        lemma_days_before_year(year + 1);
        lemma_leaps_step(year);
    }
}

proof fn lemma_days_before_month(year: int, month: int)
    requires
        1 <= month <= 12,
    ensures
        month <= 2 ==> days_before_month(year, month) == 31 * (month - 1),
        month > 2 ==> days_before_month(year, month) == 59 + (if is_leap(year) {
            1int
        } else {
            0int
        }) + (153 * (month - 3) + 2) / 5,
{
    reveal_with_fuel(days_before_month, 12);
}

/// For a month of the calendar, the closed formula counts the days since
/// 1 January 1970.
proof fn lemma_civil_formula(year: int, month: int, day: int)
    requires
        1 <= month <= 12,
    ensures
        civil_formula(year, month, day) == civil_day_number(year, month, day),
{
    lemma_days_before_month(year, month);
    lemma_days_before_year(year);
    if month <= 2 {
        lemma_leaps_step(year - 1);
    } else {
        lemma_leaps_step(year);
    }
}

/// Consecutive days of the calendar have consecutive day numbers, and day
/// number 0 is 1 January 1970.
pub proof fn lemma_next_day_number(year: int, month: int, day: int)
    requires
        is_valid_date(year, month, day),
    ensures
        is_valid_date(next_date(year, month, day).0, next_date(year, month, day).1, next_date(year, month, day).2),
        civil_day_number(next_date(year, month, day).0, next_date(year, month, day).1, next_date(year, month, day).2)
            == civil_day_number(year, month, day) + 1,
        civil_day_number(1970, 1, 1) == 0,
{
    if day >= month_len(year, month) && month == 12 {
        lemma_days_before_month(year, 12);
        assert(days_before_year(year + 1) == days_before_year(year) + year_len(year));
    }
}

/// The last second of a day is followed by the first second of the next
/// day.
pub proof fn lemma_day_boundaries(year: int, month: int, day: int)
    requires
        is_valid_date(year, month, day),
    ensures
        date_seconds(next_date(year, month, day).0, next_date(year, month, day).1, next_date(year, month, day).2, false)
            == date_seconds(year, month, day, true) + 1,
        date_seconds(year, month, day, true) == date_seconds(year, month, day, false) + 86399,
{
    lemma_next_day_number(year, month, day);
}

proof fn lemma_divisible_negated(x: int, d: int)
    requires
        d > 0,
    ensures
        (x % d == 0) <==> ((-x) % d == 0),
{
    lemma_fundamental_div_mod(x, d);
    lemma_fundamental_div_mod(-x, d);
    let q = x / d;
    let p = (-x) / d;
    if x % d == 0 {
        assert((-q) * d == -(d * q)) by (nonlinear_arith);
        lemma_fundamental_div_mod_converse(-x, d, -q, 0);
    }
    if (-x) % d == 0 {
        assert((-p) * d == -(d * p)) by (nonlinear_arith);
        lemma_fundamental_div_mod_converse(x, d, -p, 0);
    }
}

/// Whether `year` is divisible by the positive `d`.
fn divisible(year: i32, d: i32) -> (r: bool)
    requires
        d > 0,
    ensures
        r == (year as int % d as int == 0),
{
    let magnitude: u64 = if year < 0 {
        (-(year as i64)) as u64
    } else {
        year as u64
    };
    let m = magnitude % (d as u64);
    proof {
        lemma_divisible_negated(year as int, d as int);
    }
    m == 0
}

/// Whether `year` is a leap year.
pub fn is_leap_year(year: i32) -> (r: bool)
    ensures
        r == is_leap(year as int),
{
    (divisible(year, 4) && !divisible(year, 100)) || divisible(year, 400)
}

/// The number of days of `month` in `year` (0 when `month` is not 1 to 12).
pub fn days_in_month(year: i32, month: u32) -> (r: u32)
    ensures
        r == month_len(year as int, month as int),
{
    match month {
        1 | 3 | 5 | 7 | 8 | 10 | 12 => 31,
        4 | 6 | 9 | 11 => 30,
        2 => if is_leap_year(year) {
            29
        } else {
            28
        },
        _ => 0,
    }
}

/// The day number of `(year, month, day)` counted from 1 January 1970.
pub fn days_from_civil(year: i32, month: u32, day: u32) -> (r: i64)
    ensures
        r == civil_formula(year as int, month as int, day as int),
        is_valid_date(year as int, month as int, day as int) ==> r == civil_day_number(
            year as int,
            month as int,
            day as int,
        ),
        -1_000_000_000_000 <= r <= 1_000_000_000_000,
{
    let year: i64 = year as i64 - if month <= 2 {
        1
    } else {
        0
    };
    let era: i64 = if year >= 0 {
        year / 400
    } else {
        -((-year + 399) / 400)
    };
    let year_of_era = year - era * 400;
    proof {
        let y = year as int;
        if y >= 0 {
            lemma_fundamental_div_mod_converse(y, 400, y / 400, y % 400);
        } else {
            lemma_fundamental_div_mod_converse(-y + 399, 400, (-y + 399) / 400, (-y + 399) % 400);
            lemma_fundamental_div_mod_converse(y, 400, y / 400, y % 400);
        }
        assert(era == y / 400);
        assert(0 <= year_of_era < 400);
    }
    let month = month as i64;
    let day = day as i64;
    let month_from_march: i64 = month + if month > 2 {
        -3
    } else {
        9
    };
    let day_of_year = (153 * month_from_march + 2) / 5 + day - 1;
    let day_of_era = year_of_era * 365 + year_of_era / 4 - year_of_era / 100 + day_of_year;
    proof {
        let y = year as int;
        let e = era as int;
        let q = year_of_era as int;
        lemma_fundamental_div_mod_converse(y, 4, 100 * e + q / 4, q % 4);
        lemma_fundamental_div_mod_converse(q, 4, q / 4, q % 4);
        lemma_fundamental_div_mod_converse(y, 100, 4 * e + q / 100, q % 100);
        lemma_fundamental_div_mod_converse(q, 100, q / 100, q % 100);
        lemma_fundamental_div_mod_converse(y, 400, e, q);
        if is_valid_date(year as int + if month <= 2 {
            1int
        } else {
            0int
        }, month as int, day as int) {
            lemma_civil_formula(
                year as int + if month <= 2 {
                    1int
                } else {
                    0int
                },
                month as int,
                day as int,
            );
        }
    }
    era * 146_097 + day_of_era - 719_468
}

// ---------------------------------------------------------------------------
// Decimal integers as `str::parse` reads them.

pub open spec fn is_digit(c: char) -> bool {
    '0' <= c && c <= '9'
}

pub open spec fn digit_value(c: char) -> int {
    c as int - '0' as int
}

/// The value of a string of decimal digits.
pub open spec fn decimal_value(s: Seq<char>) -> int
    decreases s.len(),
{
    if s.len() == 0 {
        0
    } else {
        decimal_value(s.drop_last()) * 10 + digit_value(s.last())
    }
}

/// The value of a non-empty run of decimal digits that is at most `limit`.
pub open spec fn magnitude(s: Seq<char>, limit: int) -> Option<int> {
    if s.len() > 0 && (forall|i: int| 0 <= i < s.len() ==> is_digit(#[trigger] s[i]))
        && decimal_value(s) <= limit {
        Some(decimal_value(s))
    } else {
        None
    }
}

/// What `str::parse` gives for an integer type whose values are
/// `min..=max`: an optional sign (`-` only when `min` is negative) and at
/// least one ASCII digit, with no other character and no overflow.
pub open spec fn parse_int(s: Seq<char>, min: int, max: int) -> Option<int> {
    if s.len() > 0 && s[0] == '+' {
        magnitude(s.drop_first(), max)
    } else if s.len() > 0 && s[0] == '-' && min < 0 {
        match magnitude(s.drop_first(), -min) {
            Some(v) => Some(-v),
            None => None,
        }
    } else {
        magnitude(s, max)
    }
}

proof fn lemma_decimal_value_grows(s: Seq<char>, i: int)
    requires
        0 <= i <= s.len(),
        forall|k: int| 0 <= k < s.len() ==> is_digit(#[trigger] s[k]),
    ensures
        decimal_value(s) >= decimal_value(s.take(i)) >= 0,
    decreases s.len(),
{
    if i == s.len() {
        assert(s.take(i) =~= s);
        if s.len() > 0 {
            lemma_decimal_value_grows(s.drop_last(), i - 1);
        }
    } else {
        lemma_decimal_value_grows(s.drop_last(), i);
        assert(s.drop_last().take(i) =~= s.take(i));
    }
}

/// `magnitude(s[lo..hi], limit)`.
fn parse_magnitude(s: &Vec<char>, lo: usize, hi: usize, limit: u64) -> (r: Option<u64>)
    requires
        lo <= hi <= s.len(),
        limit <= 0x1_0000_0000,
    ensures
        r matches Some(v) ==> magnitude(s@.subrange(lo as int, hi as int), limit as int) == Some(
            v as int,
        ),
        r is None ==> magnitude(s@.subrange(lo as int, hi as int), limit as int) is None,
{
    let ghost t = s@.subrange(lo as int, hi as int);
    if lo == hi {
        return None;
    }
    let mut acc: u64 = 0;
    let mut i = lo;
    while i < hi
        invariant
            lo <= i <= hi <= s.len(),
            limit <= 0x1_0000_0000,
            t == s@.subrange(lo as int, hi as int),
            forall|k: int| 0 <= k < i - lo ==> is_digit(#[trigger] t[k]),
            acc as int == decimal_value(t.take(i - lo)),
            acc <= limit,
        decreases hi - i,
    {
        let c = s[i];
        if !('0' <= c && c <= '9') {
            assert(!is_digit(t[i - lo]));
            return None;
        }
        let d = (c as u32 - '0' as u32) as u64;
        acc = acc * 10 + d;
        i = i + 1;
        assert(t.take(i - lo).drop_last() =~= t.take(i - lo - 1));
        if acc > limit {
            proof {
                if forall|k: int| 0 <= k < t.len() ==> is_digit(#[trigger] t[k]) {
                    lemma_decimal_value_grows(t, i - lo);
                }
            }
            return None;
        }
    }
    assert(t.take(i - lo) =~= t);
    Some(acc)
}

/// `parse_int(s[lo..hi], i32::MIN, i32::MAX)`.
fn parse_i32_at(s: &Vec<char>, lo: usize, hi: usize) -> (r: Option<i32>)
    requires
        lo <= hi <= s.len(),
    ensures
        r matches Some(v) ==> parse_int(s@.subrange(lo as int, hi as int), i32::MIN as int, i32::MAX as int) == Some(v as int),
        r is None ==> parse_int(s@.subrange(lo as int, hi as int), i32::MIN as int, i32::MAX as int) is None,
{
    let ghost t = s@.subrange(lo as int, hi as int);
    if lo < hi && s[lo] == '+' {
        assert(t.drop_first() =~= s@.subrange(lo + 1, hi as int));
        match parse_magnitude(s, lo + 1, hi, 0x7fff_ffff) {
            Some(v) => Some(v as i32),
            None => None,
        }
    } else if lo < hi && s[lo] == '-' {
        assert(t.drop_first() =~= s@.subrange(lo + 1, hi as int));
        match parse_magnitude(s, lo + 1, hi, 0x8000_0000) {
            Some(v) => Some((-(v as i64)) as i32),
            None => None,
        }
    } else {
        match parse_magnitude(s, lo, hi, 0x7fff_ffff) {
            Some(v) => Some(v as i32),
            None => None,
        }
    }
}

/// `parse_int(s[lo..hi], 0, u32::MAX)`.
fn parse_u32_at(s: &Vec<char>, lo: usize, hi: usize) -> (r: Option<u32>)
    requires
        lo <= hi <= s.len(),
    ensures
        r matches Some(v) ==> parse_int(s@.subrange(lo as int, hi as int), 0, u32::MAX as int) == Some(v as int),
        r is None ==> parse_int(s@.subrange(lo as int, hi as int), 0, u32::MAX as int) is None,
{
    let ghost t = s@.subrange(lo as int, hi as int);
    if lo < hi && s[lo] == '+' {
        assert(t.drop_first() =~= s@.subrange(lo + 1, hi as int));
        match parse_magnitude(s, lo + 1, hi, 0xffff_ffff) {
            Some(v) => Some(v as u32),
            None => None,
        }
    } else {
        match parse_magnitude(s, lo, hi, 0xffff_ffff) {
            Some(v) => Some(v as u32),
            None => None,
        }
    }
}

// ---------------------------------------------------------------------------
// Dates in `YYYY-MM-DD` form.

/// The calendar day that `s` names: three `-`-separated integers (a year
/// that fits `i32`, a month and a day that fit `u32`) forming a valid date.
pub open spec fn ymd_of(s: Seq<char>) -> Option<(int, int, int)> {
    let p = split(s, '-');
    if p.len() == 3 && parse_int(p[0], i32::MIN as int, i32::MAX as int) is Some && parse_int(
        p[1],
        0,
        u32::MAX as int,
    ) is Some && parse_int(p[2], 0, u32::MAX as int) is Some {
        let y = parse_int(p[0], i32::MIN as int, i32::MAX as int)->0;
        let m = parse_int(p[1], 0, u32::MAX as int)->0;
        let d = parse_int(p[2], 0, u32::MAX as int)->0;
        if 1 <= m <= 12 && 1 <= d <= 31 && d <= month_len(y, m) {
            Some((y, m, d))
        } else {
            None
        }
    } else {
        None
    }
}

/// The message for a date that cannot be read.
pub open spec fn invalid_date_text(raw: Seq<char>) -> Seq<char> {
    "Neplatné datum '"@ + raw + "', očekávaný formát je "@ + DATE_FORMAT@ + "."@
}

/// The message for a date whose point in time cannot be represented.
pub open spec fn out_of_range_text() -> Seq<char> {
    "Datum je mimo podporovaný rozsah."@
}

/// The error for a date that cannot be read.
pub fn invalid_date_message(raw: &str) -> (r: CliError)
    ensures
        is_message(r, invalid_date_text(raw@)),
{
    let mut text = String::from_str("Neplatné datum '");
    text.append(raw);
    text.append("', očekávaný formát je ");
    text.append(DATE_FORMAT);
    text.append(".");
    CliError::Message(text)
}

/// Reads `raw` as `YYYY-MM-DD`.
pub fn parse_ymd(raw: &str) -> (r: Result<(i32, u32, u32), CliError>)
    ensures
        match ymd_of(raw@) {
            Some((y, m, d)) => r matches Ok((ry, rm, rd)) && ry == y && rm == m && rd == d,
            None => r matches Err(e) && is_message(e, invalid_date_text(raw@)),
        },
{
    let s = chars_of(raw);
    let n = s.len();
    let parts = split_ranges(&s, 0, n, '-');
    assert(s@.subrange(0, n as int) =~= raw@);
    if parts.len() != 3 {
        return Err(invalid_date_message(raw));
    }
    let year = match parse_i32_at(&s, parts[0].0, parts[0].1) {
        Some(v) => v,
        None => return Err(invalid_date_message(raw)),
    };
    let month = match parse_u32_at(&s, parts[1].0, parts[1].1) {
        Some(v) => v,
        None => return Err(invalid_date_message(raw)),
    };
    let day = match parse_u32_at(&s, parts[2].0, parts[2].1) {
        Some(v) => v,
        None => return Err(invalid_date_message(raw)),
    };
    if month == 0 || month > 12 || day == 0 || day > 31 {
        return Err(invalid_date_message(raw));
    }
    let max_day = days_in_month(year, month);
    if day > max_day {
        return Err(invalid_date_message(raw));
    }
    Ok((year, month, day))
}

/// The point in time `seconds` after the Unix epoch (before it when
/// negative); `i64::MIN` seconds has no magnitude in `u64` terms and is
/// refused.
pub fn unix_seconds_to_system_time(seconds: i64) -> (r: Result<Timestamp, CliError>)
    ensures
        seconds != i64::MIN ==> r == Ok::<Timestamp, CliError>(Timestamp { secs: seconds, nanos: 0 }),
        seconds == i64::MIN ==> (r matches Err(e) && is_message(e, out_of_range_text())),
{
    if seconds == i64::MIN {
        Err(message("Datum je mimo podporovaný rozsah."))
    } else {
        Ok(Timestamp { secs: seconds, nanos: 0 })
    }
}

/// The second of the start of the given day, or of its last second when
/// `end_of_day`.
pub open spec fn date_seconds(year: int, month: int, day: int, end_of_day: bool) -> int {
    civil_day_number(year, month, day) * 86400 + if end_of_day {
        86399int
    } else {
        0int
    }
}

/// Reads a `YYYY-MM-DD` date, surrounded by any whitespace, as the first
/// second of that day (UTC), or as its last second when `end_of_day`.
pub fn parse_date(raw: &str, end_of_day: bool) -> (r: Result<Timestamp, CliError>)
    ensures
        match ymd_of(trim(raw@)) {
            Some((y, m, d)) => r == Ok::<Timestamp, CliError>(
                Timestamp { secs: date_seconds(y, m, d, end_of_day) as i64, nanos: 0 },
            ),
            None => r matches Err(e) && is_message(e, invalid_date_text(trim(raw@))),
        },
{
    let s = chars_of(raw);
    let (a, b) = trim_bounds(&s, 0, s.len());
    assert(s@.subrange(0, s@.len() as int) =~= raw@);
    let trimmed = string_of(&s, a, b, None, false);
    assert(trimmed@ =~= trim(raw@));
    let (year, month, day) = match parse_ymd(trimmed.as_str()) {
        Ok(v) => v,
        Err(e) => return Err(e),
    };
    let days = days_from_civil(year, month, day);
    let seconds = match days.checked_mul(86_400) {
        Some(v) => v,
        None => return Err(message("Datum je mimo podporovaný rozsah.")),
    };
    let seconds = if end_of_day {
        match seconds.checked_add(86_399) {
            Some(v) => v,
            None => return Err(message("Datum je mimo podporovaný rozsah.")),
        }
    } else {
        seconds
    };
    unix_seconds_to_system_time(seconds)
}

// ---------------------------------------------------------------------------
// Dates written as `YYYY-MM-DD`.

/// `n` in decimal with leading zeros up to at least `width` digits, as
/// `format!("{:0width$}")` writes it.
pub open spec fn zero_padded(n: nat, width: nat) -> Seq<char> {
    let d = decimal(n);
    if d.len() >= width {
        d
    } else {
        Seq::new((width - d.len()) as nat, |i: int| '0') + d
    }
}

/// A date as `format!("{:04}-{:02}-{:02}", year, month, day)` writes it.
pub open spec fn date_text(year: int, month: nat, day: nat) -> Seq<char> {
    (if year < 0 {
        seq!['-'] + zero_padded((-year) as nat, 3)
    } else {
        zero_padded(year as nat, 4)
    }) + seq!['-'] + zero_padded(month, 2) + seq!['-'] + zero_padded(day, 2)
}

proof fn lemma_decimal_len(n: nat)
    ensures
        n < 10 ==> decimal(n).len() == 1,
        10 <= n < 100 ==> decimal(n).len() == 2,
        100 <= n < 1000 ==> decimal(n).len() == 3,
        1000 <= n ==> decimal(n).len() >= 4,
    decreases n,
{
    if n >= 10 {
        lemma_decimal_len(n / 10);
    }
}

/// The digits of `n` read back as a decimal number give `n`.
proof fn lemma_decimal_digits(n: nat)
    ensures
        forall|i: int| 0 <= i < decimal(n).len() ==> is_digit(#[trigger] decimal(n)[i]),
        decimal(n).len() > 0,
        decimal_value(decimal(n)) == n,
    decreases n,
{
    let d = decimal(n);
    assert(digit_char(n as int % 10) as int == 48 + n as int % 10);
    if n >= 10 {
        lemma_decimal_digits(n / 10);
        assert(d.drop_last() =~= decimal(n / 10));
        assert(d.last() == digit_char(n as int % 10));
        assert(decimal_value(d) == decimal_value(decimal(n / 10)) * 10 + n % 10);
        assert((n / 10) * 10 + n % 10 == n);
    } else {
        assert(n as int % 10 == n);
        assert(d == seq![digit_char(n as int)]);
        assert(d.drop_last() =~= Seq::<char>::empty());
        assert(decimal_value(d.drop_last()) == 0);
        assert(digit_value(d.last()) == n);
        assert(decimal_value(d) == decimal_value(d.drop_last()) * 10 + digit_value(d.last()));
    }
}

/// Leading zeros change neither that a text is all digits nor its value.
proof fn lemma_zero_padded(n: nat, width: nat)
    ensures
        forall|i: int| 0 <= i < zero_padded(n, width).len() ==> is_digit(#[trigger] zero_padded(n, width)[i]),
        zero_padded(n, width).len() > 0,
        decimal_value(zero_padded(n, width)) == n,
{
    lemma_decimal_digits(n);
    let d = decimal(n);
    if d.len() < width {
        let z = Seq::new((width - d.len()) as nat, |i: int| '0');
        lemma_leading_zeros(z, d);
    }
}

proof fn lemma_leading_zeros(z: Seq<char>, s: Seq<char>)
    requires
        forall|i: int| 0 <= i < z.len() ==> z[i] == '0',
        forall|i: int| 0 <= i < s.len() ==> is_digit(#[trigger] s[i]),
    ensures
        decimal_value(z + s) == decimal_value(s),
        forall|i: int| 0 <= i < (z + s).len() ==> is_digit(#[trigger] (z + s)[i]),
    decreases z.len() + s.len(),
{
    if s.len() == 0 {
        assert(z + s =~= z);
        if z.len() > 0 {
            lemma_leading_zeros(z.drop_last(), s);
            assert(z.drop_last() + s =~= z.drop_last());
        }
    } else {
        lemma_leading_zeros(z, s.drop_last());
        assert((z + s).drop_last() =~= z + s.drop_last());
    }
    assert forall|i: int| 0 <= i < (z + s).len() implies is_digit(#[trigger] (z + s)[i]) by {
        if i >= z.len() {
            assert((z + s)[i] == s[i - z.len()]);
        }
    }
}

/// `dest` followed by `zero_padded(n, width)`.
fn push_zero_padded(dest: &mut String, n: u32, width: u32)
    requires
        2 <= width <= 4,
    ensures
        final(dest)@ == old(dest)@ + zero_padded(n as nat, width as nat),
{
    proof {
        lemma_decimal_len(n as nat);
    }
    let digits: u32 = if n < 10 {
        1
    } else if n < 100 {
        2
    } else if n < 1000 {
        3
    } else {
        4
    };
    let ghost start = dest@;
    let mut k: u32 = digits;
    while k < width
        invariant
            digits <= k <= 4,
            width <= 4,
            k == digits || k <= width,
            dest@ == start + Seq::new((k - digits) as nat, |i: int| '0'),
        decreases width - k,
    {
        push_char(dest, '0');
        k = k + 1;
        assert(dest@ =~= start + Seq::new((k - digits) as nat, |i: int| '0'));
    }
    let ghost zeros = dest@;
    push_decimal(dest, n as usize);
    proof {
        let d = decimal(n as nat);
        if d.len() >= width as nat {
            assert(k == digits);
            assert(zeros =~= start);
        } else {
            assert(zeros =~= start + Seq::new((width - d.len()) as nat, |i: int| '0'));
        }
    }
    assert(dest@ =~= start + zero_padded(n as nat, width as nat));
}

/// A date written `YYYY-MM-DD`, as the window shows a day picked in its
/// calendar; for a year from 0 on, it reads back as the same day.
pub fn format_date(year: i32, month: u32, day: u32) -> (r: String)
    ensures
        r@ == date_text(year as int, month as nat, day as nat),
        0 <= year && is_valid_date(year as int, month as int, day as int) ==> ymd_of(r@) == Some(
            (year as int, month as int, day as int),
        ),
{
    let mut r = String::new();
    if year < 0 {
        push_char(&mut r, '-');
        let magnitude: u32 = (-(year as i64)) as u32;
        push_zero_padded(&mut r, magnitude, 3);
    } else {
        push_zero_padded(&mut r, year as u32, 4);
    }
    push_char(&mut r, '-');
    push_zero_padded(&mut r, month, 2);
    push_char(&mut r, '-');
    push_zero_padded(&mut r, day, 2);
    assert(r@ =~= date_text(year as int, month as nat, day as nat));
    proof {
        if 0 <= year && is_valid_date(year as int, month as int, day as int) {
            lemma_date_text_reads_back(year as int, month as int, day as int);
        }
    }
    r
}

/// The three numbers of a date written `YYYY-MM-DD` read back as given.
proof fn lemma_date_text_reads_back(year: int, month: int, day: int)
    requires
        0 <= year <= i32::MAX,
        is_valid_date(year, month, day),
    ensures
        ymd_of(date_text(year, month as nat, day as nat)) == Some((year, month, day)),
{
    let y = zero_padded(year as nat, 4);
    let m = zero_padded(month as nat, 2);
    let d = zero_padded(day as nat, 2);
    lemma_zero_padded(year as nat, 4);
    lemma_zero_padded(month as nat, 2);
    lemma_zero_padded(day as nat, 2);
    let t = date_text(year, month as nat, day as nat);
    assert(t == y + seq!['-'] + m + seq!['-'] + d);
    assert forall|i: int| 0 <= i < y.len() implies y[i] != '-' by {
        assert(is_digit(y[i]));
    }
    assert forall|i: int| 0 <= i < m.len() implies m[i] != '-' by {
        assert(is_digit(m[i]));
    }
    assert forall|i: int| 0 <= i < d.len() implies d[i] != '-' by {
        assert(is_digit(d[i]));
    }
    crate::text::lemma_split_single(y, '-');
    crate::text::lemma_split_single(m, '-');
    crate::text::lemma_split_single(d, '-');
    crate::text::lemma_split_concat(y, '-', m);
    crate::text::lemma_split_concat(y + seq!['-'] + m, '-', d);
    let p = split(t, '-');
    assert(p =~= seq![y, m, d]);
    assert(is_digit(y[0]) && is_digit(m[0]) && is_digit(d[0]));
    assert(parse_int(y, i32::MIN as int, i32::MAX as int) == Some(year));
    assert(parse_int(m, 0, u32::MAX as int) == Some(month));
    assert(parse_int(d, 0, u32::MAX as int) == Some(day));
}

} // verus!
