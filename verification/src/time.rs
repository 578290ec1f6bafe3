//! Moments of time as text.
use vstd::prelude::*;

use crate::text::{string_of, Text};

verus! {

/// Whether a year has a leap day.
pub open spec fn is_leap(year: int) -> bool {
    year % 4 == 0 && (year % 100 != 0 || year % 400 == 0)
}

/// The days of a year.
pub open spec fn year_days(year: int) -> int {
    if is_leap(year) {
        366
    } else {
        365
    }
}

/// The days of a month, January being the first.
pub open spec fn month_days(year: int, month: int) -> int {
    if month == 2 {
        if is_leap(year) {
            29
        } else {
            28
        }
    } else if month == 4 || month == 6 || month == 9 || month == 11 {
        30
    } else {
        31
    }
}

/// The days from the start of 1970 to the start of a year.
pub open spec fn days_to_year(year: int) -> int
    decreases year - 1970,
{
    if year <= 1970 {
        0
    } else {
        days_to_year(year - 1) + year_days(year - 1)
    }
}

/// The days from the start of a year to the start of a month.
pub open spec fn days_to_month(year: int, month: int) -> int
    decreases month,
{
    if month <= 1 {
        0
    } else {
        days_to_month(year, month - 1) + month_days(year, month - 1)
    }
}

/// Whether a date lies so many days behind the start of 1970.
pub open spec fn is_date_of(days: int, year: int, month: int, day: int) -> bool {
    &&& year >= 1970
    &&& 1 <= month <= 12
    &&& 1 <= day <= month_days(year, month)
    &&& days == days_to_year(year) + days_to_month(year, month) + day - 1
}

proof fn lemma_days_to_year(a: int, b: int)
    requires
        1970 <= a < b,
    ensures
        days_to_year(a) + year_days(a) <= days_to_year(b),
    decreases b - a,
{
    if a + 1 < b {
        lemma_days_to_year(a, b - 1);
    }
}

proof fn lemma_days_to_month(year: int, a: int, b: int)
    requires
        1 <= a < b,
    ensures
        days_to_month(year, a) + month_days(year, a) <= days_to_month(year, b),
        days_to_month(year, b) >= 0,
    decreases b - a,
{
    if a + 1 < b {
        lemma_days_to_month(year, a, b - 1);
    } else {
        lemma_month_start(year, a);
    }
}

proof fn lemma_month_start(year: int, month: int)
    ensures
        days_to_month(year, month) >= 0,
    decreases month,
{
    if month > 1 {
        lemma_month_start(year, month - 1);
    }
}

/// The months of a year make up the year.
proof fn lemma_year(year: int)
    ensures
        days_to_month(year, 12) + month_days(year, 12) == year_days(year),
{
    reveal_with_fuel(days_to_month, 13);
}

/// Every day has one date.
pub proof fn date_is_unique(days: int, y: int, m: int, d: int, y2: int, m2: int, d2: int)
    requires
        is_date_of(days, y, m, d),
        is_date_of(days, y2, m2, d2),
    ensures
        y == y2,
        m == m2,
        d == d2,
{
    lemma_month_start(y, m);
    lemma_month_start(y2, m2);
    lemma_day_in_year(y, m, d);
    lemma_day_in_year(y2, m2, d2);
    if y < y2 {
        lemma_days_to_year(y, y2);
    } else if y2 < y {
        lemma_days_to_year(y2, y);
    } else if m < m2 {
        lemma_days_to_month(y, m, m2);
    } else if m2 < m {
        lemma_days_to_month(y, m2, m);
    }
}

proof fn lemma_day_in_year(year: int, month: int, day: int)
    requires
        1 <= month <= 12,
        1 <= day <= month_days(year, month),
    ensures
        days_to_month(year, month) + day <= year_days(year),
{
    lemma_year(year);
    if month < 12 {
        lemma_days_to_month(year, month, 12);
    }
}

/// Whether a year has a leap day.
fn has_leap_day(year: u64) -> (r: bool)
    ensures
        r == is_leap(year as int),
{
    year % 4 == 0 && (year % 100 != 0 || year % 400 == 0)
}

/// The days of a month.
fn days_in_month(year: u64, month: u64) -> (r: u64)
    ensures
        r == month_days(year as int, month as int),
{
    if month == 2 {
        if has_leap_day(year) {
            29
        } else {
            28
        }
    } else if month == 4 || month == 6 || month == 9 || month == 11 {
        30
    } else {
        31
    }
}

/// The year, month and day that lie so many days behind the start of 1970.
pub fn date_of(days: u64) -> (r: (u64, u64, u64))
    ensures
        is_date_of(days as int, r.0 as int, r.1 as int, r.2 as int),
{
    let mut left: u64 = days;
    let mut year: u64 = 1970;
    let mut length: u64 = 365;
    while left >= length
        invariant
            1970 <= year,
            365 * (year - 1970) + left <= days,
            length == year_days(year as int),
            days == days_to_year(year as int) + left,
        decreases left,
    {
        left = left - length;
        year = year + 1;
        length = if has_leap_day(year) {
            366
        } else {
            365
        };
    }
    let mut month: u64 = 1;
    proof {
        lemma_year(year as int);
    }
    while left >= days_in_month(year, month)
        invariant
            1970 <= year,
            1 <= month <= 12,
            days_to_month(year as int, 12) + month_days(year as int, 12) == year_days(year as int),
            days_to_month(year as int, month as int) + left < year_days(year as int),
            days == days_to_year(year as int) + days_to_month(year as int, month as int) + left,
        decreases left,
    {
        left = left - days_in_month(year, month);
        month = month + 1;
    }
    (year, month, left + 1)
}

/// The digit of a number below ten.
pub open spec fn digit(d: nat) -> char {
    (('0' as nat) + d) as char
}

/// A number in decimal digits, with zeros in front where it has fewer than
/// `width`.
pub open spec fn decimal(n: nat, width: nat) -> Text
    decreases n, width,
{
    let rest = if width == 0 {
        0
    } else {
        (width - 1) as nat
    };
    if n < 10 && width <= 1 {
        seq![digit(n)]
    } else {
        decimal(n / 10, rest).push(digit(n % 10))
    }
}

/// Appends a number in decimal digits.
fn push_decimal(n: u64, width: usize, out: &mut Vec<char>)
    ensures
        final(out)@ == old(out)@ + decimal(n as nat, width as nat),
    decreases n, width,
{
    let ghost was = out@;
    let c = (48 + (n % 10) as u8) as char;
    assert(c == digit((n as nat) % 10));
    if n >= 10 || width > 1 {
        let rest: usize = if width == 0 {
            0
        } else {
            width - 1
        };
        push_decimal(n / 10, rest, out);
        let ghost front = decimal((n / 10) as nat, rest as nat);
        out.push(c);
        assert(out@ =~= was + front.push(c));
    } else {
        out.push(c);
        assert(out@ =~= was + seq![c]);
    }
}

/// A date and a time of day as text.
pub open spec fn moment_text(year: int, month: int, day: int, hour: int, minute: int, second: int) -> Text {
    decimal(year as nat, 4) + seq!['-'] + decimal(month as nat, 2) + seq!['-'] + decimal(day as nat, 2)
        + seq!['T'] + decimal(hour as nat, 2) + seq![':'] + decimal(minute as nat, 2) + seq![':'] + decimal(
        second as nat,
        2,
    ) + seq!['Z']
}

/// Whether a text is the moment so many seconds behind the start of 1970, by
/// universal time.
pub open spec fn is_moment(text: Text, seconds: int) -> bool {
    exists|year: int, month: int, day: int| #[trigger]
        is_date_of(seconds / 86400, year, month, day) && text == moment_text(
            year,
            month,
            day,
            seconds % 86400 / 3600,
            seconds % 3600 / 60,
            seconds % 60,
        )
}

/// The moment so many seconds behind the start of 1970, by universal time, as
/// in `1970-01-01T00:00:00Z`.
pub fn iso8601(seconds: u64) -> (r: String)
    ensures
        is_moment(r@, seconds as int),
{
    let (year, month, day) = date_of(seconds / 86400);
    let mut out: Vec<char> = Vec::new();
    push_decimal(year, 4, &mut out);
    out.push('-');
    push_decimal(month, 2, &mut out);
    out.push('-');
    push_decimal(day, 2, &mut out);
    out.push('T');
    push_decimal(seconds % 86400 / 3600, 2, &mut out);
    out.push(':');
    push_decimal(seconds % 3600 / 60, 2, &mut out);
    out.push(':');
    push_decimal(seconds % 60, 2, &mut out);
    out.push('Z');
    let r = string_of(&out, 0, out.len());
    assert(r@ =~= moment_text(
        year as int,
        month as int,
        day as int,
        seconds as int % 86400 / 3600,
        seconds as int % 3600 / 60,
        seconds as int % 60,
    ));
    r
}

} // verus!
