//! When years and months start, and how moments read.
use vstd::prelude::*;

use crate::text::Text;
use crate::time::{days_to_month, days_to_year, decimal, is_date_of, is_moment, moment_text};

verus! {

/// A year starts 365 days behind the one before it, and one day later for every
/// fourth year, but for three of four centuries.
pub proof fn years_start_on_their_days(year: int)
    requires
        year >= 1970,
    ensures
        days_to_year(year) == 365 * (year - 1970) + (year - 1) / 4 - (year - 1) / 100 + (year - 1) / 400 - 477,
    decreases year,
{
    if year > 1970 {
        years_start_on_their_days(year - 1);
    }
}

/// The months of a year start on these days of it; those behind February one day
/// later in a year of 366 days.
pub proof fn months_start_on_their_days(year: int)
    requires
        year >= 1970,
    ensures
        ({
            let more = days_to_year(year + 1) - days_to_year(year) - 365;
            &&& days_to_month(year, 1) == 0
            &&& days_to_month(year, 2) == 31
            &&& days_to_month(year, 3) == 59 + more
            &&& days_to_month(year, 4) == 90 + more
            &&& days_to_month(year, 5) == 120 + more
            &&& days_to_month(year, 6) == 151 + more
            &&& days_to_month(year, 7) == 181 + more
            &&& days_to_month(year, 8) == 212 + more
            &&& days_to_month(year, 9) == 243 + more
            &&& days_to_month(year, 10) == 273 + more
            &&& days_to_month(year, 11) == 304 + more
            &&& days_to_month(year, 12) == 334 + more
        }),
{
    reveal_with_fuel(days_to_month, 13);
}

/// The number that a digit stands for.
pub open spec fn worth(c: char) -> int {
    c as int - '0' as int
}

/// The number that two digits stand for.
pub open spec fn worth_of_two(s: Text, at: int) -> int {
    10 * worth(s[at]) + worth(s[at + 1])
}

proof fn lemma_two_digits(n: nat)
    requires
        n < 100,
    ensures
        decimal(n, 2).len() == 2,
        worth_of_two(decimal(n, 2), 0) == n,
        '0' <= decimal(n, 2)[0] <= '9',
        '0' <= decimal(n, 2)[1] <= '9',
{
    reveal_with_fuel(decimal, 3);
    let a = decimal(n / 10, 1);
    assert(a.len() == 1);
    assert(decimal(n, 2) == a.push(decimal(n, 2).last()));
}

proof fn lemma_four_digits(n: nat)
    requires
        n < 10000,
    ensures
        decimal(n, 4).len() == 4,
        100 * worth_of_two(decimal(n, 4), 0) + worth_of_two(decimal(n, 4), 2) == n,
{
    let s = decimal(n, 4);
    let t = decimal(n / 10, 3);
    let u = decimal(n / 10 / 10, 2);
    lemma_two_digits(n / 10 / 10);
    assert(t == u.push(t.last()));
    assert(s == t.push(s.last()));
    assert(worth(s[3]) == n % 10);
    assert(s[2] == t[2]);
    assert(worth(t[2]) == n / 10 % 10);
    assert(s[0] == u[0] && s[1] == u[1]);
}

/// The text of a moment reads as year, month, day, hour, minute and second, each
/// in digits at its own place.
pub proof fn moments_read_as_they_are(text: Text, seconds: int)
    requires
        is_moment(text, seconds),
        0 <= seconds,
        text.len() == 20,
    ensures
        ({
            let year = 100 * worth_of_two(text, 0) + worth_of_two(text, 2);
            let month = worth_of_two(text, 5);
            let day = worth_of_two(text, 8);
            let hour = worth_of_two(text, 11);
            let minute = worth_of_two(text, 14);
            let second = worth_of_two(text, 17);
            &&& is_date_of(seconds / 86400, year, month, day)
            &&& seconds == 86400 * (seconds / 86400) + 3600 * hour + 60 * minute + second
            &&& 0 <= hour < 24
            &&& 0 <= minute < 60
            &&& 0 <= second < 60
            &&& text[4] == '-' && text[7] == '-' && text[10] == 'T'
            &&& text[13] == ':' && text[16] == ':' && text[19] == 'Z'
        }),
{
    let (year, month, day) = choose|year: int, month: int, day: int| #[trigger]
        is_date_of(seconds / 86400, year, month, day) && text == moment_text(
            year,
            month,
            day,
            seconds % 86400 / 3600,
            seconds % 3600 / 60,
            seconds % 60,
        );
    let hour = seconds % 86400 / 3600;
    let minute = seconds % 3600 / 60;
    let second = seconds % 60;
    lemma_two_digits(month as nat);
    lemma_two_digits(day as nat);
    lemma_two_digits(hour as nat);
    lemma_two_digits(minute as nat);
    lemma_two_digits(second as nat);
    let y = decimal(year as nat, 4);
    assert(text.len() == y.len() + 16);
    lemma_short(year as nat);
    lemma_four_digits(year as nat);
    assert(text.subrange(0, 4) =~= y);
    assert(text[0] == y[0] && text[1] == y[1] && text[2] == y[2] && text[3] == y[3]);
    let mo = decimal(month as nat, 2);
    assert(text[5] == mo[0] && text[6] == mo[1]);
    let da = decimal(day as nat, 2);
    assert(text[8] == da[0] && text[9] == da[1]);
    let ho = decimal(hour as nat, 2);
    assert(text[11] == ho[0] && text[12] == ho[1]);
    let mi = decimal(minute as nat, 2);
    assert(text[14] == mi[0] && text[15] == mi[1]);
    let se = decimal(second as nat, 2);
    assert(text[17] == se[0] && text[18] == se[1]);
}

/// A number that takes four digits is below ten thousand.
proof fn lemma_short(n: nat)
    requires
        decimal(n, 4).len() == 4,
    ensures
        n < 10000,
{
    if n >= 10000 {
        let a = decimal(n / 10, 3);
        let b = decimal(n / 10 / 10, 2);
        let c = decimal(n / 10 / 10 / 10, 1);
        lemma_some_digit(n / 10 / 10 / 10 / 10, 0);
        assert(c == decimal(n / 10 / 10 / 10 / 10, 0).push(c.last()));
        assert(b == c.push(b.last()));
        assert(a == b.push(a.last()));
        assert(decimal(n, 4) == a.push(decimal(n, 4).last()));
    }
}

proof fn lemma_some_digit(n: nat, width: nat)
    ensures
        decimal(n, width).len() > 0,
{
}

/// Every moment of the years with four digits has a text of twenty characters.
pub proof fn moments_are_twenty_characters(text: Text, seconds: int)
    requires
        is_moment(text, seconds),
        0 <= seconds < 86400 * days_to_year(10000),
    ensures
        text.len() == 20,
{
    let (year, month, day) = choose|year: int, month: int, day: int| #[trigger]
        is_date_of(seconds / 86400, year, month, day) && text == moment_text(
            year,
            month,
            day,
            seconds % 86400 / 3600,
            seconds % 3600 / 60,
            seconds % 60,
        );
    years_start_on_their_days(10000);
    years_start_on_their_days(year);
    months_start_on_their_days(year);
    years_start_on_their_days(year + 1);
    assert(days_to_month(year, month) >= 0) by {
        assert(month == 1 || month == 2 || month == 3 || month == 4 || month == 5 || month == 6 || month == 7 || month
            == 8 || month == 9 || month == 10 || month == 11 || month == 12);
    }
    assert(seconds / 86400 < days_to_year(10000));
    assert(year < 10000);
    lemma_four_digits(year as nat);
    lemma_two_digits(month as nat);
    lemma_two_digits(day as nat);
    lemma_two_digits((seconds % 86400 / 3600) as nat);
    lemma_two_digits((seconds % 3600 / 60) as nat);
    lemma_two_digits((seconds % 60) as nat);
}

} // verus!
