//! Times as the reader writes them: RFC 3339, in UTC, to the second.

use vstd::prelude::*;

use crate::text::{char_from_u32, digit, push_char};

verus! {

/// Whether a year of the Gregorian calendar has a 29th of February.
pub open spec fn is_leap(y: nat) -> bool {
    (y % 4 == 0 && y % 100 != 0) || y % 400 == 0
}

/// The days of a year.
pub open spec fn year_days(y: nat) -> nat {
    if is_leap(y) {
        366
    } else {
        365
    }
}

/// The days of a month, counted from 1.
pub open spec fn month_days(y: nat, m: nat) -> nat {
    if m == 2 {
        if is_leap(y) {
            29
        } else {
            28
        }
    } else if m == 4 || m == 6 || m == 9 || m == 11 {
        30
    } else {
        31
    }
}

/// The days from 1970-01-01 to the first day of year `y`.
pub open spec fn days_before_year(y: nat) -> nat
    decreases y,
{
    if y <= 1970 {
        0
    } else {
        days_before_year((y - 1) as nat) + year_days((y - 1) as nat)
    }
}

/// The days from the first of year `y` to the first of month `m`.
pub open spec fn days_before_month(y: nat, m: nat) -> nat
    decreases m,
{
    if m <= 1 {
        0
    } else {
        days_before_month(y, (m - 1) as nat) + month_days(y, (m - 1) as nat)
    }
}

/// A date and time of day, from 1970 on.
pub struct Civil {
    pub year: u64,
    pub month: u64,
    pub day: u64,
    pub hour: u64,
    pub minute: u64,
    pub second: u64,
}

/// Whether a date and time is the one `secs` seconds after 1970-01-01T00:00:00Z.
pub open spec fn civil_at(c: Civil, secs: nat) -> bool {
    &&& 1970 <= c.year
    &&& 1 <= c.month <= 12
    &&& 1 <= c.day <= month_days(c.year as nat, c.month as nat)
    &&& c.hour < 24 && c.minute < 60 && c.second < 60
    &&& days_before_year(c.year as nat) + days_before_month(c.year as nat, c.month as nat) + c.day
        - 1 == secs / 86400
    &&& c.hour * 3600 + c.minute * 60 + c.second == secs % 86400
}

/// The seconds of 8030 years of 365 days: every time before it falls before the year 10000,
/// and has a four-digit year.
pub const MAX_SECS: u64 = 253_234_080_000;

proof fn lemma_days_before_year_floor(y: nat)
    ensures
        y >= 1970 ==> days_before_year(y) >= 365 * (y - 1970),
    decreases y,
{
    if y > 1970 {
        lemma_days_before_year_floor((y - 1) as nat);
    }
}

proof fn lemma_days_before_month_bound(y: nat, m: nat)
    requires
        1 <= m <= 12,
    ensures
        days_before_month(y, m) + month_days(y, m) <= year_days(y),
        days_before_month(y, 13) == year_days(y),
{
    reveal_with_fuel(days_before_month, 13);
}

/// The date and time `secs` seconds after 1970-01-01T00:00:00Z.
pub fn civil(secs: u64) -> (r: Civil)
    requires
        secs < MAX_SECS,
    ensures
        civil_at(r, secs as nat),
        r.year < 10000,
{
    let days = secs / 86400;
    let rest = secs % 86400;
    let mut year: u64 = 1970;
    let mut left: u64 = days;
    let ghost mut before: nat = 0;
    while left >= year_length(year)
        invariant
            1970 <= year < 10000,
            days_before_year(year as nat) + left == days,
            days < 2930950,
        decreases left,
    {
        let length = year_length(year);
        proof {
            lemma_days_before_year_floor((year + 1) as nat);
        }
        left = left - length;
        year = year + 1;
        assert(days_before_year(year as nat) == days_before_year((year - 1) as nat) + year_days(
            (year - 1) as nat,
        ));
    }
    proof {
        lemma_days_before_year_floor(year as nat);
    }
    let mut month: u64 = 1;
    while month < 12 && left >= month_length(year, month)
        invariant
            1970 <= year,
            1 <= month <= 12,
            days_before_year(year as nat) + days_before_month(year as nat, month as nat) + left
                == days,
            left < year_days(year as nat) - days_before_month(year as nat, month as nat),
        decreases 12 - month,
    {
        proof {
            lemma_days_before_month_bound(year as nat, month as nat);
        }
        left = left - month_length(year, month);
        month = month + 1;
    }
    proof {
        lemma_days_before_month_bound(year as nat, month as nat);
    }
    Civil {
        year,
        month,
        day: left + 1,
        hour: rest / 3600,
        minute: rest % 3600 / 60,
        second: rest % 60,
    }
}

/// The days of a year.
fn year_length(y: u64) -> (r: u64)
    ensures
        r == year_days(y as nat),
{
    if (y % 4 == 0 && y % 100 != 0) || y % 400 == 0 {
        366
    } else {
        365
    }
}

/// The days of a month, counted from 1.
fn month_length(y: u64, m: u64) -> (r: u64)
    ensures
        r == month_days(y as nat, m as nat),
{
    if m == 2 {
        if (y % 4 == 0 && y % 100 != 0) || y % 400 == 0 {
            29
        } else {
            28
        }
    } else if m == 4 || m == 6 || m == 9 || m == 11 {
        30
    } else {
        31
    }
}

/// `n`'s last `width` decimal digits, zeros in front.
pub open spec fn padded(n: nat, width: nat) -> Seq<char>
    decreases width,
{
    if width == 0 {
        Seq::empty()
    } else {
        padded(n / 10, (width - 1) as nat).push(digit(n % 10))
    }
}

/// A date and time as RFC 3339 writes it in UTC: `YYYY-MM-DDTHH:MM:SSZ`.
pub open spec fn rfc3339_text(c: Civil) -> Seq<char> {
    padded(c.year as nat, 4) + seq!['-'] + padded(c.month as nat, 2) + seq!['-'] + padded(
        c.day as nat,
        2,
    ) + seq!['T'] + padded(c.hour as nat, 2) + seq![':'] + padded(c.minute as nat, 2) + seq![':']
        + padded(c.second as nat, 2) + seq!['Z']
}

/// Appends `n`'s last `width` decimal digits, zeros in front.
fn push_padded(s: &mut String, n: u64, width: u64)
    ensures
        final(s)@ == old(s)@ + padded(n as nat, width as nat),
    decreases width,
{
    if width > 0 {
        push_padded(s, n / 10, width - 1);
        let c = match char_from_u32(48 + (n % 10) as u32) {
            Some(c) => c,
            None => {
                assert(false);
                '0'
            },
        };
        push_char(s, c);
        assert(c == digit((n % 10) as nat));
    }
}

/// The time `secs` seconds after 1970-01-01T00:00:00Z, as RFC 3339 writes it in UTC.
pub fn rfc3339(secs: u64) -> (r: String)
    requires
        secs < MAX_SECS,
    ensures
        exists|c: Civil| civil_at(c, secs as nat) && r@ == rfc3339_text(c),
{
    let c = civil(secs);
    let mut r = String::new();
    push_padded(&mut r, c.year, 4);
    push_char(&mut r, '-');
    push_padded(&mut r, c.month, 2);
    push_char(&mut r, '-');
    push_padded(&mut r, c.day, 2);
    push_char(&mut r, 'T');
    push_padded(&mut r, c.hour, 2);
    push_char(&mut r, ':');
    push_padded(&mut r, c.minute, 2);
    push_char(&mut r, ':');
    push_padded(&mut r, c.second, 2);
    push_char(&mut r, 'Z');
    assert(r@ =~= rfc3339_text(c));
    r
}

/// The months of the Gregorian calendar have, in order, 31, 28 (29 in a leap year), 31, 30,
/// 31, 30, 31, 31, 30, 31, 30 and 31 days, and so begin 0, 31, 59, 90, 120, 151, 181, 212,
/// 243, 273, 304 and 334 days into the year, one day later from March on in a leap year.
pub proof fn lemma_calendar(y: nat, m: nat)
    requires
        1 <= m <= 12,
    ensures
        month_days(y, m) == seq![
            31nat,
            if is_leap(y) {
                29nat
            } else {
                28nat
            },
            31nat,
            30nat,
            31nat,
            30nat,
            31nat,
            31nat,
            30nat,
            31nat,
            30nat,
            31nat,
        ][m - 1],
        days_before_month(y, m) == seq![
            0nat,
            31nat,
            59nat,
            90nat,
            120nat,
            151nat,
            181nat,
            212nat,
            243nat,
            273nat,
            304nat,
            334nat,
        ][m - 1] + if is_leap(y) && m > 2 {
            1nat
        } else {
            0nat
        },
{
    reveal_with_fuel(days_before_month, 13);
}

/// The date of a time is the calendar's: the day of the year it falls on is where its month
/// begins, by the calendar's month lengths, plus its day less one, and its day is within its
/// month's length.
pub proof fn lemma_civil_day_of_year(c: Civil, secs: nat)
    requires
        civil_at(c, secs),
    ensures
        secs / 86400 - days_before_year(c.year as nat) == seq![
            0nat,
            31nat,
            59nat,
            90nat,
            120nat,
            151nat,
            181nat,
            212nat,
            243nat,
            273nat,
            304nat,
            334nat,
        ][c.month - 1] + (if is_leap(c.year as nat) && c.month > 2 {
            1nat
        } else {
            0nat
        }) + c.day - 1,
        c.day <= seq![
            31nat,
            if is_leap(c.year as nat) {
                29nat
            } else {
                28nat
            },
            31nat,
            30nat,
            31nat,
            30nat,
            31nat,
            31nat,
            30nat,
            31nat,
            30nat,
            31nat,
        ][c.month - 1],
{
    lemma_calendar(c.year as nat, c.month as nat);
}

/// The leap years from year 1 through year `x`: every fourth year, but for the centuries not
/// divisible by 400.
pub open spec fn leap_years_through(x: nat) -> int {
    x as int / 4 - x as int / 100 + x as int / 400
}

proof fn lemma_leap_step(y: nat)
    requires
        y >= 1,
    ensures
        leap_years_through(y) == leap_years_through((y - 1) as nat) + if is_leap(y) {
            1int
        } else {
            0int
        },
{
    let a = y as int;
    assert(a / 4 - (a - 1) / 4 == if a % 4 == 0 { 1int } else { 0int });
    assert(a / 100 - (a - 1) / 100 == if a % 100 == 0 { 1int } else { 0int });
    assert(a / 400 - (a - 1) / 400 == if a % 400 == 0 { 1int } else { 0int });
}

/// Counting days from 1970: every year has 365 days, and each leap year before `y` one more.
pub proof fn lemma_days_before_year(y: nat)
    requires
        y >= 1970,
    ensures
        days_before_year(y) == 365 * (y - 1970) + leap_years_through((y - 1) as nat)
            - leap_years_through(1969),
    decreases y,
{
    if y > 1970 {
        lemma_days_before_year((y - 1) as nat);
        lemma_leap_step((y - 1) as nat);
    }
}

} // verus!
