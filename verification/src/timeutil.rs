//! Calendar arithmetic.

use vstd::prelude::*;

use crate::text::{chars_of, folded, lower, same_folded};

verus! {

/// Seconds in a day.
pub const SECS_PER_DAY: i64 = 86_400;

/// The month that a three-letter English abbreviation names, in any case.
pub open spec fn month_of(name: Seq<char>) -> Option<u32> {
    let name = folded(name);
    if name == seq!['j', 'a', 'n'] {
        Some(1u32)
    } else if name == seq!['f', 'e', 'b'] {
        Some(2u32)
    } else if name == seq!['m', 'a', 'r'] {
        Some(3u32)
    } else if name == seq!['a', 'p', 'r'] {
        Some(4u32)
    } else if name == seq!['m', 'a', 'y'] {
        Some(5u32)
    } else if name == seq!['j', 'u', 'n'] {
        Some(6u32)
    } else if name == seq!['j', 'u', 'l'] {
        Some(7u32)
    } else if name == seq!['a', 'u', 'g'] {
        Some(8u32)
    } else if name == seq!['s', 'e', 'p'] {
        Some(9u32)
    } else if name == seq!['o', 'c', 't'] {
        Some(10u32)
    } else if name == seq!['n', 'o', 'v'] {
        Some(11u32)
    } else if name == seq!['d', 'e', 'c'] {
        Some(12u32)
    } else {
        None
    }
}

/// Whether `name` is `a`, `b`, `c` in any case, for lower-case letters.
fn spells(name: &Vec<char>, a: char, b: char, c: char) -> (yes: bool)
    requires
        lower(a) == a,
        lower(b) == b,
        lower(c) == c,
    ensures
        yes == (folded(name@) == seq![a, b, c]),
{
    let mut month: Vec<char> = Vec::new();
    month.push(a);
    month.push(b);
    month.push(c);
    assert(folded(month@) =~= seq![a, b, c]);
    same_folded(name, &month)
}

/// The month that a three-letter English abbreviation names, in any case.
pub fn month_index(name: &str) -> (month: Option<u32>)
    ensures
        month == month_of(name@),
{
    month_in(&chars_of(name))
}

/// The month that a three-letter English abbreviation names, in any case.
pub fn month_in(name: &Vec<char>) -> (month: Option<u32>)
    ensures
        month == month_of(name@),
{
    if spells(name, 'j', 'a', 'n') {
        Some(1)
    } else if spells(name, 'f', 'e', 'b') {
        Some(2)
    } else if spells(name, 'm', 'a', 'r') {
        Some(3)
    } else if spells(name, 'a', 'p', 'r') {
        Some(4)
    } else if spells(name, 'm', 'a', 'y') {
        Some(5)
    } else if spells(name, 'j', 'u', 'n') {
        Some(6)
    } else if spells(name, 'j', 'u', 'l') {
        Some(7)
    } else if spells(name, 'a', 'u', 'g') {
        Some(8)
    } else if spells(name, 's', 'e', 'p') {
        Some(9)
    } else if spells(name, 'o', 'c', 't') {
        Some(10)
    } else if spells(name, 'n', 'o', 'v') {
        Some(11)
    } else if spells(name, 'd', 'e', 'c') {
        Some(12)
    } else {
        None
    }
}

/// Whether `year` has a 29th of February.
pub open spec fn is_leap(year: int) -> bool {
    year % 4 == 0 && (year % 100 != 0 || year % 400 == 0)
}

/// The days in the years from year 1 up to `year`, negative for earlier years.
pub open spec fn days_before_year(year: int) -> int {
    365 * (year - 1) + (year - 1) / 4 - (year - 1) / 100 + (year - 1) / 400
}

/// The days in the months before `month` of a year that is not a leap year.
pub open spec fn days_before_month(month: int) -> int {
    if month <= 1 {
        0
    } else if month == 2 {
        31
    } else if month == 3 {
        59
    } else if month == 4 {
        90
    } else if month == 5 {
        120
    } else if month == 6 {
        151
    } else if month == 7 {
        181
    } else if month == 8 {
        212
    } else if month == 9 {
        243
    } else if month == 10 {
        273
    } else if month == 11 {
        304
    } else {
        334
    }
}

/// The days from 1970-01-01 to the date, in the Gregorian calendar.
pub open spec fn days_of(year: int, month: int, day: int) -> int {
    days_before_year(year) - days_before_year(1970) + days_before_month(month) + (if month > 2
        && is_leap(year) {
        1int
    } else {
        0int
    }) + day - 1
}

/// A year is as long as its months.
proof fn lemma_year_length(year: int)
    ensures
        days_before_year(year + 1) - days_before_year(year) == if is_leap(year) {
            366int
        } else {
            365int
        },
{
}

/// The calendar repeats every four centuries.
proof fn lemma_era(y: int, era: int, yoe: int)
    requires
        era == y / 400,
        yoe == y - era * 400,
    ensures
        0 <= yoe < 400,
        era * 146_097 + yoe * 365 + yoe / 4 - yoe / 100 == 365 * y + y / 4 - y / 100 + y / 400,
{
    assert(y / 4 == 100 * era + yoe / 4);
    assert(y / 100 == 4 * era + yoe / 100);
}

/// The days before a month, counted from March, are those counted from January less two months.
proof fn lemma_from_march(month: int)
    requires
        1 <= month <= 12,
    ensures
        month > 2 ==> (153 * (month - 3) + 2) / 5 == days_before_month(month) - 59,
        month <= 2 ==> (153 * (month + 9) + 2) / 5 == days_before_month(month) + 306,
{
}

/// The days from 1970-01-01 to the date, in the Gregorian calendar.
///
/// The count starts the year in March, so that a leap day ends it, and splits it into the eras of
/// four centuries after which the calendar repeats.
pub fn days_from_civil(year: i64, month: u32, day: u32) -> (days: i64)
    requires
        -25_000_000_000_000_000 <= year <= 25_000_000_000_000_000,
        1 <= month <= 12,
    ensures
        days == days_of(year as int, month as int, day as int),
{
    let m: i64 = month as i64;
    let d: i64 = day as i64;
    let y: i64 = if m <= 2 {
        year - 1
    } else {
        year
    };
    let era: i64 = if y >= 0 {
        y / 400
    } else {
        -((399 - y) / 400)
    };
    assert(era == y as int / 400);
    let yoe: i64 = y - era * 400;
    proof {
        lemma_era(y as int, era as int, yoe as int);
    }
    let shifted: i64 = if m > 2 {
        m - 3
    } else {
        m + 9
    };
    let doy: i64 = (153 * shifted + 2) / 5 + d - 1;
    let doe: i64 = yoe * 365 + yoe / 4 - yoe / 100 + doy;
    proof {
        lemma_year_length(year as int);
        lemma_from_march(month as int);
    }
    era * 146_097 + doe - 719_468
}

/// The Unix time of a date and time of day, if they are within range.
pub open spec fn unix_time(year: int, month: int, day: int, h: int, m: int, s: int) -> Option<i64> {
    if 0 <= year <= 9999 && 1 <= month <= 12 && 1 <= day <= 31 && 0 <= h <= 23 && 0 <= m <= 59 && 0
        <= s <= 60 {
        Some((days_of(year, month, day) * 86_400 + h * 3600 + m * 60 + s) as i64)
    } else {
        None
    }
}

/// The Unix time of a date and time of day in UTC, or nothing if they are out of range.
pub fn civil_to_unix(year: i64, month: u32, day: u32, h: u32, m: u32, s: u32) -> (secs: Option<i64>)
    ensures
        secs == unix_time(year as int, month as int, day as int, h as int, m as int, s as int),
{
    if year < 0 || year > 9999 || month < 1 || month > 12 || day < 1 || day > 31 || h > 23 || m > 59
        || s > 60 {
        return None;
    }
    let days: i64 = days_from_civil(year, month, day);
    let secs_of_day: i64 = h as i64 * 3600 + m as i64 * 60 + s as i64;
    Some(days * SECS_PER_DAY + secs_of_day)
}

/// The days in a month.
pub open spec fn month_length(year: int, month: int) -> int {
    if month == 2 {
        if year % 400 == 0 || (year % 4 == 0 && year % 100 != 0) {
            29
        } else {
            28
        }
    } else if month == 4 || month == 6 || month == 9 || month == 11 {
        30
    } else {
        31
    }
}

/// Whether the parts are those of a day of the calendar and a time of that day without a leap
/// second.
pub open spec fn is_moment(year: int, month: int, day: int, h: int, m: int, s: int) -> bool {
    &&& 0 <= year <= 9999
    &&& 1 <= month <= 12
    &&& 1 <= day <= month_length(year, month)
    &&& 0 <= h <= 23
    &&& 0 <= m <= 59
    &&& 0 <= s <= 59
}

/// Unix time counts from the start of 1970.
pub proof fn lemma_the_epoch()
    ensures
        unix_time(1970, 1, 1, 0, 0, 0) == Some(0i64),
{
}

/// A time is read as a Unix time exactly when each part is within its range.
pub proof fn lemma_what_is_a_time(year: int, month: int, day: int, h: int, m: int, s: int)
    ensures
        unix_time(year, month, day, h, m, s) is Some <==> {
            &&& 0 <= year <= 9999
            &&& 1 <= month <= 12
            &&& 1 <= day <= 31
            &&& 0 <= h <= 23
            &&& 0 <= m <= 59
            &&& 0 <= s <= 60
        },
{
}

/// A time of day is so many seconds after midnight.
pub proof fn lemma_seconds_after_midnight(year: int, month: int, day: int, h: int, m: int, s: int)
    requires
        unix_time(year, month, day, h, m, s) is Some,
    ensures
        unix_time(year, month, day, h, m, s)->0 == unix_time(year, month, day, 0, 0, 0)->0 + (h * 60
            + m) * 60 + s,
{
}

/// The next day of a month starts a day later.
pub proof fn lemma_the_next_day(year: int, month: int, day: int)
    requires
        0 <= year <= 9999,
        1 <= month <= 12,
        1 <= day <= 30,
    ensures
        unix_time(year, month, day + 1, 0, 0, 0)->0 == unix_time(year, month, day, 0, 0, 0)->0 + 24
            * 60 * 60,
{
}

/// The next month starts after as many days as the month has.
pub proof fn lemma_the_next_month(year: int, month: int)
    requires
        0 <= year <= 9999,
        1 <= month <= 11,
    ensures
        unix_time(year, month + 1, 1, 0, 0, 0)->0 == unix_time(year, month, 1, 0, 0, 0)->0
            + month_length(year, month) * 24 * 60 * 60,
{
}

/// The next year starts after the 31 days of December.
pub proof fn lemma_the_next_year(year: int)
    requires
        0 <= year <= 9998,
    ensures
        unix_time(year + 1, 1, 1, 0, 0, 0)->0 == unix_time(year, 12, 1, 0, 0, 0)->0 + 31 * 24 * 60
            * 60,
{
    lemma_year_length(year);
}

/// A month is over before the next one of the year starts.
proof fn lemma_months_in_order(year: int, month: int, later: int)
    requires
        1 <= month < later <= 12,
    ensures
        days_of(year, month, month_length(year, month)) < days_of(year, later, 1),
{
}

/// A year is over before any later one starts.
proof fn lemma_years_in_order(year: int, later: int)
    requires
        year < later,
    ensures
        days_of(year, 12, 31) < days_of(later, 1, 1),
    decreases later - year,
{
    lemma_year_length(year);
    if year + 1 < later {
        lemma_years_in_order(year + 1, later);
    }
}

/// Later moments have later Unix times: of two moments, the one with the later year, or the later
/// month of the same year, or the later day, hour, minute or second where all before are the same,
/// has the larger Unix time.
pub proof fn lemma_later_moments_have_later_times(
    a: (int, int, int, int, int, int),
    b: (int, int, int, int, int, int),
)
    requires
        is_moment(a.0, a.1, a.2, a.3, a.4, a.5),
        is_moment(b.0, b.1, b.2, b.3, b.4, b.5),
        a.0 < b.0 || (a.0 == b.0 && (a.1 < b.1 || (a.1 == b.1 && (a.2 < b.2 || (a.2 == b.2 && (a.3
            < b.3 || (a.3 == b.3 && (a.4 < b.4 || (a.4 == b.4 && a.5 < b.5))))))))),
    ensures
        unix_time(a.0, a.1, a.2, a.3, a.4, a.5) is Some,
        unix_time(b.0, b.1, b.2, b.3, b.4, b.5) is Some,
        unix_time(a.0, a.1, a.2, a.3, a.4, a.5)->0 < unix_time(b.0, b.1, b.2, b.3, b.4, b.5)->0,
{
    if a.0 < b.0 {
        lemma_years_in_order(a.0, b.0);
        lemma_in_the_year(a.0, a.1, a.2);
        lemma_in_the_year(b.0, b.1, b.2);
    } else if a.1 < b.1 {
        lemma_months_in_order(a.0, a.1, b.1);
    }
}

/// A day of a year lies from its first to its last.
proof fn lemma_in_the_year(year: int, month: int, day: int)
    requires
        1 <= month <= 12,
        1 <= day <= month_length(year, month),
    ensures
        days_of(year, 1, 1) <= days_of(year, month, day) <= days_of(year, 12, 31),
{
    if month > 1 {
        lemma_months_in_order(year, 1, month);
    }
    if month < 12 {
        lemma_months_in_order(year, month, 12);
    }
}

/// The English abbreviation of a month.
pub open spec fn month_name(month: int) -> Seq<char> {
    if month == 1 {
        seq!['J', 'a', 'n']
    } else if month == 2 {
        seq!['F', 'e', 'b']
    } else if month == 3 {
        seq!['M', 'a', 'r']
    } else if month == 4 {
        seq!['A', 'p', 'r']
    } else if month == 5 {
        seq!['M', 'a', 'y']
    } else if month == 6 {
        seq!['J', 'u', 'n']
    } else if month == 7 {
        seq!['J', 'u', 'l']
    } else if month == 8 {
        seq!['A', 'u', 'g']
    } else if month == 9 {
        seq!['S', 'e', 'p']
    } else if month == 10 {
        seq!['O', 'c', 't']
    } else if month == 11 {
        seq!['N', 'o', 'v']
    } else {
        seq!['D', 'e', 'c']
    }
}

/// The abbreviation of a month names it, whatever its case, and nothing else does.
pub proof fn lemma_month_names(month: int, s: Seq<char>)
    requires
        1 <= month <= 12,
    ensures
        month_of(s) == Some(month as u32) <==> folded(s) == folded(month_name(month)),
{
    lemma_folded_name(month);
    lemma_folded_name(1);
    lemma_folded_name(2);
    lemma_folded_name(3);
    lemma_folded_name(4);
    lemma_folded_name(5);
    lemma_folded_name(6);
    lemma_folded_name(7);
    lemma_folded_name(8);
    lemma_folded_name(9);
    lemma_folded_name(10);
    lemma_folded_name(11);
    lemma_folded_name(12);
}

/// A month's abbreviation in lower case.
proof fn lemma_folded_name(month: int)
    requires
        1 <= month <= 12,
    ensures
        folded(month_name(month)) =~= (if month == 1 {
            seq!['j', 'a', 'n']
        } else if month == 2 {
            seq!['f', 'e', 'b']
        } else if month == 3 {
            seq!['m', 'a', 'r']
        } else if month == 4 {
            seq!['a', 'p', 'r']
        } else if month == 5 {
            seq!['m', 'a', 'y']
        } else if month == 6 {
            seq!['j', 'u', 'n']
        } else if month == 7 {
            seq!['j', 'u', 'l']
        } else if month == 8 {
            seq!['a', 'u', 'g']
        } else if month == 9 {
            seq!['s', 'e', 'p']
        } else if month == 10 {
            seq!['o', 'c', 't']
        } else if month == 11 {
            seq!['n', 'o', 'v']
        } else {
            seq!['d', 'e', 'c']
        }),
{
}

} // verus!
