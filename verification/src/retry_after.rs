//! The HTTP `Retry-After` header: a number of seconds or an HTTP date.

use vstd::prelude::*;

use crate::clock::{may_be_unix_now, unix_now};
use crate::text::{
    all_digits, chars_of, decimal, digit, is_digit, is_space, parse_i64, parse_u32, parse_unsigned,
    same_chars, signed_i64, split, split_at, trim, trimmed, unsigned, unsigned_to, words, words_of,
};
use crate::time::{max_int, min_int, span, Duration};
use crate::timeutil::{
    civil_to_unix, lemma_month_names, month_in, month_name, month_of, unix_time,
};
use crate::written::{
    blank, clock_text, is_word, lacks, lemma_another_word, lemma_clock_text,
    lemma_digits_are_a_number, lemma_no_word, lemma_one_word, lemma_padded, lemma_three_pieces,
    lemma_trimmed, lemma_widths, lemma_written, lemma_written_and_trimmed, padded, written,
};

verus! {

/// The time of day that `HH:MM:SS` spells.
pub open spec fn time_of_day(s: Seq<char>) -> Option<(int, int, int)> {
    let parts = split(s, ':');
    if parts.len() != 3 {
        None
    } else {
        match (
            unsigned_to(parts[0], u32::MAX as nat),
            unsigned_to(parts[1], u32::MAX as nat),
            unsigned_to(parts[2], u32::MAX as nat),
        ) {
            (Some(h), Some(m), Some(s)) => if h <= 23 && m <= 59 && s <= 60 {
                Some((h as int, m as int, s as int))
            } else {
                None
            },
            _ => None,
        }
    }
}

/// The Unix time of a date whose parts are spelled out.
pub open spec fn spelled_date(
    day: Seq<char>,
    month: Seq<char>,
    year: Option<int>,
    time: Seq<char>,
) -> Option<i64> {
    match (unsigned_to(day, u32::MAX as nat), month_of(month), year, time_of_day(time)) {
        (Some(day), Some(month), Some(year), Some(t)) => unix_time(
            year,
            month as int,
            day as int,
            t.0,
            t.1,
            t.2,
        ),
        _ => None,
    }
}

/// The year that a number stands for.
pub open spec fn full_year(s: Seq<char>) -> Option<int> {
    match signed_i64(s) {
        Some(year) => Some(year as int),
        None => None,
    }
}

/// The year that a two-digit number stands for: from 70 on in the 1900s, else in the 2000s.
pub open spec fn short_year(s: Seq<char>) -> Option<int> {
    match signed_i64(s) {
        Some(yy) => Some(if yy >= 70 {
            1900 + yy
        } else {
            2000 + yy
        }),
        None => None,
    }
}

/// The Unix time of an HTTP date, in any of its three formats.
pub open spec fn http_date(s: Seq<char>) -> Option<i64> {
    let w = words(s);
    if w.len() == 6 && w[5] == "GMT"@ {
        spelled_date(w[1], w[2], full_year(w[3]), w[4])
    } else if w.len() == 5 {
        spelled_date(w[2], w[1], full_year(w[4]), w[3])
    } else if w.len() == 4 && w[3] == "GMT"@ {
        let d = split(w[1], '-');
        if d.len() == 3 {
            spelled_date(d[0], d[1], short_year(d[2]), w[2])
        } else {
            None
        }
    } else {
        None
    }
}

/// The delay that a `Retry-After` value asks for at the Unix time `now`.
pub open spec fn retry_after(s: Seq<char>, now: i64) -> Option<Duration> {
    let value = trimmed(s);
    if all_digits(value) {
        if decimal(value) <= u64::MAX {
            Some(span(decimal(value) * 1_000_000_000))
        } else {
            None
        }
    } else {
        match http_date(value) {
            Some(target) => Some(
                span((min_int(max_int(target - now, 0), i64::MAX as int) * 1_000_000_000) as nat),
            ),
            None => None,
        }
    }
}

/// The time of day that `HH:MM:SS` spells.
fn parse_hms(s: &Vec<char>) -> (time: Option<(u32, u32, u32)>)
    ensures
        time_of_day(s@) == (match time {
            Some(t) => Some((t.0 as int, t.1 as int, t.2 as int)),
            None => None,
        }),
{
    let parts = split_at(s, ':');
    let ghost pieces = split(s@, ':');
    assert(pieces.len() == parts@.len());
    if parts.len() != 3 {
        return None;
    }
    assert(pieces[0] == parts@[0]@ && pieces[1] == parts@[1]@ && pieces[2] == parts@[2]@);
    match (parse_u32(&parts[0]), parse_u32(&parts[1]), parse_u32(&parts[2])) {
        (Some(h), Some(m), Some(s)) => {
            if h <= 23 && m <= 59 && s <= 60 {
                Some((h, m, s))
            } else {
                None
            }
        },
        _ => None,
    }
}

/// The Unix time of a date whose parts are spelled out.
fn date_of(day: &Vec<char>, month: &Vec<char>, year: i64, time: &Vec<char>) -> (secs: Option<i64>)
    ensures
        secs == spelled_date(day@, month@, Some(year as int), time@),
{
    match (parse_u32(day), month_in(month), parse_hms(time)) {
        (Some(day), Some(month), Some((h, m, s))) => civil_to_unix(year, month, day, h, m, s),
        _ => None,
    }
}

/// Whether `s` is `GMT`.
fn is_gmt(s: &Vec<char>) -> (yes: bool)
    ensures
        yes == (s@ == "GMT"@),
{
    same_chars(s, &chars_of("GMT"))
}

/// The Unix time of an HTTP date, in any of its three formats.
pub fn parse_http_date(s: &Vec<char>) -> (secs: Option<i64>)
    ensures
        secs == http_date(s@),
{
    let parts = words_of(s);
    let ghost w = words(s@);
    assert(w.len() == parts@.len());
    assert(forall|i: int| 0 <= i < w.len() ==> w[i] == (#[trigger] parts@[i])@);
    if parts.len() == 6 && is_gmt(&parts[5]) {
        match parse_i64(&parts[3]) {
            Some(year) => date_of(&parts[1], &parts[2], year, &parts[4]),
            None => None,
        }
    } else if parts.len() == 5 {
        match parse_i64(&parts[4]) {
            Some(year) => date_of(&parts[2], &parts[1], year, &parts[3]),
            None => None,
        }
    } else if parts.len() == 4 && is_gmt(&parts[3]) {
        let date = split_at(&parts[1], '-');
        let ghost d = split(w[1], '-');
        assert(d.len() == date@.len());
        if date.len() != 3 {
            return None;
        }
        assert(d[0] == date@[0]@ && d[1] == date@[1]@ && d[2] == date@[2]@);
        match parse_i64(&date[2]) {
            Some(yy) => {
                if yy > 9999 {
                    return None;
                }
                let year: i64 = if yy >= 70 {
                    1900 + yy
                } else if yy < -2000 {
                    -1
                } else {
                    2000 + yy
                };
                date_of(&date[0], &date[1], year, &parts[2])
            },
            None => None,
        }
    } else {
        None
    }
}

/// The delay that a `Retry-After` value asks for at the Unix time `now_unix_secs`.
///
/// Malformed values give nothing. A date in the past asks for no delay.
pub fn parse_retry_after_at(value: &str, now_unix_secs: i64) -> (delay: Option<Duration>)
    ensures
        delay == retry_after(value@, now_unix_secs),
{
    let chars = trim(value);
    let mut i: usize = 0;
    while i < chars.len() && digit(chars[i])
        invariant
            i <= chars@.len(),
            forall|j: int| 0 <= j < i ==> crate::text::is_digit(#[trigger] chars@[j]),
        decreases chars@.len() - i,
    {
        i += 1;
    }
    if i == chars.len() && i > 0 {
        return match parse_unsigned(&chars, u64::MAX) {
            Some(secs) => Some(Duration::from_secs(secs)),
            None => None,
        };
    }
    match parse_http_date(&chars) {
        Some(target) => {
            if target <= now_unix_secs {
                Some(Duration::from_secs(0))
            } else {
                let delta: i128 = target as i128 - now_unix_secs as i128;
                if delta > i64::MAX as i128 {
                    Some(Duration::from_secs(i64::MAX as u64))
                } else {
                    Some(Duration::from_secs(delta as u64))
                }
            }
        },
        None => None,
    }
}

/// The delay that a `Retry-After` value asks for now.
pub fn parse_retry_after(value: &str) -> (delay: Option<Duration>)
    ensures
        exists|now: i64| may_be_unix_now(now) && delay == #[trigger] retry_after(value@, now),
{
    let now: i64 = unix_now();
    parse_retry_after_at(value, now)
}

/// A value of nothing but digits is that many seconds, whatever the time.
pub proof fn lemma_seconds_ignore_the_time(s: Seq<char>, now: i64, other: i64)
    requires
        all_digits(trimmed(s)),
    ensures
        retry_after(s, now) == retry_after(s, other),
{
}

/// A date that is past asks for no delay.
pub proof fn lemma_past_dates_ask_for_no_delay(s: Seq<char>, now: i64, target: i64)
    requires
        !all_digits(trimmed(s)),
        http_date(trimmed(s)) == Some(target),
        target <= now,
    ensures
        retry_after(s, now) == Some(span(0)),
{
}

/// A number of seconds is waited for as it stands, whatever the time, with or without white space
/// round it; one that does not fit in `u64` is refused.
pub proof fn lemma_seconds_are_waited_for(
    before: Seq<char>,
    secs: nat,
    after: Seq<char>,
    now: i64,
)
    requires
        blank(before),
        blank(after),
    ensures
        secs <= u64::MAX ==> (retry_after(before + written(secs) + after, now) matches Some(delay)
            && delay@ == secs * 1_000_000_000),
        secs > u64::MAX ==> retry_after(before + written(secs) + after, now) is None,
{
    lemma_written_and_trimmed(before, secs, after, u64::MAX as nat);
}

/// A date is waited for: the delay lasts from the present Unix time to that of the date, and is
/// none where that is past.
pub proof fn lemma_dates_are_waited_for(
    before: Seq<char>,
    date: Seq<char>,
    after: Seq<char>,
    target: i64,
    now: i64,
    i: int,
)
    requires
        blank(before),
        blank(after),
        0 <= i < date.len(),
        !is_digit(date[i]),
        !is_space(date[0]),
        !is_space(date.last()),
        http_date(date) == Some(target),
        target - now <= i64::MAX,
    ensures
        retry_after(before + date + after, now) matches Some(delay) && if now <= target {
            delay@ == (target - now) * 1_000_000_000
        } else {
            delay@ == 0
        },
{
    lemma_trimmed(before, date, after);
}

/// The time of day of `hh:mm:ss` is that hour, minute and second, up to 23, 59 and 60.
pub proof fn lemma_clocks_are_read_as_written(h: nat, m: nat, s: nat)
    requires
        h < 100,
        m < 100,
        s < 100,
    ensures
        time_of_day(clock_text(h, m, s)) == (if h <= 23 && m <= 59 && s <= 60 {
            Some((h as int, m as int, s as int))
        } else {
            None
        }),
{
    lemma_clock_text(h, m, s);
}

/// A date as in `Sun, 06 Nov 1994 08:49:37 GMT`.
pub open spec fn fixed_date(
    weekday: Seq<char>,
    date: (nat, nat, nat),
    clock: (nat, nat, nat),
) -> Seq<char> {
    ((((weekday.push(' ') + padded(date.2, 2)).push(' ') + month_name(date.1 as int)).push(' ')
        + padded(date.0, 4)).push(' ') + clock_text(clock.0, clock.1, clock.2)).push(' ') + seq![
        'G',
        'M',
        'T',
    ]
}

/// A date as in `Sun Nov  6 08:49:37 1994`.
pub open spec fn c_date(
    weekday: Seq<char>,
    date: (nat, nat, nat),
    clock: (nat, nat, nat),
) -> Seq<char> {
    let month = weekday.push(' ') + month_name(date.1 as int);
    let day = if date.2 < 10 {
        month.push(' ').push(' ') + written(date.2)
    } else {
        month.push(' ') + written(date.2)
    };
    (day.push(' ') + clock_text(clock.0, clock.1, clock.2)).push(' ') + padded(date.0, 4)
}

/// A day as in `06-Nov-94`, with a year of two digits.
pub open spec fn dashed_day(day: nat, month: int, yy: nat) -> Seq<char> {
    (padded(day, 2).push('-') + month_name(month)).push('-') + padded(yy, 2)
}

/// A day with dashes is a word, and is cut into its day, month and year.
proof fn lemma_dashed_day(day: nat, month: int, yy: nat)
    requires
        day < 100,
        1 <= month <= 12,
        yy < 100,
    ensures
        is_word(dashed_day(day, month, yy)),
        split(dashed_day(day, month, yy), '-') =~= seq![
            padded(day, 2),
            month_name(month),
            padded(yy, 2),
        ],
        unsigned(padded(day, 2)) == Some(day),
        signed_i64(padded(yy, 2)) == Some(yy as i64),
{
    let d = padded(day, 2);
    let name = month_name(month);
    let y = padded(yy, 2);
    lemma_widths();
    lemma_padded(day, 2);
    lemma_padded(yy, 2);
    lemma_digits_are_a_number(d);
    lemma_digits_are_a_number(y);
    lemma_month_is_a_word(month);
    assert(!is_digit('-'));
    lemma_three_pieces(d, name, y, '-');
    let whole = dashed_day(day, month, yy);
    assert forall|i: int| 0 <= i < whole.len() implies !is_space(#[trigger] whole[i]) by {
        if i < 2 {
            assert(whole[i] == d[i]);
        } else if 3 <= i < 6 {
            assert(whole[i] == name[i - 3]);
        } else if 7 <= i {
            assert(whole[i] == y[i - 7]);
        }
    }
}

/// A date as in `Sunday, 06-Nov-94 08:49:37 GMT`, with a year of two digits.
pub open spec fn short_date(
    weekday: Seq<char>,
    date: (nat, nat, nat),
    clock: (nat, nat, nat),
) -> Seq<char> {
    let day = dashed_day(date.2, date.1 as int, date.0);
    ((weekday.push(' ') + day).push(' ') + clock_text(clock.0, clock.1, clock.2)).push(' ') + seq![
        'G',
        'M',
        'T',
    ]
}

/// A month's name is a word of letters.
proof fn lemma_month_is_a_word(month: int)
    requires
        1 <= month <= 12,
    ensures
        is_word(month_name(month)),
        lacks(month_name(month), '-'),
        month_name(month).len() == 3,
        month_of(month_name(month)) == Some(month as u32),
{
    let name = month_name(month);
    lemma_month_names(month, name);
    assert forall|i: int| 0 <= i < name.len() implies !is_space(#[trigger] name[i]) by {}
    assert forall|i: int| 0 <= i < name.len() implies #[trigger] name[i] != '-' by {}
}

/// `GMT` is a word.
proof fn lemma_gmt()
    ensures
        "GMT"@ =~= seq!['G', 'M', 'T'],
        is_word("GMT"@),
{
    reveal_strlit("GMT");
    assert("GMT"@ =~= seq!['G', 'M', 'T']);
}

/// A date in the first format is read as the Unix time of its year, month, day and time of day.
pub proof fn lemma_fixed_dates_are_read_as_written(
    weekday: Seq<char>,
    date: (nat, nat, nat),
    clock: (nat, nat, nat),
)
    requires
        is_word(weekday),
        date.0 < 10_000,
        1 <= date.1 <= 12,
        date.2 < 100,
        clock.0 < 100,
        clock.1 < 100,
        clock.2 < 100,
    ensures
        http_date(fixed_date(weekday, date, clock)) == unix_time(
            date.0 as int,
            date.1 as int,
            date.2 as int,
            clock.0 as int,
            clock.1 as int,
            clock.2 as int,
        ),
{
    let (h, m, s) = clock;
    let time = clock_text(h, m, s);
    let month = month_name(date.1 as int);
    let day = padded(date.2, 2);
    let year = padded(date.0, 4);
    lemma_widths();
    lemma_padded(date.2, 2);
    lemma_padded(date.0, 4);
    lemma_digits_are_a_number(day);
    lemma_digits_are_a_number(year);
    lemma_month_is_a_word(date.1 as int);
    lemma_clock_text(h, m, s);
    lemma_clocks_are_read_as_written(h, m, s);
    lemma_gmt();
    let one = weekday;
    let two = one.push(' ') + day;
    let three = two.push(' ') + month;
    let four = three.push(' ') + year;
    let five = four.push(' ') + time;
    lemma_one_word(one);
    lemma_another_word(one, ' ', day);
    lemma_another_word(two, ' ', month);
    lemma_another_word(three, ' ', year);
    lemma_another_word(four, ' ', time);
    lemma_another_word(five, ' ', seq!['G', 'M', 'T']);
    assert(words(fixed_date(weekday, date, clock)) =~= seq![
        weekday,
        day,
        month,
        year,
        time,
        seq!['G', 'M', 'T'],
    ]);
}

/// A date in the second format is read as the Unix time of its year, month, day and time of day.
pub proof fn lemma_c_dates_are_read_as_written(
    weekday: Seq<char>,
    date: (nat, nat, nat),
    clock: (nat, nat, nat),
)
    requires
        is_word(weekday),
        date.0 < 10_000,
        1 <= date.1 <= 12,
        date.2 < 100,
        clock.0 < 100,
        clock.1 < 100,
        clock.2 < 100,
    ensures
        http_date(c_date(weekday, date, clock)) == unix_time(
            date.0 as int,
            date.1 as int,
            date.2 as int,
            clock.0 as int,
            clock.1 as int,
            clock.2 as int,
        ),
{
    let (h, m, s) = clock;
    let time = clock_text(h, m, s);
    let month = month_name(date.1 as int);
    let day = written(date.2);
    let year = padded(date.0, 4);
    lemma_widths();
    lemma_written(date.2);
    lemma_padded(date.0, 4);
    lemma_digits_are_a_number(day);
    lemma_digits_are_a_number(year);
    lemma_month_is_a_word(date.1 as int);
    lemma_clock_text(h, m, s);
    lemma_clocks_are_read_as_written(h, m, s);
    let one = weekday;
    let two = one.push(' ') + month;
    let padded_two = if date.2 < 10 {
        two.push(' ')
    } else {
        two
    };
    let three = padded_two.push(' ') + day;
    let four = three.push(' ') + time;
    lemma_one_word(one);
    lemma_another_word(one, ' ', month);
    lemma_no_word(two, ' ');
    lemma_another_word(padded_two, ' ', day);
    lemma_another_word(three, ' ', time);
    lemma_another_word(four, ' ', year);
    assert(words(c_date(weekday, date, clock)) =~= seq![weekday, month, day, time, year]);
}

/// The parts of a date make up its Unix time.
proof fn lemma_spelled_date(
    day: Seq<char>,
    year: Option<int>,
    date: (int, int, int),
    clock: (nat, nat, nat),
)
    requires
        unsigned(day) == Some(date.2 as nat),
        0 <= date.2 < 100,
        1 <= date.1 <= 12,
        year == Some(date.0),
        clock.0 < 100,
        clock.1 < 100,
        clock.2 < 100,
    ensures
        spelled_date(day, month_name(date.1), year, clock_text(clock.0, clock.1, clock.2))
            == unix_time(
            date.0,
            date.1,
            date.2,
            clock.0 as int,
            clock.1 as int,
            clock.2 as int,
        ),
{
    lemma_month_is_a_word(date.1);
    lemma_clocks_are_read_as_written(clock.0, clock.1, clock.2);
}

/// The words of a date in the third format.
proof fn lemma_short_words(weekday: Seq<char>, date: (nat, nat, nat), clock: (nat, nat, nat))
    requires
        is_word(weekday),
        date.0 < 100,
        1 <= date.1 <= 12,
        date.2 < 100,
        clock.0 < 100,
        clock.1 < 100,
        clock.2 < 100,
    ensures
        words(short_date(weekday, date, clock)) =~= seq![
            weekday,
            dashed_day(date.2, date.1 as int, date.0),
            clock_text(clock.0, clock.1, clock.2),
            "GMT"@,
        ],
{
    let time = clock_text(clock.0, clock.1, clock.2);
    let whole = dashed_day(date.2, date.1 as int, date.0);
    lemma_dashed_day(date.2, date.1 as int, date.0);
    lemma_clock_text(clock.0, clock.1, clock.2);
    lemma_gmt();
    let two = weekday.push(' ') + whole;
    lemma_one_word(weekday);
    lemma_another_word(weekday, ' ', whole);
    lemma_another_word(two, ' ', time);
    lemma_another_word(two.push(' ') + time, ' ', "GMT"@);
}

/// A date in the third format is read as the Unix time of its day and time of day in the year from
/// 1970 to 2069 that ends in the two digits.
pub proof fn lemma_short_dates_are_read_as_written(
    weekday: Seq<char>,
    date: (nat, nat, nat),
    clock: (nat, nat, nat),
)
    requires
        is_word(weekday),
        1970 <= date.0 <= 2069,
        1 <= date.1 <= 12,
        date.2 < 100,
        clock.0 < 100,
        clock.1 < 100,
        clock.2 < 100,
    ensures
        http_date(short_date(weekday, (date.0 % 100, date.1, date.2), clock)) == unix_time(
            date.0 as int,
            date.1 as int,
            date.2 as int,
            clock.0 as int,
            clock.1 as int,
            clock.2 as int,
        ),
{
    let yy = date.0 % 100;
    let text = short_date(weekday, (yy, date.1, date.2), clock);
    let w = words(text);
    let d = split(w[1], '-');
    lemma_short_words(weekday, (yy, date.1, date.2), clock);
    assert(w.len() == 4 && w[3] == "GMT"@ && w[2] == clock_text(clock.0, clock.1, clock.2));
    assert(w[1] == dashed_day(date.2, date.1 as int, yy));
    lemma_dashed_day(date.2, date.1 as int, yy);
    assert(d.len() == 3 && d[0] == padded(date.2, 2) && d[1] == month_name(date.1 as int) && d[2]
        == padded(yy, 2));
    assert(short_year(d[2]) == Some(date.0 as int));
    assert(http_date(text) == spelled_date(d[0], d[1], short_year(d[2]), w[2]));
    lemma_spelled_date(
        d[0],
        short_year(d[2]),
        (date.0 as int, date.1 as int, date.2 as int),
        clock,
    );
}

} // verus!
