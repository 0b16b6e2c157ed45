//! Rate-limit response headers, and reconciling a throttle with what the server reports.

use vstd::prelude::*;

use crate::clock::{may_be_unix_now, reading_of, unix_now, Clock};
use crate::retry_after::{lemma_seconds_are_waited_for, parse_retry_after_at, retry_after};
use crate::text::{
    all_digits, chars_of, decimal, digit, folded, is_digit, is_letter, letter, parse_i64, parse_u32,
    parse_unsigned, same_chars, same_folded, signed_i64, slice_of, split, split_at, trim, trimmed,
    unsigned_to,
};
use crate::throttle::{lemma_a_drained_throttle_holds_what_remains, Throttle};
use crate::time::{max_int, min_int, span, Duration, MAX_NANOS};
use crate::timeutil::{
    civil_to_unix, is_moment, lemma_later_moments_have_later_times, unix_time,
};
use crate::written::{
    blank, clock_text, date_text, lacks, lemma_another_piece, lemma_clock_text, lemma_date_text,
    lemma_digits_are_a_number, lemma_one_piece, lemma_padded, lemma_signs, lemma_trimmed, lemma_written,
    lemma_written_and_trimmed, padded, written,
};

verus! {

/// What a server reports of one metered quantity.
#[derive(Debug, Clone, Copy, PartialEq, Eq, Structural)]
pub struct Window {
    /// The most units in the window.
    pub limit: Option<u64>,
    /// The units that are left.
    pub remaining: Option<u64>,
    /// The time until the window starts anew.
    pub reset: Option<Duration>,
}

impl Default for Window {
    fn default() -> (window: Self)
        ensures
            window == (Window { limit: None, remaining: None, reset: None }),
    {
        Window { limit: None, remaining: None, reset: None }
    }
}

/// What the headers of a response say of its sender's limits.
#[derive(Debug, Clone, Copy, PartialEq, Eq, Structural)]
pub struct RateLimitInfo {
    /// The requests, if they are reported.
    pub requests: Option<Window>,
    /// The tokens, if they are reported.
    pub tokens: Option<Window>,
    /// The delay that the server asks for, if any.
    pub retry_after: Option<Duration>,
}

impl Default for RateLimitInfo {
    fn default() -> (info: Self)
        ensures
            info == (RateLimitInfo { requests: None, tokens: None, retry_after: None }),
    {
        RateLimitInfo { requests: None, tokens: None, retry_after: None }
    }
}

/// How many of the digits at the start of `s` there are.
pub open spec fn digit_run(s: Seq<char>) -> nat
    decreases s.len(),
{
    if s.len() > 0 && is_digit(s[0]) {
        1 + digit_run(s.drop_first())
    } else {
        0
    }
}

/// How many of the letters at the start of `s` there are.
pub open spec fn letter_run(s: Seq<char>) -> nat
    decreases s.len(),
{
    if s.len() > 0 && is_letter(s[0]) {
        1 + letter_run(s.drop_first())
    } else {
        0
    }
}

/// The nanoseconds in `number` of the unit that `unit` names.
pub open spec fn unit_nanos(number: nat, unit: Seq<char>) -> Option<nat> {
    if unit == "ms"@ {
        Some(number * 1_000_000)
    } else if unit == "s"@ {
        Some(number * 1_000_000_000)
    } else if unit == "m"@ {
        Some((min_int(number as int * 60, u64::MAX as int) * 1_000_000_000) as nat)
    } else if unit == "h"@ {
        Some((min_int(number as int * 3600, u64::MAX as int) * 1_000_000_000) as nat)
    } else {
        None
    }
}

/// The nanoseconds that numbers with units spell, one after the other.
pub open spec fn spelled_nanos(s: Seq<char>) -> Option<nat>
    decreases s.len(),
{
    let d = digit_run(s) as int;
    let unit = s.skip(d);
    let u = letter_run(unit) as int;
    let rest = unit.skip(u);
    if s.len() == 0 {
        Some(0)
    } else if d == 0 || rest.len() >= s.len() || decimal(s.take(d)) > u64::MAX {
        None
    } else {
        match (unit_nanos(decimal(s.take(d)), unit.take(u)), spelled_nanos(rest)) {
            (Some(n), Some(m)) => Some(n + m),
            _ => None,
        }
    }
}

/// The span that a duration spells: a bare number of seconds, or numbers with units.
pub open spec fn spelled_duration(s: Seq<char>) -> Option<Duration> {
    match unsigned_to(s, u64::MAX as nat) {
        Some(secs) => Some(span(secs * 1_000_000_000)),
        None => if s.len() == 0 {
            None
        } else {
            match spelled_nanos(s) {
                Some(nanos) => Some(span(min_int(nanos as int, MAX_NANOS as int) as nat)),
                None => None,
            }
        },
    }
}

proof fn lemma_digit_run(s: Seq<char>)
    ensures
        digit_run(s) <= s.len(),
        forall|i: int| 0 <= i < digit_run(s) ==> is_digit(#[trigger] s[i]),
        digit_run(s) < s.len() ==> !is_digit(s[digit_run(s) as int]),
    decreases s.len(),
{
    if s.len() > 0 && is_digit(s[0]) {
        let rest = s.drop_first();
        lemma_digit_run(rest);
        assert forall|i: int| 0 <= i < digit_run(s) implies is_digit(#[trigger] s[i]) by {
            if i > 0 {
                assert(rest[i - 1] == s[i]);
            }
        }
    }
}

proof fn lemma_letter_run(s: Seq<char>)
    ensures
        letter_run(s) <= s.len(),
    decreases s.len(),
{
    if s.len() > 0 && is_letter(s[0]) {
        lemma_letter_run(s.drop_first());
    }
}

/// The nanoseconds in `number` of the unit that `unit` names.
fn unit_span(number: u64, unit: &Vec<char>) -> (span: Option<Duration>)
    ensures
        unit_nanos(number as nat, unit@) == (match span {
            Some(d) => Some(d@),
            None => None,
        }),
{
    if same_chars(unit, &chars_of("ms")) {
        Some(Duration::from_millis(number))
    } else if same_chars(unit, &chars_of("s")) {
        Some(Duration::from_secs(number))
    } else if same_chars(unit, &chars_of("m")) {
        let secs: u64 = if number > u64::MAX / 60 {
            u64::MAX
        } else {
            number * 60
        };
        Some(Duration::from_secs(secs))
    } else if same_chars(unit, &chars_of("h")) {
        let secs: u64 = if number > u64::MAX / 3600 {
            u64::MAX
        } else {
            number * 3600
        };
        Some(Duration::from_secs(secs))
    } else {
        None
    }
}

/// Where the run of digits that starts at `from` ends.
fn digits_end(s: &Vec<char>, from: usize) -> (to: usize)
    requires
        from <= s@.len(),
    ensures
        from <= to <= s@.len(),
        to - from == digit_run(s@.skip(from as int)),
{
    let mut to: usize = from;
    let ghost all = s@.skip(from as int);
    assert(all.skip(0) =~= all);
    while to < s.len() && digit(s[to])
        invariant
            from <= to <= s@.len(),
            all == s@.skip(from as int),
            digit_run(all) == (to - from) + digit_run(all.skip(to - from)),
        decreases s@.len() - to,
    {
        assert(all.skip(to - from)[0] == s@[to as int]);
        assert(all.skip(to - from).drop_first() =~= all.skip(to - from + 1));
        to += 1;
    }
    assert(to < s@.len() ==> all.skip(to - from)[0] == s@[to as int]);
    to
}

/// Where the run of letters that starts at `from` ends.
fn letters_end(s: &Vec<char>, from: usize) -> (to: usize)
    requires
        from <= s@.len(),
    ensures
        from <= to <= s@.len(),
        to - from == letter_run(s@.skip(from as int)),
{
    let mut to: usize = from;
    let ghost all = s@.skip(from as int);
    assert(all.skip(0) =~= all);
    while to < s.len() && letter(s[to])
        invariant
            from <= to <= s@.len(),
            all == s@.skip(from as int),
            letter_run(all) == (to - from) + letter_run(all.skip(to - from)),
        decreases s@.len() - to,
    {
        assert(all.skip(to - from)[0] == s@[to as int]);
        assert(all.skip(to - from).drop_first() =~= all.skip(to - from + 1));
        to += 1;
    }
    assert(to < s@.len() ==> all.skip(to - from)[0] == s@[to as int]);
    to
}

/// The span that a duration such as `1s`, `6m0s` or `100ms`, or a bare number of seconds, spells.
pub fn parse_duration_string(value: &str) -> (span: Option<Duration>)
    ensures
        span == spelled_duration(value@),
{
    duration_in(&chars_of(value))
}

/// The span that a duration spells.
fn duration_in(value: &Vec<char>) -> (span: Option<Duration>)
    ensures
        span == spelled_duration(value@),
{
    if value.len() == 0 {
        return None;
    }
    match parse_unsigned(value, u64::MAX) {
        Some(secs) => {
            return Some(Duration::from_secs(secs));
        },
        None => {},
    }
    let mut total = Duration::zero();
    let mut i: usize = 0;
    assert(value@.skip(0) =~= value@);
    while i < value.len()
        invariant
            i <= value@.len(),
            value@.len() > 0,
            unsigned_to(value@, u64::MAX as nat) is None,
            total@ <= MAX_NANOS,
            spelled_nanos(value@) is Some <==> spelled_nanos(value@.skip(i as int)) is Some,
            spelled_nanos(value@.skip(i as int)) is Some ==> min_int(
                spelled_nanos(value@)->0 as int,
                MAX_NANOS as int,
            ) == min_int(total@ + spelled_nanos(value@.skip(i as int))->0 as int, MAX_NANOS as int),
        decreases value@.len() - i,
    {
        let ghost s = value@.skip(i as int);
        let unit_at: usize = digits_end(value, i);
        let ghost d = unit_at - i;
        assert(s.skip(d) =~= value@.skip(unit_at as int));
        assert(s.take(d) =~= value@.subrange(i as int, unit_at as int));
        let next: usize = letters_end(value, unit_at);
        let ghost u = next - unit_at;
        assert(s.skip(d).skip(u) =~= value@.skip(next as int));
        assert(s.skip(d).take(u) =~= value@.subrange(unit_at as int, next as int));
        if unit_at == i {
            return None;
        }
        let digits = slice_of(value, i, unit_at);
        proof {
            lemma_digit_run(s);
            assert(crate::text::all_digits(digits@));
            assert(digits@[0] == s[0]);
        }
        let number: u64 = match parse_unsigned(&digits, u64::MAX) {
            Some(number) => number,
            None => {
                return None;
            },
        };
        let part = match unit_span(number, &slice_of(value, unit_at, next)) {
            Some(part) => part,
            None => {
                return None;
            },
        };
        total = total.saturating_add(part);
        i = next;
    }
    assert(value@.skip(i as int).len() == 0);
    Some(total)
}

/// Where `c` first stands in `s`, the length of `s` if nowhere.
pub open spec fn first(s: Seq<char>, c: char) -> nat
    decreases s.len(),
{
    if s.len() == 0 || s[0] == c {
        0
    } else {
        1 + first(s.drop_first(), c)
    }
}

/// Where `c` first stands in `s`, the length of `s` if nowhere.
fn find(s: &Vec<char>, c: char) -> (at: usize)
    ensures
        at == first(s@, c),
        at <= s@.len(),
        at < s@.len() ==> s@[at as int] == c,
{
    let mut at: usize = 0;
    assert(s@.skip(0) =~= s@);
    while at < s.len() && s[at] != c
        invariant
            at <= s@.len(),
            first(s@, c) == at + first(s@.skip(at as int), c),
        decreases s@.len() - at,
    {
        assert(s@.skip(at as int).drop_first() =~= s@.skip(at + 1));
        at += 1;
    }
    at
}

/// The Unix time of an RFC 3339 instant in UTC, whatever the fraction of its second.
pub open spec fn rfc3339(s: Seq<char>) -> Option<i64> {
    let t = first(s, 'T') as int;
    let rest = s.skip(t + 1);
    if t >= s.len() || rest.len() == 0 || (rest.last() != 'Z' && rest.last() != 'z') {
        None
    } else {
        let d = split(s.take(t), '-');
        let c = split(split(rest.drop_last(), '.')[0], ':');
        if d.len() != 3 || c.len() != 3 {
            None
        } else {
            match (
                signed_i64(d[0]),
                unsigned_to(d[1], u32::MAX as nat),
                unsigned_to(d[2], u32::MAX as nat),
                unsigned_to(c[0], u32::MAX as nat),
                unsigned_to(c[1], u32::MAX as nat),
                unsigned_to(c[2], u32::MAX as nat),
            ) {
                (Some(year), Some(month), Some(day), Some(h), Some(m), Some(s)) => unix_time(
                    year as int,
                    month as int,
                    day as int,
                    h as int,
                    m as int,
                    s as int,
                ),
                _ => None,
            }
        }
    }
}

/// There is always a first piece.
proof fn lemma_split_is_not_empty(s: Seq<char>, sep: char)
    ensures
        split(s, sep).len() > 0,
    decreases s.len(),
{
    if s.len() > 0 {
        lemma_split_is_not_empty(s.drop_last(), sep);
    }
}

/// The Unix time of an RFC 3339 instant in UTC. Other offsets give nothing.
pub fn parse_rfc3339(value: &str) -> (secs: Option<i64>)
    ensures
        secs == rfc3339(value@),
{
    instant_in(&chars_of(value))
}

/// The Unix time of an RFC 3339 instant in UTC.
fn instant_in(value: &Vec<char>) -> (secs: Option<i64>)
    ensures
        secs == rfc3339(value@),
{
    let t: usize = find(value, 'T');
    let n: usize = value.len();
    if t >= n || t + 1 >= n {
        return None;
    }
    let ghost rest = value@.skip(t + 1);
    assert(rest.last() == value@[n - 1]);
    if value[n - 1] != 'Z' && value[n - 1] != 'z' {
        return None;
    }
    assert(value@.subrange(0, t as int) =~= value@.take(t as int));
    assert(value@.subrange(t + 1, n - 1) =~= rest.drop_last());
    let date = split_at(&slice_of(value, 0, t), '-');
    let ghost d = split(value@.take(t as int), '-');
    assert(d.len() == date@.len());
    assert(forall|i: int| 0 <= i < d.len() ==> d[i] == (#[trigger] date@[i])@);
    let whole = split_at(&slice_of(value, t + 1, n - 1), '.');
    let ghost w = split(rest.drop_last(), '.');
    proof {
        lemma_split_is_not_empty(rest.drop_last(), '.');
        assert(w.len() == whole@.len());
        assert(w[0] == whole@[0]@);
    }
    let clock = split_at(&whole[0], ':');
    let ghost c = split(w[0], ':');
    assert(c.len() == clock@.len());
    assert(forall|i: int| 0 <= i < c.len() ==> c[i] == (#[trigger] clock@[i])@);
    if date.len() != 3 || clock.len() != 3 {
        return None;
    }
    match (
        parse_i64(&date[0]),
        parse_u32(&date[1]),
        parse_u32(&date[2]),
        parse_u32(&clock[0]),
        parse_u32(&clock[1]),
        parse_u32(&clock[2]),
    ) {
        (Some(year), Some(month), Some(day), Some(h), Some(m), Some(s)) => civil_to_unix(
            year,
            month,
            day,
            h,
            m,
            s,
        ),
        _ => None,
    }
}

/// How a provider writes the time at which a window starts anew.
#[derive(Debug, Clone, Copy, PartialEq, Eq, Structural)]
pub enum ResetFormat {
    /// Whole seconds from now.
    DeltaSeconds,
    /// A duration such as `1s`, `6m0s` or `100ms`.
    DurationString,
    /// A Unix time in seconds.
    UnixSeconds,
    /// An RFC 3339 instant.
    Rfc3339,
}

/// The time from `now` until the Unix time `at`.
pub open spec fn until(at: Option<i64>, now: i64) -> Option<Duration> {
    match at {
        Some(at) => Some(span((max_int(at - now, 0) * 1_000_000_000) as nat)),
        None => None,
    }
}

/// The time until a window starts anew, as `value` writes it.
pub open spec fn reset_of(format: ResetFormat, value: Seq<char>, now: i64) -> Option<Duration> {
    let value = trimmed(value);
    match format {
        ResetFormat::DeltaSeconds => match unsigned_to(value, u64::MAX as nat) {
            Some(secs) => Some(span(secs * 1_000_000_000)),
            None => None,
        },
        ResetFormat::DurationString => spelled_duration(value),
        ResetFormat::UnixSeconds => until(signed_i64(value), now),
        ResetFormat::Rfc3339 => until(rfc3339(value), now),
    }
}

/// The time from `now` until the Unix time `at`.
fn time_until(at: Option<i64>, now: i64) -> (time: Option<Duration>)
    ensures
        time == until(at, now),
{
    match at {
        Some(at) => {
            let secs: u64 = if at > now {
                (at as i128 - now as i128) as u64
            } else {
                0
            };
            Some(Duration::from_secs(secs))
        },
        None => None,
    }
}

/// The time until a window starts anew, as `value` writes it.
pub fn parse_reset(format: ResetFormat, value: &str, now: i64) -> (time: Option<Duration>)
    ensures
        time == reset_of(format, value@, now),
{
    let value = trim(value);
    match format {
        ResetFormat::DeltaSeconds => match parse_unsigned(&value, u64::MAX) {
            Some(secs) => Some(Duration::from_secs(secs)),
            None => None,
        },
        ResetFormat::DurationString => duration_in(&value),
        ResetFormat::UnixSeconds => time_until(parse_i64(&value), now),
        ResetFormat::Rfc3339 => time_until(instant_in(&value), now),
    }
}

/// The value of the first header called `name`, in any case.
pub open spec fn header_value(headers: Seq<(&str, &str)>, name: Seq<char>) -> Option<Seq<char>>
    decreases headers.len(),
{
    if headers.len() == 0 {
        None
    } else if folded(headers[0].0@) == folded(name) {
        Some(headers[0].1@)
    } else {
        header_value(headers.drop_first(), name)
    }
}

/// The value of the first header called `name`, in any case.
fn header<'a>(headers: &[(&'a str, &'a str)], name: &str) -> (value: Option<&'a str>)
    ensures
        header_value(headers@, name@) == (match value {
            Some(v) => Some(v@),
            None => None,
        }),
{
    let wanted = chars_of(name);
    let mut i: usize = 0;
    assert(headers@.skip(0) =~= headers@);
    while i < headers.len()
        invariant
            i <= headers@.len(),
            wanted@ == name@,
            header_value(headers@, name@) == header_value(headers@.skip(i as int), name@),
        decreases headers@.len() - i,
    {
        assert(headers@.skip(i as int).drop_first() =~= headers@.skip(i + 1));
        assert(headers@.skip(i as int)[0] == headers@[i as int]);
        if same_folded(&chars_of(headers[i].0), &wanted) {
            return Some(headers[i].1);
        }
        i += 1;
    }
    None
}

/// The names of the headers that report one metered quantity.
pub struct Triple {
    /// The header with the most units.
    pub limit: &'static str,
    /// The header with the units that are left.
    pub remaining: &'static str,
    /// The header with the time at which the window starts anew.
    pub reset: &'static str,
}

/// One provider's headers.
#[derive(Debug, Clone, Copy, PartialEq, Eq, Structural)]
pub enum HeaderProfile {
    /// OpenAI: requests and tokens, with the reset as a duration.
    OPENAI,
    /// Anthropic: requests and tokens, with the reset as an RFC 3339 instant.
    ANTHROPIC,
    /// GitHub: requests, with the reset as a Unix time.
    GITHUB,
    /// The IETF `RateLimit` draft: requests, with the reset in seconds.
    RFC,
    /// Stripe: only `Retry-After`.
    STRIPE,
    /// AWS: only `Retry-After`.
    AWS,
}

/// Three header names.
pub type Names = (Seq<char>, Seq<char>, Seq<char>);

impl HeaderProfile {
    /// The names of the headers that report requests: the most, those left, and the reset.
    pub open spec fn request_names(self) -> Option<Names> {
        match self {
            HeaderProfile::OPENAI => Some(
                (
                    "x-ratelimit-limit-requests"@,
                    "x-ratelimit-remaining-requests"@,
                    "x-ratelimit-reset-requests"@,
                ),
            ),
            HeaderProfile::ANTHROPIC => Some(
                (
                    "anthropic-ratelimit-requests-limit"@,
                    "anthropic-ratelimit-requests-remaining"@,
                    "anthropic-ratelimit-requests-reset"@,
                ),
            ),
            HeaderProfile::GITHUB => Some(
                ("x-ratelimit-limit"@, "x-ratelimit-remaining"@, "x-ratelimit-reset"@),
            ),
            HeaderProfile::RFC => Some(
                ("ratelimit-limit"@, "ratelimit-remaining"@, "ratelimit-reset"@),
            ),
            HeaderProfile::STRIPE => None,
            HeaderProfile::AWS => None,
        }
    }

    /// The names of the headers that report tokens: the most, those left, and the reset.
    pub open spec fn token_names(self) -> Option<Names> {
        match self {
            HeaderProfile::OPENAI => Some(
                (
                    "x-ratelimit-limit-tokens"@,
                    "x-ratelimit-remaining-tokens"@,
                    "x-ratelimit-reset-tokens"@,
                ),
            ),
            HeaderProfile::ANTHROPIC => Some(
                (
                    "anthropic-ratelimit-tokens-limit"@,
                    "anthropic-ratelimit-tokens-remaining"@,
                    "anthropic-ratelimit-tokens-reset"@,
                ),
            ),
            _ => None,
        }
    }

    /// How the provider writes resets.
    pub open spec fn format(self) -> ResetFormat {
        match self {
            HeaderProfile::OPENAI => ResetFormat::DurationString,
            HeaderProfile::ANTHROPIC => ResetFormat::Rfc3339,
            HeaderProfile::GITHUB => ResetFormat::UnixSeconds,
            _ => ResetFormat::DeltaSeconds,
        }
    }

    /// What the headers report under three names, nothing if none of them holds a value.
    pub open spec fn window_of(
        self,
        headers: Seq<(&str, &str)>,
        names: Option<Names>,
        now: i64,
    ) -> Option<Window> {
        match names {
            Some(names) => {
                let limit = count_of(header_value(headers, names.0));
                let remaining = count_of(header_value(headers, names.1));
                let reset = match header_value(headers, names.2) {
                    Some(value) => reset_of(self.format(), value, now),
                    None => None,
                };
                if limit is None && remaining is None && reset is None {
                    None
                } else {
                    Some(Window { limit, remaining, reset })
                }
            },
            None => None,
        }
    }

    /// What the headers of a response report at the Unix time `now`.
    pub open spec fn info_of(self, headers: Seq<(&str, &str)>, now: i64) -> RateLimitInfo {
        RateLimitInfo {
            requests: self.window_of(headers, self.request_names(), now),
            tokens: self.window_of(headers, self.token_names(), now),
            retry_after: match header_value(headers, "retry-after"@) {
                Some(value) => retry_after(value, now),
                None => None,
            },
        }
    }

    fn request_headers(&self) -> (names: Option<Triple>)
        ensures
            self.request_names() == (match names {
                Some(t) => Some((t.limit@, t.remaining@, t.reset@)),
                None => None,
            }),
    {
        match self {
            HeaderProfile::OPENAI => Some(
                Triple {
                    limit: "x-ratelimit-limit-requests",
                    remaining: "x-ratelimit-remaining-requests",
                    reset: "x-ratelimit-reset-requests",
                },
            ),
            HeaderProfile::ANTHROPIC => Some(
                Triple {
                    limit: "anthropic-ratelimit-requests-limit",
                    remaining: "anthropic-ratelimit-requests-remaining",
                    reset: "anthropic-ratelimit-requests-reset",
                },
            ),
            HeaderProfile::GITHUB => Some(
                Triple {
                    limit: "x-ratelimit-limit",
                    remaining: "x-ratelimit-remaining",
                    reset: "x-ratelimit-reset",
                },
            ),
            HeaderProfile::RFC => Some(
                Triple {
                    limit: "ratelimit-limit",
                    remaining: "ratelimit-remaining",
                    reset: "ratelimit-reset",
                },
            ),
            HeaderProfile::STRIPE => None,
            HeaderProfile::AWS => None,
        }
    }

    fn token_headers(&self) -> (names: Option<Triple>)
        ensures
            self.token_names() == (match names {
                Some(t) => Some((t.limit@, t.remaining@, t.reset@)),
                None => None,
            }),
    {
        match self {
            HeaderProfile::OPENAI => Some(
                Triple {
                    limit: "x-ratelimit-limit-tokens",
                    remaining: "x-ratelimit-remaining-tokens",
                    reset: "x-ratelimit-reset-tokens",
                },
            ),
            HeaderProfile::ANTHROPIC => Some(
                Triple {
                    limit: "anthropic-ratelimit-tokens-limit",
                    remaining: "anthropic-ratelimit-tokens-remaining",
                    reset: "anthropic-ratelimit-tokens-reset",
                },
            ),
            _ => None,
        }
    }

    fn reset_format(&self) -> (format: ResetFormat)
        ensures
            format == self.format(),
    {
        match self {
            HeaderProfile::OPENAI => ResetFormat::DurationString,
            HeaderProfile::ANTHROPIC => ResetFormat::Rfc3339,
            HeaderProfile::GITHUB => ResetFormat::UnixSeconds,
            _ => ResetFormat::DeltaSeconds,
        }
    }

    fn window(&self, headers: &[(&str, &str)], names: Option<Triple>, now: i64) -> (window: Option<
        Window,
    >)
        ensures
            window == self.window_of(
                headers@,
                match names {
                    Some(t) => Some((t.limit@, t.remaining@, t.reset@)),
                    None => None,
                },
                now,
            ),
    {
        let names = match names {
            Some(names) => names,
            None => {
                return None;
            },
        };
        let limit: Option<u64> = parse_count(header(headers, names.limit));
        let remaining: Option<u64> = parse_count(header(headers, names.remaining));
        let reset = match header(headers, names.reset) {
            Some(value) => parse_reset(self.reset_format(), value, now),
            None => None,
        };
        if limit.is_none() && remaining.is_none() && reset.is_none() {
            None
        } else {
            Some(Window { limit, remaining, reset })
        }
    }

    /// What the headers of a response report at the Unix time `now_unix_secs`. Values that cannot
    /// be read are left out.
    pub fn parse_at(&self, headers: &[(&str, &str)], now_unix_secs: i64) -> (info: RateLimitInfo)
        ensures
            info == self.info_of(headers@, now_unix_secs),
    {
        RateLimitInfo {
            requests: self.window(headers, self.request_headers(), now_unix_secs),
            tokens: self.window(headers, self.token_headers(), now_unix_secs),
            retry_after: match header(headers, "retry-after") {
                Some(value) => parse_retry_after_at(value, now_unix_secs),
                None => None,
            },
        }
    }

    /// What the headers of a response report now.
    pub fn parse(&self, headers: &[(&str, &str)]) -> (info: RateLimitInfo)
        ensures
            exists|now: i64| may_be_unix_now(now) && info == #[trigger] self.info_of(headers@, now),
    {
        let now: i64 = unix_now();
        self.parse_at(headers, now)
    }
}

/// The count that a header's value spells.
pub open spec fn count_of(value: Option<Seq<char>>) -> Option<u64> {
    match value {
        Some(value) => match unsigned_to(trimmed(value), u64::MAX as nat) {
            Some(n) => Some(n as u64),
            None => None,
        },
        None => None,
    }
}

/// The count that a header's value spells.
fn parse_count(value: Option<&str>) -> (n: Option<u64>)
    ensures
        n == count_of(
            match value {
                Some(v) => Some(v@),
                None => None,
            },
        ),
{
    match value {
        Some(value) => parse_unsigned(&trim(value), u64::MAX),
        None => None,
    }
}

impl RateLimitInfo {
    /// Takes tokens from `throttle` until it holds no more than the requests that the server
    /// reports as left. Gives how many were taken. Tokens are never added.
    pub fn sync_requests<C: Clock>(&self, throttle: &mut Throttle<C>) -> (drained: u32)
        requires
            old(throttle).bucket().valid(),
        ensures
            synced(*old(throttle), *final(throttle), self.requests, drained),
            forall|t: Duration| #[trigger]
                final(throttle).bucket().tokens(t) <= old(throttle).bucket().tokens(t),
    {
        reconcile(throttle, self.requests)
    }

    /// Takes tokens from `throttle` until it holds no more than the tokens that the server reports
    /// as left. Gives how many were taken. Tokens are never added.
    pub fn sync_tokens<C: Clock>(&self, throttle: &mut Throttle<C>) -> (drained: u32)
        requires
            old(throttle).bucket().valid(),
        ensures
            synced(*old(throttle), *final(throttle), self.tokens, drained),
            forall|t: Duration| #[trigger]
                final(throttle).bucket().tokens(t) <= old(throttle).bucket().tokens(t),
    {
        reconcile(throttle, self.tokens)
    }
}

/// Whether reconciling with `window`, at a reading of the throttle's own clock, took `drained`
/// tokens and turned `pre` into `post`.
pub open spec fn synced<C: Clock>(
    pre: Throttle<C>,
    post: Throttle<C>,
    window: Option<Window>,
    drained: u32,
) -> bool {
    match window {
        Some(Window { remaining: Some(remaining), .. }) => exists|now: Duration|
            reading_of(pre.clock(), now) && #[trigger] pre.drained(&post, remaining, now, drained),
        _ => drained == 0 && post == pre,
    }
}

/// A throttle that was reconciled holds no more than the server reports, at the reading of its own
/// clock at which it was, and what it held if that was less; as long as it counts single tokens.
pub proof fn lemma_a_synced_throttle_matches_the_server<C: Clock>(
    pre: Throttle<C>,
    post: Throttle<C>,
    window: Window,
    remaining: u64,
    drained: u32,
)
    requires
        synced(pre, post, Some(window), drained),
        window.remaining == Some(remaining),
        pre.bucket().exact(),
    ensures
        exists|now: Duration|
            {
                &&& reading_of(pre.clock(), now)
                &&& #[trigger] post.bucket().tokens(now) == min_int(
                    pre.bucket().tokens(now) as int,
                    remaining as int,
                )
                &&& drained == pre.bucket().tokens(now) - post.bucket().tokens(now)
            },
{
    let now = choose|now: Duration|
        reading_of(pre.clock(), now) && #[trigger] pre.drained(&post, remaining, now, drained);
    lemma_a_drained_throttle_holds_what_remains(pre, post, remaining, now, drained);
    assert(post.bucket().tokens(now) <= remaining);
}

fn reconcile<C: Clock>(throttle: &mut Throttle<C>, window: Option<Window>) -> (drained: u32)
    requires
        old(throttle).bucket().valid(),
    ensures
        synced(*old(throttle), *final(throttle), window, drained),
        forall|t: Duration| #[trigger]
            final(throttle).bucket().tokens(t) <= old(throttle).bucket().tokens(t),
{
    match window {
        Some(window) => match window.remaining {
            Some(remaining) => throttle.drain_to(remaining),
            None => 0,
        },
        None => 0,
    }
}

/// An instant as `YYYY-MM-DDThh:mm:ssZ`.
pub open spec fn instant_text(date: (nat, nat, nat), clock: (nat, nat, nat)) -> Seq<char> {
    (date_text(date.0, date.1, date.2).push('T') + clock_text(clock.0, clock.1, clock.2)).push('Z')
}

/// An instant with a fraction of a second, as `YYYY-MM-DDThh:mm:ss.fffZ`.
pub open spec fn instant_with_fraction(
    date: (nat, nat, nat),
    clock: (nat, nat, nat),
    fraction: Seq<char>,
) -> Seq<char> {
    ((date_text(date.0, date.1, date.2).push('T') + clock_text(clock.0, clock.1, clock.2)).push('.')
        + fraction).push('Z')
}

/// What stands before the first `c` has as many characters as `c` is far from the start.
proof fn lemma_first(a: Seq<char>, c: char, b: Seq<char>)
    requires
        lacks(a, c),
    ensures
        first(a.push(c) + b, c) == a.len(),
    decreases a.len(),
{
    let s = a.push(c) + b;
    if a.len() == 0 {
        assert(s[0] == c);
    } else {
        let rest = a.drop_first();
        assert(s[0] == a[0] && a[0] != c);
        assert forall|i: int| 0 <= i < rest.len() implies #[trigger] rest[i] != c by {
            assert(rest[i] == a[i + 1]);
        }
        assert(s.drop_first() =~= rest.push(c) + b);
        lemma_first(rest, c, b);
    }
}

/// An instant is read as the Unix time of its year, month, day, hour, minute and second, whatever
/// the fraction of its second.
pub proof fn lemma_instants_are_read_as_written(
    date: (nat, nat, nat),
    clock: (nat, nat, nat),
    fraction: Seq<char>,
)
    requires
        date.0 < 10_000,
        date.1 < 100,
        date.2 < 100,
        clock.0 < 100,
        clock.1 < 100,
        clock.2 < 100,
        all_digits(fraction),
    ensures
        rfc3339(instant_text(date, clock)) == unix_time(
            date.0 as int,
            date.1 as int,
            date.2 as int,
            clock.0 as int,
            clock.1 as int,
            clock.2 as int,
        ),
        rfc3339(instant_with_fraction(date, clock, fraction)) == rfc3339(instant_text(date, clock)),
{
    let day = date_text(date.0, date.1, date.2);
    let time = clock_text(clock.0, clock.1, clock.2);
    lemma_date_text(date.0, date.1, date.2);
    lemma_clock_text(clock.0, clock.1, clock.2);
    lemma_digits_are_a_number(fraction);
    assert(!is_digit('T') && !is_digit('.'));
    assert(lacks(day, 'T') && lacks(time, '.') && lacks(fraction, '.'));
    lemma_one_piece(time, '.');
    lemma_another_piece(time, '.', fraction);
    let plain = instant_text(date, clock);
    let long = instant_with_fraction(date, clock, fraction);
    let after = (time.push('.') + fraction).push('Z');
    assert(plain =~= day.push('T') + time.push('Z'));
    assert(long =~= day.push('T') + after);
    lemma_first(day, 'T', time.push('Z'));
    lemma_first(day, 'T', after);
    assert(plain.take(10) =~= day);
    assert(long.take(10) =~= day);
    assert(plain.skip(11) =~= time.push('Z'));
    assert(long.skip(11) =~= after);
    assert(time.push('Z').drop_last() =~= time);
    assert(after.drop_last() =~= time.push('.') + fraction);
}

/// Of two instants the one that is later in the calendar is read as the later Unix time.
pub proof fn lemma_later_instants_are_read_as_later(
    date: (nat, nat, nat),
    clock: (nat, nat, nat),
    later: (nat, nat, nat),
    later_clock: (nat, nat, nat),
)
    requires
        is_moment(
            date.0 as int,
            date.1 as int,
            date.2 as int,
            clock.0 as int,
            clock.1 as int,
            clock.2 as int,
        ),
        is_moment(
            later.0 as int,
            later.1 as int,
            later.2 as int,
            later_clock.0 as int,
            later_clock.1 as int,
            later_clock.2 as int,
        ),
        date.0 < later.0 || (date.0 == later.0 && (date.1 < later.1 || (date.1 == later.1 && (date.2
            < later.2 || (date.2 == later.2 && (clock.0 < later_clock.0 || (clock.0 == later_clock.0
            && (clock.1 < later_clock.1 || (clock.1 == later_clock.1 && clock.2
            < later_clock.2))))))))),
    ensures
        rfc3339(instant_text(date, clock)) matches Some(a) && rfc3339(
            instant_text(later, later_clock),
        ) matches Some(b) && a < b,
{
    lemma_instants_are_read_as_written(date, clock, seq!['0']);
    lemma_instants_are_read_as_written(later, later_clock, seq!['0']);
    lemma_later_moments_have_later_times(
        (
            date.0 as int,
            date.1 as int,
            date.2 as int,
            clock.0 as int,
            clock.1 as int,
            clock.2 as int,
        ),
        (
            later.0 as int,
            later.1 as int,
            later.2 as int,
            later_clock.0 as int,
            later_clock.1 as int,
            later_clock.2 as int,
        ),
    );
}

/// An instant that does not end in `Z`, such as one with another offset, is refused.
pub proof fn lemma_other_offsets_are_refused(s: Seq<char>)
    requires
        s.len() > 0,
        s.last() != 'Z',
        s.last() != 'z',
    ensures
        rfc3339(s) is None,
{
    let t = first(s, 'T') as int;
    if t + 1 < s.len() {
        assert(s.skip(t + 1).last() == s.last());
    }
}

/// A reset in seconds from now is that many seconds, whatever the time; one that does not fit in
/// `u64` is refused.
pub proof fn lemma_resets_in_seconds(before: Seq<char>, secs: nat, after: Seq<char>, now: i64)
    requires
        blank(before),
        blank(after),
    ensures
        secs <= u64::MAX ==> (reset_of(
            ResetFormat::DeltaSeconds,
            before + written(secs) + after,
            now,
        ) matches Some(d) && d@ == secs * 1_000_000_000),
        secs > u64::MAX ==> reset_of(
            ResetFormat::DeltaSeconds,
            before + written(secs) + after,
            now,
        ) is None,
{
    lemma_written_and_trimmed(before, secs, after, u64::MAX as nat);
}

/// A reset at a Unix time is as far off as that time is, and none where it is past.
pub proof fn lemma_resets_at_unix_times(before: Seq<char>, at: nat, after: Seq<char>, now: i64)
    requires
        blank(before),
        blank(after),
        at <= i64::MAX,
    ensures
        reset_of(ResetFormat::UnixSeconds, before + written(at) + after, now) matches Some(d) && if at
            >= now {
            d@ == (at - now) * 1_000_000_000
        } else {
            d@ == 0
        },
{
    lemma_written_and_trimmed(before, at, after, u64::MAX as nat);
}

/// A reset at an instant is as far off as its Unix time is, and none where it is past.
pub proof fn lemma_resets_at_instants(
    before: Seq<char>,
    date: (nat, nat, nat),
    clock: (nat, nat, nat),
    after: Seq<char>,
    at: i64,
    now: i64,
)
    requires
        blank(before),
        blank(after),
        unix_time(
            date.0 as int,
            date.1 as int,
            date.2 as int,
            clock.0 as int,
            clock.1 as int,
            clock.2 as int,
        ) == Some(at),
    ensures
        reset_of(ResetFormat::Rfc3339, before + instant_text(date, clock) + after, now) matches Some(
            d,
        ) && if at >= now {
            d@ == (at - now) * 1_000_000_000
        } else {
            d@ == 0
        },
{
    let s = instant_text(date, clock);
    lemma_instants_are_read_as_written(date, clock, seq!['0']);
    lemma_padded(date.0, 4);
    assert(s[0] == padded(date.0, 4)[0]);
    assert(is_digit(s[0]));
    lemma_trimmed(before, s, after);
}

/// What a unit of so many nanoseconds is called in a duration.
pub open spec fn unit_text(unit: nat) -> Seq<char> {
    if unit == 1_000_000 {
        seq!['m', 's']
    } else if unit == 1_000_000_000 {
        seq!['s']
    } else if unit == 60_000_000_000 {
        seq!['m']
    } else {
        seq!['h']
    }
}

/// Whether `part` is a number and a unit, in nanoseconds, of which the number makes no more than
/// the longest span.
pub open spec fn is_part(part: (nat, nat)) -> bool {
    &&& part.1 == 1_000_000 || part.1 == 1_000_000_000 || part.1 == 60_000_000_000 || part.1
        == 3_600_000_000_000
    &&& part.0 <= u64::MAX
    &&& part.0 * part.1 <= MAX_NANOS
}

/// A duration as numbers with their units, such as `6m0s`.
pub open spec fn duration_text(parts: Seq<(nat, nat)>) -> Seq<char>
    decreases parts.len(),
{
    if parts.len() == 0 {
        Seq::empty()
    } else {
        written(parts[0].0) + unit_text(parts[0].1) + duration_text(parts.drop_first())
    }
}

/// The nanoseconds in a duration of numbers with units.
pub open spec fn total_of(parts: Seq<(nat, nat)>) -> nat
    decreases parts.len(),
{
    if parts.len() == 0 {
        0
    } else {
        parts[0].0 * parts[0].1 + total_of(parts.drop_first())
    }
}

/// Digits run up to what is none.
proof fn lemma_run_of_digits(a: Seq<char>, b: Seq<char>)
    requires
        forall|i: int| 0 <= i < a.len() ==> is_digit(#[trigger] a[i]),
        b.len() > 0 ==> !is_digit(b[0]),
    ensures
        digit_run(a + b) == a.len(),
    decreases a.len(),
{
    let s = a + b;
    if a.len() == 0 {
        assert(s =~= b);
    } else {
        let rest = a.drop_first();
        assert forall|i: int| 0 <= i < rest.len() implies is_digit(#[trigger] rest[i]) by {
            assert(rest[i] == a[i + 1]);
        }
        assert(s[0] == a[0]);
        assert(s.drop_first() =~= rest + b);
        lemma_run_of_digits(rest, b);
    }
}

/// Letters run up to what is none.
proof fn lemma_run_of_letters(a: Seq<char>, b: Seq<char>)
    requires
        forall|i: int| 0 <= i < a.len() ==> is_letter(#[trigger] a[i]),
        b.len() > 0 ==> !is_letter(b[0]),
    ensures
        letter_run(a + b) == a.len(),
    decreases a.len(),
{
    let s = a + b;
    if a.len() == 0 {
        assert(s =~= b);
    } else {
        let rest = a.drop_first();
        assert forall|i: int| 0 <= i < rest.len() implies is_letter(#[trigger] rest[i]) by {
            assert(rest[i] == a[i + 1]);
        }
        assert(s[0] == a[0]);
        assert(s.drop_first() =~= rest + b);
        lemma_run_of_letters(rest, b);
    }
}

/// A number, a unit and the rest are told apart.
proof fn lemma_number_and_unit(n: nat, unit: Seq<char>, rest: Seq<char>)
    requires
        unit.len() > 0,
        forall|i: int| 0 <= i < unit.len() ==> is_letter(#[trigger] unit[i]),
        rest.len() > 0 ==> is_digit(rest[0]),
    ensures
        ({
            let s = written(n) + unit + rest;
            let d = digit_run(s) as int;
            let u = letter_run(s.skip(d)) as int;
            &&& d == written(n).len()
            &&& d > 0
            &&& s.take(d) == written(n)
            &&& s.skip(d).take(u) == unit
            &&& s.skip(d).skip(u) == rest
            &&& rest.len() < s.len()
            &&& s[d] == unit[0]
            &&& is_digit(s[0])
            &&& decimal(s.take(d)) == n
        }),
{
    lemma_written(n);
    let s = written(n) + unit + rest;
    let tail = unit + rest;
    assert(s =~= written(n) + tail);
    assert(is_letter(unit[0]));
    assert(tail[0] == unit[0]);
    lemma_run_of_digits(written(n), tail);
    let d = written(n).len() as int;
    assert(s.take(d) =~= written(n));
    assert(s.skip(d) =~= tail);
    lemma_run_of_letters(unit, rest);
    let u = unit.len() as int;
    assert(tail.take(u) =~= unit);
    assert(tail.skip(u) =~= rest);
    assert(is_digit(written(n)[0]));
    assert(s[0] == written(n)[0]);
}

/// The names of units.
proof fn lemma_units()
    ensures
        "ms"@ =~= seq!['m', 's'],
        "s"@ =~= seq!['s'],
        "m"@ =~= seq!['m'],
        "h"@ =~= seq!['h'],
{
    reveal_strlit("ms");
    reveal_strlit("s");
    reveal_strlit("m");
    reveal_strlit("h");
}

/// A unit's name is made of letters, and is that of no other unit.
proof fn lemma_unit_text(part: (nat, nat))
    requires
        is_part(part),
    ensures
        unit_nanos(part.0, unit_text(part.1)) == Some(part.0 * part.1),
        unit_text(part.1).len() > 0,
        forall|i: int|
            0 <= i < unit_text(part.1).len() ==> is_letter(#[trigger] unit_text(part.1)[i]),
{
    lemma_units();
    assert(seq!['m', 's'].len() == 2 && seq!['s'].len() == 1 && seq!['m'].len() == 1
        && seq!['h'].len() == 1);
    assert(seq!['s'][0] != seq!['m'][0] && seq!['s'][0] != seq!['h'][0] && seq!['m'][0]
        != seq!['h'][0]);
    let (n, unit) = part;
    if unit == 1_000_000 {
        assert(n * unit == n * 1_000_000) by (nonlinear_arith)
            requires
                unit == 1_000_000,
        ;
    } else if unit == 1_000_000_000 {
        assert(n * unit == n * 1_000_000_000) by (nonlinear_arith)
            requires
                unit == 1_000_000_000,
        ;
    } else if unit == 60_000_000_000 {
        assert(n * unit == n * 60_000_000_000) by (nonlinear_arith)
            requires
                unit == 60_000_000_000,
        ;
    } else {
        assert(n * unit == n * 3_600_000_000_000) by (nonlinear_arith)
            requires
                unit == 3_600_000_000_000,
        ;
    }
}

/// Numbers with units spell the sum of what each of them spells.
proof fn lemma_spelled_parts(parts: Seq<(nat, nat)>)
    requires
        forall|i: int| 0 <= i < parts.len() ==> is_part(#[trigger] parts[i]),
    ensures
        spelled_nanos(duration_text(parts)) == Some(total_of(parts)),
        parts.len() > 0 ==> {
            let s = duration_text(parts);
            &&& s.len() > 0
            &&& is_digit(s[0])
            &&& exists|i: int| 0 <= i < s.len() && !is_digit(#[trigger] s[i])
        },
    decreases parts.len(),
{
    if parts.len() > 0 {
        let rest = parts.drop_first();
        assert forall|i: int| 0 <= i < rest.len() implies is_part(#[trigger] rest[i]) by {
            assert(rest[i] == parts[i + 1]);
        }
        lemma_spelled_parts(rest);
        let unit = unit_text(parts[0].1);
        lemma_unit_text(parts[0]);
        lemma_number_and_unit(parts[0].0, unit, duration_text(rest));
        let s = duration_text(parts);
        let d = digit_run(s) as int;
        assert(is_letter(unit[0]));
        assert(!is_digit(s[d]));
    }
}

/// A duration of numbers with units, such as `6m0s`, is their sum; a bare number is seconds.
pub proof fn lemma_durations_are_read_as_written(parts: Seq<(nat, nat)>, secs: nat)
    requires
        parts.len() > 0,
        forall|i: int| 0 <= i < parts.len() ==> is_part(#[trigger] parts[i]),
        secs <= u64::MAX,
    ensures
        spelled_duration(duration_text(parts)) matches Some(d) && if total_of(parts) <= MAX_NANOS {
            d@ == total_of(parts)
        } else {
            d@ == MAX_NANOS
        },
        spelled_duration(written(secs)) matches Some(d) && d@ == secs * 1_000_000_000,
{
    lemma_spelled_parts(parts);
    lemma_written(secs);
    let s = duration_text(parts);
    let i = choose|i: int| 0 <= i < s.len() && !is_digit(#[trigger] s[i]);
    assert(!all_digits(s));
}

/// A duration is refused where it is empty, where no number stands first, and where a unit is
/// unknown or missing.
pub proof fn lemma_other_durations_are_refused(n: nat, unit: Seq<char>, rest: Seq<char>, s: Seq<char>)
    requires
        forall|i: int| 0 <= i < unit.len() ==> is_letter(#[trigger] unit[i]),
        unit.len() > 0,
        unit != seq!['m', 's'],
        unit != seq!['s'],
        unit != seq!['m'],
        unit != seq!['h'],
        rest.len() > 0 ==> is_digit(rest[0]),
        s.len() > 0,
        !is_digit(s[0]),
        s[0] != '+',
    ensures
        spelled_duration(Seq::empty()) is None,
        spelled_duration(s) is None,
        spelled_duration(written(n) + unit + rest) is None,
        spelled_duration(seq!['5', 's'] + written(n)) is None,
{
    lemma_units();
    lemma_number_and_unit(n, unit, rest);
    let t = written(n) + unit + rest;
    assert(is_letter(unit[0]));
    assert(!is_digit(t[written(n).len() as int]));
    assert(!all_digits(t));
    lemma_written(5);
    assert(written(5) =~= seq!['5']);
    lemma_written(n);
    assert(is_digit(written(n)[0]));
    lemma_number_and_unit(5, seq!['s'], written(n));
    let half = seq!['5', 's'] + written(n);
    assert(half =~= written(5) + seq!['s'] + written(n));
    assert(!is_digit(half[1]));
    assert(!all_digits(half));
    lemma_run_of_digits(written(n), Seq::empty());
    assert(written(n) + Seq::<char>::empty() =~= written(n));
    let d = written(n).len() as int;
    assert(written(n).skip(d).take(0) =~= Seq::<char>::empty());
    assert(unit_nanos(decimal(written(n).take(d)), Seq::<char>::empty()) is None);
    assert(spelled_nanos(written(n)) is None);
}

/// Whether the first of `headers` that is called `name`, in any case, has the value `value`.
pub open spec fn carries(headers: Seq<(&str, &str)>, name: Seq<char>, value: Seq<char>) -> bool {
    exists|i: int| #[trigger] carries_at(headers, name, value, i)
}

/// Whether the first of `headers` that is called `name` is number `i` and has the value `value`.
pub open spec fn carries_at(
    headers: Seq<(&str, &str)>,
    name: Seq<char>,
    value: Seq<char>,
    i: int,
) -> bool {
    &&& 0 <= i < headers.len()
    &&& folded(headers[i].0@) == folded(name)
    &&& headers[i].1@ == value
    &&& forall|j: int| 0 <= j < i ==> folded((#[trigger] headers[j]).0@) != folded(name)
}

/// The value of a header is that of the first one with its name; there is none where no header has
/// it.
pub proof fn lemma_the_first_header_counts(
    headers: Seq<(&str, &str)>,
    name: Seq<char>,
    value: Seq<char>,
)
    ensures
        header_value(headers, name) == Some(value) <==> carries(headers, name, value),
        header_value(headers, name) is None <==> forall|i: int|
            0 <= i < headers.len() ==> folded((#[trigger] headers[i]).0@) != folded(name),
    decreases headers.len(),
{
    if headers.len() > 0 {
        let rest = headers.drop_first();
        lemma_the_first_header_counts(rest, name, value);
        let first_is_it = folded(headers[0].0@) == folded(name);
        if first_is_it {
            if headers[0].1@ == value {
                assert(carries_at(headers, name, value, 0));
            }
            if carries(headers, name, value) {
                let i = choose|i: int| #[trigger] carries_at(headers, name, value, i);
                assert(i == 0);
            }
        } else {
            if carries(rest, name, value) {
                let i = choose|i: int| #[trigger] carries_at(rest, name, value, i);
                assert(rest[i] == headers[i + 1]);
                assert forall|j: int| 0 <= j < i + 1 implies folded((#[trigger] headers[j]).0@)
                    != folded(name) by {
                    if j > 0 {
                        assert(rest[j - 1] == headers[j]);
                    }
                }
                assert(carries_at(headers, name, value, i + 1));
            }
            if carries(headers, name, value) {
                let i = choose|i: int| #[trigger] carries_at(headers, name, value, i);
                assert(i > 0);
                assert(rest[i - 1] == headers[i]);
                assert forall|j: int| 0 <= j < i - 1 implies folded((#[trigger] rest[j]).0@)
                    != folded(name) by {
                    assert(rest[j] == headers[j + 1]);
                }
                assert(carries_at(rest, name, value, i - 1));
            }
            if header_value(headers, name) is None {
                assert forall|i: int| 0 <= i < headers.len() implies folded(
                    (#[trigger] headers[i]).0@,
                ) != folded(name) by {
                    if i > 0 {
                        assert(rest[i - 1] == headers[i]);
                    }
                }
            } else {
                let i = choose|i: int|
                    0 <= i < rest.len() && folded((#[trigger] rest[i]).0@) == folded(name);
                assert(headers[i + 1] == rest[i]);
            }
        }
    } else {
        assert(header_value(headers, name) is None);
    }
}

/// A number in a header is the count that it spells.
proof fn lemma_counted(headers: Seq<(&str, &str)>, name: Seq<char>, n: nat)
    requires
        n <= u64::MAX,
    ensures
        carries(headers, name, written(n)) ==> count_of(header_value(headers, name)) == Some(
            n as u64,
        ),
{
    lemma_the_first_header_counts(headers, name, written(n));
    lemma_written_and_trimmed(Seq::empty(), n, Seq::empty(), u64::MAX as nat);
    assert(Seq::<char>::empty() + written(n) + Seq::<char>::empty() =~= written(n));
}

/// A duration has no white space at its ends.
proof fn lemma_duration_is_trimmed(parts: Seq<(nat, nat)>)
    requires
        parts.len() > 0,
        forall|i: int| 0 <= i < parts.len() ==> is_part(#[trigger] parts[i]),
    ensures
        trimmed(duration_text(parts)) == duration_text(parts),
{
    let s = duration_text(parts);
    lemma_spelled_parts(parts);
    lemma_duration_ends(parts);
    lemma_trimmed(Seq::empty(), s, Seq::empty());
    assert(Seq::<char>::empty() + s + Seq::<char>::empty() =~= s);
}

/// A duration ends in a letter.
proof fn lemma_duration_ends(parts: Seq<(nat, nat)>)
    requires
        parts.len() > 0,
        forall|i: int| 0 <= i < parts.len() ==> is_part(#[trigger] parts[i]),
    ensures
        duration_text(parts).len() > 0,
        is_letter(duration_text(parts).last()),
    decreases parts.len(),
{
    let rest = parts.drop_first();
    let unit = unit_text(parts[0].1);
    lemma_unit_text(parts[0]);
    let tail = duration_text(rest);
    if rest.len() > 0 {
        assert forall|i: int| 0 <= i < rest.len() implies is_part(#[trigger] rest[i]) by {
            assert(rest[i] == parts[i + 1]);
        }
        lemma_duration_ends(rest);
        assert(duration_text(parts).last() == tail.last());
    } else {
        assert(tail =~= Seq::empty());
        assert(is_letter(unit[unit.len() - 1]));
        assert(duration_text(parts).last() == unit.last());
    }
}

/// OpenAI counts requests and tokens, and writes resets as durations.
pub proof fn lemma_openai_headers(
    headers: Seq<(&str, &str)>,
    n: nat,
    parts: Seq<(nat, nat)>,
    now: i64,
)
    requires
        n <= u64::MAX,
        parts.len() > 0,
        forall|i: int| 0 <= i < parts.len() ==> is_part(#[trigger] parts[i]),
        total_of(parts) <= MAX_NANOS,
    ensures
        carries(headers, "x-ratelimit-limit-requests"@, written(n)) ==> (HeaderProfile::OPENAI.info_of(
            headers,
            now,
        ).requests matches Some(w) && w.limit == Some(n as u64)),
        carries(headers, "x-ratelimit-remaining-requests"@, written(n)) ==> (HeaderProfile::OPENAI.info_of(
            headers,
            now,
        ).requests matches Some(w) && w.remaining == Some(n as u64)),
        carries(headers, "x-ratelimit-reset-requests"@, duration_text(parts)) ==> (HeaderProfile::OPENAI.info_of(
            headers,
            now,
        ).requests matches Some(w) && (w.reset matches Some(d) && d@ == total_of(parts))),
        carries(headers, "x-ratelimit-limit-tokens"@, written(n)) ==> (HeaderProfile::OPENAI.info_of(
            headers,
            now,
        ).tokens matches Some(w) && w.limit == Some(n as u64)),
        carries(headers, "x-ratelimit-remaining-tokens"@, written(n)) ==> (HeaderProfile::OPENAI.info_of(
            headers,
            now,
        ).tokens matches Some(w) && w.remaining == Some(n as u64)),
        carries(headers, "x-ratelimit-reset-tokens"@, duration_text(parts)) ==> (HeaderProfile::OPENAI.info_of(
            headers,
            now,
        ).tokens matches Some(w) && (w.reset matches Some(d) && d@ == total_of(parts))),
{
    lemma_durations_are_read_as_written(parts, 0);
    lemma_duration_is_trimmed(parts);
    lemma_counted(headers, "x-ratelimit-limit-requests"@, n);
    lemma_counted(headers, "x-ratelimit-remaining-requests"@, n);
    lemma_the_first_header_counts(headers, "x-ratelimit-reset-requests"@, duration_text(parts));
    lemma_counted(headers, "x-ratelimit-limit-tokens"@, n);
    lemma_counted(headers, "x-ratelimit-remaining-tokens"@, n);
    lemma_the_first_header_counts(headers, "x-ratelimit-reset-tokens"@, duration_text(parts));
}

/// Anthropic counts requests and tokens, and writes resets as instants.
pub proof fn lemma_anthropic_headers(
    headers: Seq<(&str, &str)>,
    n: nat,
    date: (nat, nat, nat),
    clock: (nat, nat, nat),
    at: i64,
    now: i64,
)
    requires
        n <= u64::MAX,
        unix_time(
            date.0 as int,
            date.1 as int,
            date.2 as int,
            clock.0 as int,
            clock.1 as int,
            clock.2 as int,
        ) == Some(at),
        at >= now,
    ensures
        carries(headers, "anthropic-ratelimit-requests-limit"@, written(n)) ==> (HeaderProfile::ANTHROPIC.info_of(
            headers,
            now,
        ).requests matches Some(w) && w.limit == Some(n as u64)),
        carries(headers, "anthropic-ratelimit-requests-remaining"@, written(n)) ==> (HeaderProfile::ANTHROPIC.info_of(
            headers,
            now,
        ).requests matches Some(w) && w.remaining == Some(n as u64)),
        carries(headers, "anthropic-ratelimit-requests-reset"@, instant_text(date, clock)) ==> (HeaderProfile::ANTHROPIC.info_of(
            headers,
            now,
        ).requests matches Some(w) && (w.reset matches Some(d) && d@ == (at - now) * 1_000_000_000)),
        carries(headers, "anthropic-ratelimit-tokens-limit"@, written(n)) ==> (HeaderProfile::ANTHROPIC.info_of(
            headers,
            now,
        ).tokens matches Some(w) && w.limit == Some(n as u64)),
        carries(headers, "anthropic-ratelimit-tokens-remaining"@, written(n)) ==> (HeaderProfile::ANTHROPIC.info_of(
            headers,
            now,
        ).tokens matches Some(w) && w.remaining == Some(n as u64)),
        carries(headers, "anthropic-ratelimit-tokens-reset"@, instant_text(date, clock)) ==> (HeaderProfile::ANTHROPIC.info_of(
            headers,
            now,
        ).tokens matches Some(w) && (w.reset matches Some(d) && d@ == (at - now) * 1_000_000_000)),
{
    lemma_resets_at_instants(Seq::empty(), date, clock, Seq::empty(), at, now);
    assert(Seq::<char>::empty() + instant_text(date, clock) + Seq::<char>::empty() =~= instant_text(date, clock));
    lemma_counted(headers, "anthropic-ratelimit-requests-limit"@, n);
    lemma_counted(headers, "anthropic-ratelimit-requests-remaining"@, n);
    lemma_the_first_header_counts(headers, "anthropic-ratelimit-requests-reset"@, instant_text(date, clock));
    lemma_counted(headers, "anthropic-ratelimit-tokens-limit"@, n);
    lemma_counted(headers, "anthropic-ratelimit-tokens-remaining"@, n);
    lemma_the_first_header_counts(headers, "anthropic-ratelimit-tokens-reset"@, instant_text(date, clock));
}

/// GitHub counts requests, and writes resets as Unix times.
pub proof fn lemma_github_headers(
    headers: Seq<(&str, &str)>,
    n: nat,
    at: nat,
    now: i64,
)
    requires
        n <= u64::MAX,
        now <= at <= i64::MAX,
    ensures
        carries(headers, "x-ratelimit-limit"@, written(n)) ==> (HeaderProfile::GITHUB.info_of(
            headers,
            now,
        ).requests matches Some(w) && w.limit == Some(n as u64)),
        carries(headers, "x-ratelimit-remaining"@, written(n)) ==> (HeaderProfile::GITHUB.info_of(
            headers,
            now,
        ).requests matches Some(w) && w.remaining == Some(n as u64)),
        carries(headers, "x-ratelimit-reset"@, written(at)) ==> (HeaderProfile::GITHUB.info_of(
            headers,
            now,
        ).requests matches Some(w) && (w.reset matches Some(d) && d@ == (at - now) * 1_000_000_000)),
        HeaderProfile::GITHUB.info_of(headers, now).tokens is None,
{
    lemma_resets_at_unix_times(Seq::empty(), at, Seq::empty(), now);
    assert(Seq::<char>::empty() + written(at) + Seq::<char>::empty() =~= written(at));
    lemma_counted(headers, "x-ratelimit-limit"@, n);
    lemma_counted(headers, "x-ratelimit-remaining"@, n);
    lemma_the_first_header_counts(headers, "x-ratelimit-reset"@, written(at));
}

/// The draft standard counts requests, and writes resets in seconds from now.
pub proof fn lemma_rfc_headers(
    headers: Seq<(&str, &str)>,
    n: nat,
    secs: nat,
    now: i64,
)
    requires
        n <= u64::MAX,
        secs <= u64::MAX,
    ensures
        carries(headers, "ratelimit-limit"@, written(n)) ==> (HeaderProfile::RFC.info_of(
            headers,
            now,
        ).requests matches Some(w) && w.limit == Some(n as u64)),
        carries(headers, "ratelimit-remaining"@, written(n)) ==> (HeaderProfile::RFC.info_of(
            headers,
            now,
        ).requests matches Some(w) && w.remaining == Some(n as u64)),
        carries(headers, "ratelimit-reset"@, written(secs)) ==> (HeaderProfile::RFC.info_of(
            headers,
            now,
        ).requests matches Some(w) && (w.reset matches Some(d) && d@ == secs * 1_000_000_000)),
        HeaderProfile::RFC.info_of(headers, now).tokens is None,
{
    lemma_resets_in_seconds(Seq::empty(), secs, Seq::empty(), now);
    assert(Seq::<char>::empty() + written(secs) + Seq::<char>::empty() =~= written(secs));
    lemma_counted(headers, "ratelimit-limit"@, n);
    lemma_counted(headers, "ratelimit-remaining"@, n);
    lemma_the_first_header_counts(headers, "ratelimit-reset"@, written(secs));
}

/// Stripe and AWS report no counts; what every service asks for in `Retry-After` is waited for.
pub proof fn lemma_retry_after_headers(
    profile: HeaderProfile,
    headers: Seq<(&str, &str)>,
    secs: nat,
    value: Seq<char>,
    now: i64,
)
    requires
        secs <= u64::MAX,
    ensures
        HeaderProfile::STRIPE.info_of(headers, now).requests is None,
        HeaderProfile::STRIPE.info_of(headers, now).tokens is None,
        HeaderProfile::AWS.info_of(headers, now).requests is None,
        HeaderProfile::AWS.info_of(headers, now).tokens is None,
        carries(headers, "retry-after"@, value) ==> profile.info_of(headers, now).retry_after
            == retry_after(value, now),
        carries(headers, "retry-after"@, written(secs)) ==> (profile.info_of(
            headers,
            now,
        ).retry_after matches Some(d) && d@ == secs * 1_000_000_000),
        headers.len() == 0 ==> profile.info_of(headers, now) == (RateLimitInfo {
            requests: None,
            tokens: None,
            retry_after: None,
        }),
{
    lemma_the_first_header_counts(headers, "retry-after"@, value);
    lemma_the_first_header_counts(headers, "retry-after"@, written(secs));
    lemma_seconds_are_waited_for(Seq::empty(), secs, Seq::empty(), now);
    assert(Seq::<char>::empty() + written(secs) + Seq::<char>::empty() =~= written(secs));
}

/// A small `z` stands for UTC as well.
pub proof fn lemma_a_small_z_will_do(s: Seq<char>)
    ensures
        rfc3339(s.push('z')) == rfc3339(s.push('Z')),
{
    let a = s.push('z');
    let b = s.push('Z');
    lemma_first_before_the_end(s, 'z');
    lemma_first_before_the_end(s, 'Z');
    let t = first(s, 'T') as int;
    if t < s.len() {
        assert(a.take(t) =~= b.take(t));
        assert(a.skip(t + 1).drop_last() =~= b.skip(t + 1).drop_last());
        assert(a.skip(t + 1).last() == 'z');
        assert(b.skip(t + 1).last() == 'Z');
    }
}

proof fn lemma_first_before_the_end(s: Seq<char>, end: char)
    requires
        end != 'T',
    ensures
        first(s, 'T') <= s.len(),
        first(s, 'T') < s.len() ==> first(s.push(end), 'T') == first(s, 'T'),
        first(s, 'T') == s.len() ==> first(s.push(end), 'T') == s.len() + 1,
    decreases s.len(),
{
    let all = s.push(end);
    if s.len() == 0 {
        assert(all.drop_first().len() == 0);
        assert(first(all.drop_first(), 'T') == 0);
    } else if s[0] != 'T' {
        assert(all.drop_first() =~= s.drop_first().push(end));
        lemma_first_before_the_end(s.drop_first(), end);
    }
}

/// A count may have white space round it, and is left out where it is no number or does not fit.
pub proof fn lemma_counts_are_read_as_written(before: Seq<char>, n: nat, after: Seq<char>)
    requires
        blank(before),
        blank(after),
    ensures
        n <= u64::MAX ==> count_of(Some(before + written(n) + after)) == Some(n as u64),
        n > u64::MAX ==> count_of(Some(before + written(n) + after)) is None,
        count_of(Some(before + (seq!['-'] + written(n)) + after)) is None,
{
    lemma_written_and_trimmed(before, n, after, u64::MAX as nat);
    let minus = seq!['-'] + written(n);
    lemma_signs(n);
    assert(minus.last() == written(n).last());
    assert(is_digit(written(n)[written(n).len() - 1]));
    lemma_trimmed(before, minus, after);
}

/// A reset that is written as a duration may have white space round it, and lasts as long whatever
/// the time.
pub proof fn lemma_resets_after_durations(
    before: Seq<char>,
    parts: Seq<(nat, nat)>,
    after: Seq<char>,
    now: i64,
)
    requires
        blank(before),
        blank(after),
        parts.len() > 0,
        forall|i: int| 0 <= i < parts.len() ==> is_part(#[trigger] parts[i]),
        total_of(parts) <= MAX_NANOS,
    ensures
        reset_of(ResetFormat::DurationString, before + duration_text(parts) + after, now) matches Some(
            d,
        ) && d@ == total_of(parts),
{
    let s = duration_text(parts);
    lemma_durations_are_read_as_written(parts, 0);
    lemma_spelled_parts(parts);
    lemma_duration_ends(parts);
    lemma_trimmed(before, s, after);
}

/// A window is reported as soon as one of its headers can be read, and holds what each of them
/// says.
pub proof fn lemma_a_window_holds_what_can_be_read(
    profile: HeaderProfile,
    headers: Seq<(&str, &str)>,
    names: Names,
    now: i64,
)
    ensures
        ({
            let limit = count_of(header_value(headers, names.0));
            let remaining = count_of(header_value(headers, names.1));
            let window = profile.window_of(headers, Some(names), now);
            &&& limit is Some || remaining is Some ==> window is Some
            &&& window matches Some(w) ==> w.limit == limit && w.remaining == remaining && (
            w.limit is Some || w.remaining is Some || w.reset is Some)
            &&& window matches Some(w) ==> (header_value(headers, names.2) is None ==> w.reset is None)
            &&& profile.window_of(headers, None, now) is None
        }),
{
}

} // verus!
