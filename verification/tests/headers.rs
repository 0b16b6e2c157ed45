//! The headers in which services announce their limits.

use std::sync::Arc;
use throttle_net::clock::to_signed_seconds;
use throttle_net::provider::{
    parse_duration_string, parse_reset, parse_rfc3339, HeaderProfile, RateLimitInfo, ResetFormat,
    Window,
};
use throttle_net::text::chars_of;
use throttle_net::timeutil::{civil_to_unix, days_from_civil, month_index};
use throttle_net::{parse_retry_after, parse_retry_after_at, Duration, ManualClock, Throttle};

fn secs(n: u64) -> Duration {
    Duration::from_secs(n)
}

#[test]
fn test_openai_recorded_headers() {
    // A representative OpenAI response header set.
    let headers = [
        ("x-ratelimit-limit-requests", "5000"),
        ("x-ratelimit-remaining-requests", "4999"),
        ("x-ratelimit-reset-requests", "12ms"),
        ("x-ratelimit-limit-tokens", "160000"),
        ("x-ratelimit-remaining-tokens", "159952"),
        ("x-ratelimit-reset-tokens", "6m0s"),
    ];
    let info = HeaderProfile::OPENAI.parse_at(&headers, 0);
    let req = info.requests.unwrap();
    assert_eq!(req.limit, Some(5000));
    assert_eq!(req.remaining, Some(4999));
    assert_eq!(req.reset, Some(Duration::from_millis(12)));
    let tok = info.tokens.unwrap();
    assert_eq!(tok.limit, Some(160_000));
    assert_eq!(tok.remaining, Some(159_952));
    assert_eq!(tok.reset, Some(secs(360)));
}

#[test]
fn test_anthropic_recorded_headers_rfc3339_reset() {
    // Anthropic reports an absolute RFC 3339 reset instant.
    let headers = [
        ("anthropic-ratelimit-requests-limit", "50"),
        ("anthropic-ratelimit-requests-remaining", "49"),
        ("anthropic-ratelimit-requests-reset", "2026-01-01T00:01:00Z"),
        ("anthropic-ratelimit-tokens-limit", "40000"),
        ("anthropic-ratelimit-tokens-remaining", "39000"),
        ("anthropic-ratelimit-tokens-reset", "2026-01-01T00:01:00Z"),
    ];
    // now = 2026-01-01T00:00:00Z = 1_767_225_600; reset is 60s later.
    let info = HeaderProfile::ANTHROPIC.parse_at(&headers, 1_767_225_600);
    assert_eq!(info.requests.unwrap().remaining, Some(49));
    assert_eq!(info.requests.unwrap().reset, Some(secs(60)));
    assert_eq!(info.tokens.unwrap().remaining, Some(39000));
}

#[test]
fn test_github_recorded_headers_unix_reset() {
    let headers = [
        ("X-RateLimit-Limit", "60"),
        ("X-RateLimit-Remaining", "57"),
        ("X-RateLimit-Reset", "1767225660"), // 2026-01-01T00:01:00Z
        ("X-RateLimit-Used", "3"),
    ];
    // Case-insensitive header names; now 60s before the reset.
    let info = HeaderProfile::GITHUB.parse_at(&headers, 1_767_225_600);
    let req = info.requests.unwrap();
    assert_eq!(req.limit, Some(60));
    assert_eq!(req.remaining, Some(57));
    assert_eq!(req.reset, Some(secs(60)));
    assert!(info.tokens.is_none());
}

#[test]
fn test_rfc_draft_delta_seconds() {
    let headers = [
        ("RateLimit-Limit", "100"),
        ("RateLimit-Remaining", "0"),
        ("RateLimit-Reset", "30"),
        ("Retry-After", "30"),
    ];
    let info = HeaderProfile::RFC.parse_at(&headers, 0);
    let req = info.requests.unwrap();
    assert_eq!(req.remaining, Some(0));
    assert_eq!(req.reset, Some(secs(30)));
    assert_eq!(info.retry_after, Some(secs(30)));
}

#[test]
fn test_stripe_retry_after_only() {
    let headers = [("Retry-After", "5")];
    let info = HeaderProfile::STRIPE.parse_at(&headers, 0);
    assert!(info.requests.is_none());
    assert_eq!(info.retry_after, Some(secs(5)));
}

#[test]
fn test_missing_headers_yield_none() {
    let info = HeaderProfile::OPENAI.parse_at(&[], 0);
    assert_eq!(info, RateLimitInfo::default());
}

#[test]
fn test_malformed_values_are_dropped() {
    let headers = [
        ("x-ratelimit-limit-requests", "lots"),
        ("x-ratelimit-remaining-requests", "42"),
        ("x-ratelimit-reset-requests", "soon"),
    ];
    let info = HeaderProfile::OPENAI.parse_at(&headers, 0);
    let req = info.requests.unwrap();
    assert_eq!(req.limit, None); // "lots" dropped
    assert_eq!(req.remaining, Some(42));
    assert_eq!(req.reset, None); // "soon" dropped
}

#[test]
fn test_duration_string_parsing() {
    assert_eq!(parse_duration_string("1s"), Some(secs(1)));
    assert_eq!(parse_duration_string("6m0s"), Some(secs(360)));
    assert_eq!(parse_duration_string("100ms"), Some(Duration::from_millis(100)));
    assert_eq!(parse_duration_string("1h2m3s"), Some(secs(3723)));
    assert_eq!(parse_duration_string("30"), Some(secs(30)));
    assert_eq!(parse_duration_string("nope"), None);
}

#[test]
fn test_rfc3339_parsing() {
    assert_eq!(parse_rfc3339("2026-01-01T00:00:00Z"), Some(1_767_225_600));
    // Fractional seconds are tolerated.
    assert_eq!(parse_rfc3339("2026-01-01T00:00:00.123Z"), Some(1_767_225_600));
    // A non-UTC offset is refused.
    assert_eq!(parse_rfc3339("2026-01-01T00:00:00+02:00"), None);
    assert_eq!(parse_rfc3339("garbage"), None);
}

#[test]
fn test_sync_drains_to_server_remaining() {
    let mut throttle = Throttle::per_second(100); // locally 100 available
    let info = RateLimitInfo {
        requests: Some(Window { remaining: Some(10), ..Window::default() }),
        ..RateLimitInfo::default()
    };
    let drained = info.sync_requests(&mut throttle);
    assert_eq!(drained, 90);
    assert_eq!(throttle.available(), 10);
}

#[test]
fn test_sync_never_raises_above_hard_limit() {
    let mut throttle = Throttle::per_second(100);
    assert!(throttle.try_acquire_with_cost(95)); // local available now 5
    // Server claims 50 remaining — more than we have. Sync must NOT add.
    let info = RateLimitInfo {
        requests: Some(Window { remaining: Some(50), ..Window::default() }),
        ..RateLimitInfo::default()
    };
    let drained = info.sync_requests(&mut throttle);
    assert_eq!(drained, 0);
    assert_eq!(throttle.available(), 5); // unchanged; never exceeds capacity
    assert!(throttle.available() <= throttle.capacity());
}

#[test]
fn test_sync_with_no_info_is_a_noop() {
    let mut throttle = Throttle::per_second(10);
    assert_eq!(RateLimitInfo::default().sync_requests(&mut throttle), 0);
    assert_eq!(throttle.available(), 10);
}

#[test]
fn test_seconds_form() {
    assert_eq!(parse_retry_after_at("0", 999), Some(Duration::zero()));
    assert_eq!(parse_retry_after_at("120", 0), Some(secs(120)));
    assert_eq!(parse_retry_after_at("  45  ", 0), Some(secs(45)));
}

#[test]
fn test_malformed_is_none() {
    assert_eq!(parse_retry_after_at("", 0), None);
    assert_eq!(parse_retry_after_at("soon", 0), None);
    assert_eq!(parse_retry_after_at("-5", 0), None);
    assert_eq!(parse_retry_after_at("12.5", 0), None);
    assert_eq!(parse_retry_after_at("Mon, 99 Zzz 2026 99:99:99 GMT", 0), None);
}

#[test]
fn test_imf_fixdate_form() {
    // 1994-11-06T08:49:37Z = 784_111_777 Unix seconds.
    let target = 784_111_777;
    let header = "Sun, 06 Nov 1994 08:49:37 GMT";
    assert_eq!(parse_retry_after_at(header, target - 100), Some(secs(100)));
    // Already elapsed -> retry now.
    assert_eq!(parse_retry_after_at(header, target + 50), Some(Duration::zero()));
}

#[test]
fn test_asctime_and_rfc850_forms_agree() {
    let target = 784_111_777; // same instant as the IMF test
    let asctime = "Sun Nov  6 08:49:37 1994";
    let rfc850 = "Sunday, 06-Nov-94 08:49:37 GMT";
    assert_eq!(parse_retry_after_at(asctime, target - 10), Some(secs(10)));
    assert_eq!(parse_retry_after_at(rfc850, target - 10), Some(secs(10)));
}

#[test]
fn test_case_insensitive_month() {
    let header = "Thu, 01 jan 2026 00:00:00 GMT";
    assert_eq!(parse_retry_after_at(header, 1_767_225_600), Some(Duration::zero()));
}

#[test]
fn test_days_from_civil_anchors() {
    assert_eq!(days_from_civil(1970, 1, 1), 0);
    assert_eq!(days_from_civil(1970, 1, 2), 1);
    assert_eq!(days_from_civil(1969, 12, 31), -1);
    assert_eq!(days_from_civil(2000, 1, 1), 10_957);
}

#[test]
fn test_civil_to_unix_known_instant() {
    // 1994-11-06T08:49:37Z = 784_111_777.
    assert_eq!(civil_to_unix(1994, 11, 6, 8, 49, 37), Some(784_111_777));
}

#[test]
fn test_civil_to_unix_rejects_out_of_range() {
    assert_eq!(civil_to_unix(2026, 13, 1, 0, 0, 0), None);
    assert_eq!(civil_to_unix(2026, 1, 32, 0, 0, 0), None);
    assert_eq!(civil_to_unix(2026, 1, 1, 24, 0, 0), None);
}

#[test]
fn test_civil_to_unix_rejects_overflowing_year() {
    // Years of more than four digits are out of range.
    assert_eq!(civil_to_unix(1_777_777_777_777_777, 5, 1, 2, 2, 22), None);
    assert_eq!(civil_to_unix(i64::MAX, 1, 1, 0, 0, 0), None);
    assert_eq!(civil_to_unix(10_000, 1, 1, 0, 0, 0), None);
    assert_eq!(civil_to_unix(-1, 1, 1, 0, 0, 0), None);
    // The four-digit boundary still parses.
    assert_eq!(civil_to_unix(9999, 12, 31, 23, 59, 59), Some(253_402_300_799));
}

#[test]
fn test_month_index_case_insensitive() {
    assert_eq!(month_index("Jan"), Some(1));
    assert_eq!(month_index("dec"), Some(12));
    assert_eq!(month_index("Zzz"), None);
}

#[test]
fn days_count_through_leap_years() {
    assert_eq!(days_from_civil(2000, 3, 1) - days_from_civil(2000, 2, 28), 2);
    assert_eq!(days_from_civil(1900, 3, 1) - days_from_civil(1900, 2, 28), 1);
    assert_eq!(days_from_civil(2024, 3, 1) - days_from_civil(2024, 2, 28), 2);
    assert_eq!(days_from_civil(2023, 3, 1) - days_from_civil(2023, 2, 28), 1);
    assert_eq!(days_from_civil(0, 1, 1), -719_528);
    assert_eq!(civil_to_unix(1970, 1, 1, 0, 0, 60), Some(60));
    assert_eq!(civil_to_unix(1970, 1, 1, 0, 0, 61), None);
}

#[test]
fn a_count_of_seconds_ignores_the_time() {
    for now in [i64::MIN, -1, 0, 784_111_777, i64::MAX] {
        assert_eq!(parse_retry_after_at("17", now), Some(secs(17)));
        // A date that has passed asks for no delay.
        let delay = parse_retry_after_at("Thu, 01 Jan 1970 00:00:05 GMT", now);
        let expected = if now >= 5 { Some(Duration::zero()) } else { delay };
        assert_eq!(delay, expected);
    }
    assert_eq!(parse_retry_after("17"), Some(secs(17)));
    // The instant lies in the past by now.
    assert_eq!(parse_retry_after("Sun, 06 Nov 1994 08:49:37 GMT"), Some(Duration::zero()));
    let far = parse_retry_after("Fri, 31 Dec 9999 23:59:59 GMT").unwrap();
    assert!(far > secs(200_000_000_000));
}

#[test]
fn a_year_of_two_digits_is_near() {
    let at = |text: &str| throttle_net::retry_after::parse_http_date(&chars_of(text));
    assert_eq!(at("Sunday, 06-Nov-94 08:49:37 GMT"), civil_to_unix(1994, 11, 6, 8, 49, 37));
    assert_eq!(at("Thursday, 01-Jan-26 00:00:00 GMT"), Some(1_767_225_600));
    assert_eq!(at("Thu Jan  1 00:00:00 2026"), Some(1_767_225_600));
    assert_eq!(at("Thu, 01 Jan 2026 00:00:00 UTC"), None);
    assert_eq!(at("Thu, 01 Jan 2026 00:00 GMT"), None);
    assert_eq!(at("Sunday, 01-Jan-99999999999999 00:00:00 GMT"), None);
}

#[test]
fn durations_saturate_and_refuse_what_they_do_not_know() {
    assert_eq!(parse_duration_string("2m"), Some(secs(120)));
    assert_eq!(parse_duration_string(" 2m "), None);
    assert_eq!(parse_duration_string("18446744073709551615h"), Some(secs(u64::MAX)));
    assert_eq!(parse_duration_string("1m30"), None);
    assert_eq!(parse_duration_string("5d"), None);
    assert_eq!(parse_duration_string("s"), None);
    assert_eq!(parse_duration_string(""), None);
    assert_eq!(parse_duration_string("1s500ms"), Some(Duration::from_millis(1_500)));
    assert_eq!(parse_duration_string("99999999999999999999s"), None);
}

#[test]
fn each_reset_format_reads_its_own_values() {
    let now = 1_767_225_600;
    assert_eq!(parse_reset(ResetFormat::DeltaSeconds, "90", now), Some(secs(90)));
    assert_eq!(parse_reset(ResetFormat::DurationString, " 1m30s ", now), Some(secs(90)));
    assert_eq!(parse_reset(ResetFormat::UnixSeconds, "1767225690", now), Some(secs(90)));
    assert_eq!(parse_reset(ResetFormat::Rfc3339, "2026-01-01T00:01:30Z", now), Some(secs(90)));
    assert_eq!(parse_reset(ResetFormat::UnixSeconds, "1767225000", now), Some(Duration::zero()));
    assert_eq!(parse_reset(ResetFormat::DeltaSeconds, "-1", now), None);
}

#[test]
fn tokens_are_drained_like_requests() {
    let clock = Arc::new(ManualClock::new());
    let mut throttle = Throttle::per_second(1_000).with_clock(clock);
    let info = HeaderProfile::OPENAI.parse_at(&[("x-ratelimit-remaining-tokens", "400")], 0);
    assert_eq!(info.requests, None);
    assert_eq!(info.sync_requests(&mut throttle), 0);
    assert_eq!(info.sync_tokens(&mut throttle), 600);
    assert_eq!(throttle.available(), 400);
}

#[test]
fn the_aws_profile_reads_only_retry_after() {
    let headers = [("retry-after", "3"), ("x-ratelimit-remaining", "9")];
    let info = HeaderProfile::AWS.parse_at(&headers, 0);
    assert_eq!(info.retry_after, Some(secs(3)));
    assert_eq!(info.requests, None);
    assert_eq!(HeaderProfile::AWS.parse(&headers), info);
}

#[test]
fn unix_times_saturate_when_they_become_signed() {
    assert_eq!(to_signed_seconds(0), 0);
    assert_eq!(to_signed_seconds(1_700_000_000), 1_700_000_000);
    assert_eq!(to_signed_seconds(9_223_372_036_854_775_807), i64::MAX);
    assert_eq!(to_signed_seconds(9_223_372_036_854_775_808), i64::MAX);
    assert_eq!(to_signed_seconds(u64::MAX), i64::MAX);
}
