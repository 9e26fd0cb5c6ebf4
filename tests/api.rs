use gh_stack::api::{
    after_attempt, github_api_base, is_rate_limited, parse_i64, parse_rate_limit_headers, parse_u32, wait_minutes,
    RateLimitError, RetryStep, BASE_RETRY_DELAY_MS, MAX_RETRIES,
};
use gh_stack::Credentials;

#[test]
fn test_is_rate_limited_429() {
    assert!(is_rate_limited(429, None));
    assert!(is_rate_limited(403, Some("0")));
    assert!(!is_rate_limited(403, Some("12")));
    assert!(!is_rate_limited(403, None));
    assert!(!is_rate_limited(200, Some("0")));
}

#[test]
fn test_parse_rate_limit_headers() {
    let e = parse_rate_limit_headers(Some("1700000000"), Some("5000"), Some("0"));
    assert_eq!(e.reset_time, Some(1700000000));
    assert_eq!(e.limit, Some(5000));
    assert_eq!(e.remaining, Some(0));
    let e = parse_rate_limit_headers(None, Some("abc"), Some("-1"));
    assert_eq!(e.reset_time, None);
    assert_eq!(e.limit, None);
    assert_eq!(e.remaining, None);
}

#[test]
fn reset_time_out_of_chrono_range_is_dropped() {
    let e = parse_rate_limit_headers(Some("9223372036854775807"), None, None);
    assert_eq!(e.reset_time, None);
}

#[test]
fn number_parsing_follows_std() {
    assert_eq!(parse_u32("+42"), Some(42));
    assert_eq!(parse_u32("4294967295"), Some(u32::MAX));
    assert_eq!(parse_u32("4294967296"), None);
    assert_eq!(parse_u32(""), None);
    assert_eq!(parse_u32("1 "), None);
    assert_eq!(parse_i64("-9223372036854775808"), Some(i64::MIN));
    assert_eq!(parse_i64("9223372036854775807"), Some(i64::MAX));
    assert_eq!(parse_i64("9223372036854775808"), None);
    assert_eq!(parse_i64("-"), None);
    assert_eq!(parse_i64("-17"), Some(-17));
}

#[test]
fn retry_policy_doubles_the_wait() {
    let info = RateLimitError { reset_time: None, limit: None, remaining: None };
    assert!(matches!(after_attempt(0, false, info.clone()), RetryStep::Accept));
    assert!(matches!(after_attempt(0, true, info.clone()), RetryStep::Wait { delay_ms: 1000 }));
    assert!(matches!(after_attempt(1, true, info.clone()), RetryStep::Wait { delay_ms: 2000 }));
    assert!(matches!(after_attempt(2, true, info), RetryStep::GiveUp(_)));
    assert_eq!(MAX_RETRIES, 3);
    assert_eq!(BASE_RETRY_DELAY_MS, 1000);
}

#[test]
fn wait_is_at_least_a_minute() {
    assert_eq!(wait_minutes(1000, 1000), 1);
    assert_eq!(wait_minutes(1000 + 5 * 60 + 30, 1000), 5);
    assert_eq!(wait_minutes(0, 1000), 1);
}

#[test]
fn api_base_and_credentials() {
    assert_eq!(github_api_base(), "https://api.github.com");
    assert_eq!(Credentials::new("SECRET-REDACTED").token(), "SECRET-REDACTED");
}

#[test]
fn rate_limit_messages() {
    let none = RateLimitError { reset_time: None, limit: None, remaining: None };
    assert!(none.message(0).contains("rate limit exceeded"));
    let soon = RateLimitError { reset_time: Some(1000 + 60), limit: Some(5000), remaining: Some(0) };
    assert_eq!(soon.message(1000), "GitHub API rate limit exceeded. Try again in 1 minute.");
    let later = RateLimitError { reset_time: Some(1000 + 300), limit: Some(5000), remaining: Some(0) };
    assert_eq!(later.message(1000), "GitHub API rate limit exceeded. Try again in 5 minutes.");
}

#[test]
fn paging_stops_on_short_page_or_limit() {
    assert!(gh_stack::api::fetch_next_page(1, 100));
    assert!(!gh_stack::api::fetch_next_page(1, 99));
    assert!(!gh_stack::api::fetch_next_page(10, 100));
    assert!(gh_stack::api::fetch_next_page(9, 100));
}
