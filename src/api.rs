//! The forge's address, rate-limit detection and the retry policy of remote calls.
use vstd::prelude::*;

use crate::text::{chars_of, decimal_spec, decimal_wide, owned, push_str, same_text};

verus! {

/// The root address of the forge's API.
pub fn github_api_base() -> (r: String)
    ensures
        r@ == "https://api.github.com"@,
{
    owned("https://api.github.com")
}

/// How many times a rate-limited call is attempted.
pub const MAX_RETRIES: u32 = 3;

/// The wait before the first retry, in milliseconds; it doubles with each retry.
pub const BASE_RETRY_DELAY_MS: u64 = 1000;

/// How many pages of open pull requests are fetched at most.
pub const MAX_PAGES: u32 = 10;

/// How many pull requests one page holds.
pub const PAGE_SIZE: usize = 100;

/// Whether the listing goes on after page `page` (counted from 1) returned `count` pull
/// requests: only after a full page, and not past the page limit.
pub fn fetch_next_page(page: u32, count: usize) -> (r: bool)
    ensures
        r == (count >= PAGE_SIZE && page < MAX_PAGES),
{
    count >= PAGE_SIZE && page < MAX_PAGES
}

/// What the rate-limit headers of the last response said.
#[derive(Debug, Clone)]
pub struct RateLimitError {
    /// When the quota replenishes, in seconds since the Unix epoch.
    pub reset_time: Option<i64>,
    pub limit: Option<u32>,
    pub remaining: Option<u32>,
}

/// A response is rate-limited when its status is 429, or 403 with a remaining quota of "0".
pub open spec fn rate_limited_spec(status: u16, remaining: Option<Seq<char>>) -> bool {
    status == 429 || (status == 403 && remaining == Some("0"@))
}

/// Whether a response with this status and `x-ratelimit-remaining` header is rate-limited.
pub fn is_rate_limited(status: u16, remaining_header: Option<&str>) -> (r: bool)
    ensures
        r == rate_limited_spec(
            status,
            match remaining_header {
                Some(h) => Some(h@),
                None => None,
            },
        ),
{
    if status == 429 {
        return true;
    }
    if status == 403 {
        if let Some(h) = remaining_header {
            return same_text(h, "0");
        }
    }
    false
}

pub open spec fn is_digit(c: char) -> bool {
    '0' <= c && c <= '9'
}

/// Every character of `s` is a decimal digit.
pub open spec fn all_digits(s: Seq<char>) -> bool {
    forall|i: int| 0 <= i < s.len() ==> is_digit(#[trigger] s[i])
}

/// The value of a string of decimal digits.
pub open spec fn digits_value(s: Seq<char>) -> int
    decreases s.len(),
{
    if s.len() == 0 {
        0
    } else {
        digits_value(s.drop_last()) * 10 + (s.last() as int - '0' as int)
    }
}

/// The value of `s` read as digits with an optional leading '+'.
pub open spec fn unsigned_text(s: Seq<char>) -> Option<int> {
    let body = if s.len() > 0 && s[0] == '+' { s.drop_first() } else { s };
    if body.len() > 0 && all_digits(body) {
        Some(digits_value(body))
    } else {
        None
    }
}

/// `s` read as a `u32`, as `str::parse::<u32>` reads it.
pub open spec fn parse_u32_spec(s: Seq<char>) -> Option<u32> {
    match unsigned_text(s) {
        Some(v) => if v <= u32::MAX { Some(v as u32) } else { None },
        None => None,
    }
}

/// `s` read as an `i64`, as `str::parse::<i64>` reads it: an optional sign, then digits.
pub open spec fn parse_i64_spec(s: Seq<char>) -> Option<i64> {
    if s.len() > 0 && s[0] == '-' {
        let body = s.drop_first();
        if body.len() > 0 && all_digits(body) {
            if -digits_value(body) >= i64::MIN { Some((-digits_value(body)) as i64) } else { None }
        } else {
            None
        }
    } else {
        match unsigned_text(s) {
            Some(v) => if v <= i64::MAX { Some(v as i64) } else { None },
            None => None,
        }
    }
}

proof fn lemma_digits_nonneg(s: Seq<char>)
    requires
        forall|i: int| 0 <= i < s.len() ==> is_digit(#[trigger] s[i]),
    ensures
        digits_value(s) >= 0,
    decreases s.len(),
{
    if s.len() > 0 {
        lemma_digits_nonneg(s.drop_last());
    }
}

proof fn lemma_digits_grow(s: Seq<char>, k: int)
    requires
        0 <= k <= s.len(),
        forall|i: int| 0 <= i < s.len() ==> is_digit(#[trigger] s[i]),
    ensures
        digits_value(s.subrange(0, k)) <= digits_value(s),
    decreases s.len() - k,
{
    if k < s.len() {
        let t = s.drop_last();
        if k < s.len() {
            assert(s.subrange(0, k) =~= t.subrange(0, k));
            lemma_digits_grow(t, k);
            lemma_digits_nonneg(t);
        }
    } else {
        assert(s.subrange(0, k) =~= s);
    }
}

/// The value of the digits of `v` from `from` on, where they are all digits and there is at
/// least one; `Ok(None)` where the value exceeds `u64::MAX`.
fn read_digits(v: &Vec<char>, from: usize) -> (r: Result<Option<u64>, ()>)
    requires
        from <= v.len(),
    ensures
        ({
            let body = v@.subrange(from as int, v.len() as int);
            let ok = body.len() > 0 && all_digits(body);
            &&& r is Err <==> !ok
            &&& (r is Ok && r->Ok_0 is Some) ==> r->Ok_0->0 as int == digits_value(body)
            &&& (r is Ok && r->Ok_0 is None) ==> digits_value(body) > u64::MAX
        }),
{
    let ghost body = v@.subrange(from as int, v.len() as int);
    if from == v.len() {
        return Err(());
    }
    let mut i: usize = from;
    while i < v.len()
        invariant
            from <= i <= v.len(),
            body == v@.subrange(from as int, v.len() as int),
            forall|k: int| 0 <= k < i - from ==> is_digit(#[trigger] body[k]),
        decreases v.len() - i,
    {
        if !('0' <= v[i] && v[i] <= '9') {
            assert(!is_digit(body[i - from]));
            return Err(());
        }
        i = i + 1;
    }
    let mut acc: u128 = 0;
    let mut j: usize = from;
    while j < v.len()
        invariant
            from <= j <= v.len(),
            body == v@.subrange(from as int, v.len() as int),
            forall|k: int| 0 <= k < body.len() ==> is_digit(#[trigger] body[k]),
            acc as int == digits_value(body.subrange(0, j - from)),
            acc <= u64::MAX,
        decreases v.len() - j,
    {
        assert(is_digit(body[j - from]));
        assert(body[j - from] == v@[j as int]);
        let d = (v[j] as u32 - '0' as u32) as u128;
        proof {
            let sub = body.subrange(0, j + 1 - from);
            assert(sub.drop_last() =~= body.subrange(0, j - from));
            assert(sub.last() == v@[j as int]);
        }
        let next = acc * 10 + d;
        if next > u64::MAX as u128 {
            proof {
                lemma_digits_grow(body, j + 1 - from);
            }
            return Ok(None);
        }
        acc = next;
        j = j + 1;
    }
    assert(body.subrange(0, body.len() as int) =~= body);
    Ok(Some(acc as u64))
}

/// `s` read as a `u32`.
pub fn parse_u32(s: &str) -> (r: Option<u32>)
    ensures
        r == parse_u32_spec(s@),
{
    let v = chars_of(s);
    let from: usize = if v.len() > 0 && v[0] == '+' { 1 } else { 0 };
    proof {
        if from == 1 {
            assert(v@.subrange(1, v@.len() as int) =~= v@.drop_first());
        } else {
            assert(v@.subrange(0, v@.len() as int) =~= v@);
        }
    }
    match read_digits(&v, from) {
        Ok(Some(x)) => if x <= u32::MAX as u64 { Some(x as u32) } else { None },
        _ => None,
    }
}

/// `s` read as an `i64`.
pub fn parse_i64(s: &str) -> (r: Option<i64>)
    ensures
        r == parse_i64_spec(s@),
{
    let v = chars_of(s);
    if v.len() > 0 && v[0] == '-' {
        assert(v@.subrange(1, v@.len() as int) =~= v@.drop_first());
        return match read_digits(&v, 1) {
            Ok(Some(x)) => if x <= 9223372036854775808u64 {
                if x == 9223372036854775808u64 {
                    Some(i64::MIN)
                } else {
                    Some(-(x as i64))
                }
            } else {
                None
            },
            _ => None,
        };
    }
    let from: usize = if v.len() > 0 && v[0] == '+' { 1 } else { 0 };
    proof {
        if from == 1 {
            assert(v@.subrange(1, v@.len() as int) =~= v@.drop_first());
        } else {
            assert(v@.subrange(0, v@.len() as int) =~= v@);
        }
    }
    match read_digits(&v, from) {
        Ok(Some(x)) => if x <= i64::MAX as u64 { Some(x as i64) } else { None },
        _ => None,
    }
}

/// Whether chrono can hold the instant `secs` seconds after the Unix epoch.
pub uninterp spec fn utc_instant_exists(secs: i64) -> bool;

/// Relies on chrono's `DateTime::<Utc>::from_timestamp`, which returns `None` for a second
/// count outside the range of dates it can represent.
#[verifier::external_body]
fn utc_representable(secs: i64) -> (r: bool)
    ensures
        r == utc_instant_exists(secs),
{
    chrono::DateTime::<chrono::Utc>::from_timestamp(secs, 0).is_some()
}

/// Reads the `x-ratelimit-reset`, `x-ratelimit-limit` and `x-ratelimit-remaining` headers; a
/// header that is missing or does not read as a number gives `None`, and so does a reset time
/// that no date can hold.
pub fn parse_rate_limit_headers(reset: Option<&str>, limit: Option<&str>, remaining: Option<&str>) -> (r:
    RateLimitError)
    ensures
        r.reset_time == match reset {
            Some(h) => match parse_i64_spec(h@) {
                Some(t) => if utc_instant_exists(t) { Some(t) } else { None },
                None => None,
            },
            None => None,
        },
        r.limit == match limit {
            Some(h) => parse_u32_spec(h@),
            None => None,
        },
        r.remaining == match remaining {
            Some(h) => parse_u32_spec(h@),
            None => None,
        },
{
    let reset_time = match reset {
        Some(h) => match parse_i64(h) {
            Some(t) => if utc_representable(t) { Some(t) } else { None },
            None => None,
        },
        None => None,
    };
    let limit = match limit {
        Some(h) => parse_u32(h),
        None => None,
    };
    let remaining = match remaining {
        Some(h) => parse_u32(h),
        None => None,
    };
    RateLimitError { reset_time, limit, remaining }
}

/// Whole minutes until `reset`, counted from `now` (both in seconds since the epoch), at least 1.
pub open spec fn wait_minutes_spec(reset: i64, now: i64) -> int {
    let d = reset as int - now as int;
    let m = if d >= 0 { d / 60 } else { -((-d) / 60) };
    if m < 1 { 1 } else { m }
}

/// The minutes to wait before the quota replenishes, at least one.
pub fn wait_minutes(reset: i64, now: i64) -> (r: i128)
    ensures
        r as int == wait_minutes_spec(reset, now),
{
    let d: i128 = reset as i128 - now as i128;
    let m: i128 = if d >= 0 { d / 60 } else { -((-d) / 60) };
    if m < 1 { 1 } else { m }
}

impl RateLimitError {
    /// What to tell the user at time `now` (seconds since the epoch): how many minutes remain
    /// until the quota replenishes, where the reset time is known.
    pub fn message(&self, now: i64) -> (r: String)
        ensures
            r@ == match self.reset_time {
                Some(reset) => "GitHub API rate limit exceeded. Try again in "@ + decimal_spec(
                    wait_minutes_spec(reset, now) as nat,
                ) + " minute"@ + (if wait_minutes_spec(reset, now) == 1 {
                    ""@
                } else {
                    "s"@
                }) + "."@,
                None => "GitHub API rate limit exceeded."@,
            },
    {
        match self.reset_time {
            Some(reset) => {
                let mins = wait_minutes(reset, now);
                let mut m = owned("GitHub API rate limit exceeded. Try again in ");
                push_str(&mut m, decimal_wide(mins as u128).as_str());
                push_str(&mut m, " minute");
                if mins == 1 {
                    push_str(&mut m, "");
                } else {
                    push_str(&mut m, "s");
                }
                push_str(&mut m, ".");
                m
            },
            None => owned("GitHub API rate limit exceeded."),
        }
    }
}

/// What to do after an attempt.
#[derive(Debug)]
pub enum RetryStep {
    /// Hand the response to the caller.
    Accept,
    /// Wait this long, then attempt again.
    Wait { delay_ms: u64 },
    /// Stop: the last response was rate-limited and no attempt is left.
    GiveUp(RateLimitError),
}

pub open spec fn pow2(n: nat) -> nat
    decreases n,
{
    if n == 0 { 1 } else { 2 * pow2((n - 1) as nat) }
}

/// The wait before attempt `attempt + 1`: the base delay doubled `attempt` times.
pub open spec fn retry_delay_spec(attempt: nat) -> int {
    BASE_RETRY_DELAY_MS as int * pow2(attempt)
}

/// The retry policy: a response that is not rate-limited is accepted; a rate-limited one is
/// retried after an exponentially growing wait while attempts are left, with no wait after the
/// last attempt, which gives up with what its headers said.
pub fn after_attempt(attempt: u32, rate_limited: bool, info: RateLimitError) -> (r: RetryStep)
    requires
        attempt < MAX_RETRIES,
    ensures
        !rate_limited ==> r is Accept,
        rate_limited && attempt + 1 < MAX_RETRIES ==> (r matches RetryStep::Wait { delay_ms }
            && delay_ms as int == retry_delay_spec(attempt as nat)),
        rate_limited && attempt + 1 == MAX_RETRIES ==> (r matches RetryStep::GiveUp(e) && e.reset_time
            == info.reset_time && e.limit == info.limit && e.remaining == info.remaining),
{
    if !rate_limited {
        return RetryStep::Accept;
    }
    if attempt + 1 < MAX_RETRIES {
        let mut delay: u64 = BASE_RETRY_DELAY_MS;
        let mut k: u32 = 0;
        while k < attempt
            invariant
                k <= attempt < MAX_RETRIES,
                delay as int == retry_delay_spec(k as nat),
            decreases attempt - k,
        {
            proof {
                assert(pow2((k + 1) as nat) == 2 * pow2(k as nat));
                assert(pow2(0) == 1);
                assert(pow2(1) == 2);
                assert(pow2(2) == 4);
            }
            delay = delay * 2;
            k = k + 1;
        }
        RetryStep::Wait { delay_ms: delay }
    } else {
        RetryStep::GiveUp(info)
    }
}

} // verus!
