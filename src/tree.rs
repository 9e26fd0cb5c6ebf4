//! The facts the stack listing shows about each branch, and remote addresses.
use vstd::prelude::*;

use crate::pull_request::{PullRequest, PullRequestStatus};
use crate::text::{chars_of, decimal_spec, decimal_wide, find_from, owned, push_str, first_at, has_prefix, occurs_at, slice_chars, starts_with,
    string_of, trim_suffix, trim_suffix_spec, truncate_chars, truncate_spec};

verus! {

/// How the stack listing is drawn.
#[derive(Debug, Clone)]
pub struct TreeConfig {
    pub use_color: bool,
    pub use_unicode: bool,
    pub include_closed: bool,
}

/// State of a pull request in the listing.
#[derive(Debug, Clone, Copy, PartialEq, Eq, Structural)]
pub enum PrState {
    Open,
    Draft,
    Closed,
    Merged,
    NoPr,
}

/// One commit of a branch.
#[derive(Debug, Clone)]
pub struct CommitInfo {
    pub sha: String,
    pub message: String,
}

/// `s` cut to `max` characters, ending in "..." where it was longer.
pub fn truncate(s: &str, max: usize) -> (r: String)
    ensures
        r@ == truncate_spec(s@, max as nat),
{
    truncate_chars(s, max)
}

/// Merged, else closed, else draft, else open.
pub fn determine_pr_state(pr: &PullRequest) -> (r: PrState)
    ensures
        r == if pr.merged_at is Some {
            PrState::Merged
        } else if pr.state == PullRequestStatus::Closed {
            PrState::Closed
        } else if pr.draft {
            PrState::Draft
        } else {
            PrState::Open
        },
{
    if pr.is_merged() {
        PrState::Merged
    } else if *pr.state() == PullRequestStatus::Closed {
        PrState::Closed
    } else if pr.is_draft() {
        PrState::Draft
    } else {
        PrState::Open
    }
}

/// The part of `s` after its first occurrence of `sep` and before the next one (the second
/// piece of `str::split(sep)`), where `s` holds `sep`.
pub open spec fn second_piece(s: Seq<char>, sep: Seq<char>) -> Option<Seq<char>> {
    if exists|i: int| first_at(s, sep, 0, i) {
        let i = choose|i: int| first_at(s, sep, 0, i);
        let start = i + sep.len();
        if exists|j: int| first_at(s, sep, start, j) {
            let j = choose|j: int| first_at(s, sep, start, j);
            Some(s.subrange(start, j))
        } else {
            Some(s.subrange(start, s.len() as int))
        }
    } else {
        None
    }
}

/// The part of `s` after its first `c`, where it holds one (the second piece of
/// `str::splitn(2, c)`).
pub open spec fn after_first(s: Seq<char>, c: char) -> Option<Seq<char>> {
    if exists|i: int| 0 <= i < s.len() && s[i] == c {
        let i = choose|i: int| 0 <= i < s.len() && s[i] == c && forall|j: int| 0 <= j < i ==> s[j] != c;
        Some(s.subrange(i + 1, s.len() as int))
    } else {
        None
    }
}

proof fn lemma_first_unique(s: Seq<char>, sep: Seq<char>, from: int, i: int)
    requires
        first_at(s, sep, from, i),
    ensures
        (choose|j: int| first_at(s, sep, from, j)) == i,
{
    let j = choose|j: int| first_at(s, sep, from, j);
    if j < i {
        assert(!occurs_at(s, sep, j));
    } else if i < j {
        assert(!occurs_at(s, sep, i));
    }
}

/// The second piece of `v` split at `sep`.
pub(crate) fn second_piece_of(v: &Vec<char>, sep: &Vec<char>) -> (r: Option<Vec<char>>)
    requires
        sep.len() > 0,
    ensures
        r is Some <==> second_piece(v@, sep@) is Some,
        r is Some ==> r->0@ == second_piece(v@, sep@)->0,
{
    match find_from(v, sep, 0) {
        None => None,
        Some(i) => {
            proof {
                lemma_first_unique(v@, sep@, 0, i as int);
                assert(occurs_at(v@, sep@, i as int));
                assert(i + sep@.len() <= v@.len());
            }
            let l = sep.len();
            assert(i + l <= v.len());
            let start = i + l;
            match find_from(v, sep, start) {
                Some(j) => {
                    proof {
                        lemma_first_unique(v@, sep@, start as int, j as int);
                    }
                    Some(slice_chars(v, start, j))
                },
                None => Some(slice_chars(v, start, v.len())),
            }
        },
    }
}

/// The rest of `v` after its first `c`.
fn after_first_of(v: &Vec<char>, c: char) -> (r: Option<Vec<char>>)
    ensures
        r is Some <==> after_first(v@, c) is Some,
        r is Some ==> r->0@ == after_first(v@, c)->0,
{
    let mut i: usize = 0;
    while i < v.len()
        invariant
            i <= v.len(),
            forall|j: int| 0 <= j < i ==> v@[j] != c,
        decreases v.len() - i,
    {
        if v[i] == c {
            proof {
                let k = choose|k: int| 0 <= k < v@.len() && v@[k] == c && forall|j: int| 0 <= j < k ==> v@[j] != c;
                if k < i {
                    assert(v@[k] != c);
                } else if k > i {
                    assert(v@[i as int] != c);
                }
            }
            return Some(slice_chars(v, i + 1, v.len()));
        }
        i = i + 1;
    }
    None
}

/// The "owner/repo" path of a remote address: after the ':' of an SSH address
/// (`git@host:owner/repo.git`), or after the host of an HTTP(S) address, without trailing
/// ".git"; `None` for any other address.
pub open spec fn remote_path_spec(url: Seq<char>) -> Option<Seq<char>> {
    if has_prefix(url, "git@"@) {
        match second_piece(url, ":"@) {
            Some(p) => Some(trim_suffix_spec(p, ".git"@)),
            None => None,
        }
    } else if has_prefix(url, "https://"@) || has_prefix(url, "http://"@) {
        match second_piece(url, "://"@) {
            Some(w) => match after_first(w, '/') {
                Some(p) => Some(trim_suffix_spec(p, ".git"@)),
                None => None,
            },
            None => None,
        }
    } else {
        None
    }
}

/// The "owner/repo" path of a GitHub remote address.
pub fn parse_github_remote_url(url: &str) -> (r: Option<String>)
    ensures
        r is Some <==> remote_path_spec(url@) is Some,
        r is Some ==> r->0@ == remote_path_spec(url@)->0,
{
    proof {
        reveal_strlit("git@");
        reveal_strlit(":");
        reveal_strlit("://");
        reveal_strlit(".git");
    }
    let u = chars_of(url);
    let git = chars_of(".git");
    if starts_with(&u, &chars_of("git@")) {
        return match second_piece_of(&u, &chars_of(":")) {
            Some(p) => Some(string_of(trim_suffix(&p, &git).as_slice())),
            None => None,
        };
    }
    if starts_with(&u, &chars_of("https://")) || starts_with(&u, &chars_of("http://")) {
        return match second_piece_of(&u, &chars_of("://")) {
            Some(w) => match after_first_of(&w, '/') {
                Some(p) => Some(string_of(trim_suffix(&p, &git).as_slice())),
                None => None,
            },
            None => None,
        };
    }
    None
}

/// "1 unit ago", or "n units ago".
pub open spec fn ago(n: int, unit: Seq<char>) -> Seq<char> {
    if n == 1 {
        "1 "@ + unit + " ago"@
    } else {
        decimal_spec(n as nat) + " "@ + unit + "s ago"@
    }
}

/// How long ago something happened, given the whole seconds elapsed since: in the largest unit
/// that fits (seconds below a minute, minutes below an hour, hours below a day, days below a
/// week, weeks below five, 30-day months below twelve, else 365-day years); "just now" when the
/// time lies ahead.
pub open spec fn relative_time_spec(secs: int) -> Seq<char> {
    let days = secs / 86400;
    if secs < 0 {
        "just now"@
    } else if secs < 60 {
        ago(secs, "second"@)
    } else if secs / 60 < 60 {
        ago(secs / 60, "minute"@)
    } else if secs / 3600 < 24 {
        ago(secs / 3600, "hour"@)
    } else if days < 7 {
        ago(days, "day"@)
    } else if days / 7 < 5 {
        ago(days / 7, "week"@)
    } else if days / 30 < 12 {
        ago(days / 30, "month"@)
    } else {
        ago(days / 365, "year"@)
    }
}

fn ago_text(n: i64, unit: &str) -> (r: String)
    requires
        n >= 0,
    ensures
        r@ == ago(n as int, unit@),
{
    if n == 1 {
        let mut r = owned("1 ");
        push_str(&mut r, unit);
        push_str(&mut r, " ago");
        r
    } else {
        let mut r = decimal_wide(n as u128);
        push_str(&mut r, " ");
        push_str(&mut r, unit);
        push_str(&mut r, "s ago");
        r
    }
}

/// The age of something that happened `secs` whole seconds ago, in words.
pub fn format_elapsed(secs: i64) -> (r: String)
    ensures
        r@ == relative_time_spec(secs as int),
{
    if secs < 0 {
        return owned("just now");
    }
    let days = secs / 86400;
    if secs < 60 {
        ago_text(secs, "second")
    } else if secs / 60 < 60 {
        ago_text(secs / 60, "minute")
    } else if secs / 3600 < 24 {
        ago_text(secs / 3600, "hour")
    } else if days < 7 {
        ago_text(days, "day")
    } else if days / 7 < 5 {
        ago_text(days / 7, "week")
    } else if days / 30 < 12 {
        ago_text(days / 30, "month")
    } else {
        ago_text(days / 365, "year")
    }
}

} // verus!
