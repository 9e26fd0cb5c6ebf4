//! Web addresses of the forge derived from a remote address.
use vstd::prelude::*;

use crate::text::{chars_of, has_prefix, owned, push_str, slice_chars, starts_with, string_of};
use crate::tree::second_piece;

verus! {

/// The characters of `s` before its first `c`, or all of them.
pub open spec fn before_first(s: Seq<char>, c: char) -> Seq<char> {
    if exists|i: int| 0 <= i < s.len() && s[i] == c {
        let i = choose|i: int| 0 <= i < s.len() && s[i] == c && forall|j: int| 0 <= j < i ==> s[j] != c;
        s.subrange(0, i)
    } else {
        s
    }
}

/// The web root of the forge a remote address points at: `https://host` for an SSH address
/// `git@host:...`, the scheme and host of an HTTP(S) address; `None` for any other address.
pub open spec fn host_spec(url: Seq<char>) -> Option<Seq<char>> {
    if has_prefix(url, "git@"@) {
        Some("https://"@ + before_first(url.subrange(4, url.len() as int), ':'))
    } else if has_prefix(url, "https://"@) || has_prefix(url, "http://"@) {
        match second_piece(url, "://"@) {
            Some(w) => Some((if has_prefix(url, "https://"@) {
                "https"@
            } else {
                "http"@
            }) + "://"@ + before_first(w, '/')),
            None => None,
        }
    } else {
        None
    }
}

fn before_first_of(v: &Vec<char>, from: usize, c: char) -> (r: Vec<char>)
    requires
        from <= v.len(),
    ensures
        r@ == before_first(v@.subrange(from as int, v.len() as int), c),
{
    let w = slice_chars(v, from, v.len());
    let mut i: usize = 0;
    while i < w.len()
        invariant
            i <= w.len(),
            from <= v.len(),
            w@ == v@.subrange(from as int, v.len() as int),
            forall|j: int| 0 <= j < i ==> w@[j] != c,
        decreases w.len() - i,
    {
        if w[i] == c {
            proof {
                assert(w@[i as int] == c && forall|j: int| 0 <= j < i ==> w@[j] != c);
                let k = choose|k: int| 0 <= k < w@.len() && w@[k] == c && forall|j: int| 0 <= j < k ==> w@[j] != c;
                if k < i {
                    assert(w@[k] != c);
                } else if k > i {
                    assert(w@[i as int] == c);
                }
                assert(k == i);
                assert(before_first(w@, c) == w@.subrange(0, i as int));
            }
            return slice_chars(&w, 0, i);
        }
        i = i + 1;
    }
    w
}

/// The web root of the forge a git remote address points at.
pub fn parse_github_host(remote_url: &str) -> (r: Option<String>)
    ensures
        r is Some <==> host_spec(remote_url@) is Some,
        r is Some ==> r->0@ == host_spec(remote_url@)->0,
{
    proof {
        reveal_strlit("git@");
    }
    let u = chars_of(remote_url);
    if starts_with(&u, &chars_of("git@")) {
        let host = before_first_of(&u, 4, ':');
        let mut r = owned("https://");
        push_str(&mut r, string_of(host.as_slice()).as_str());
        return Some(r);
    }
    let https = starts_with(&u, &chars_of("https://"));
    if https || starts_with(&u, &chars_of("http://")) {
        proof {
            reveal_strlit("://");
        }
        return match crate::tree::second_piece_of(&u, &chars_of("://")) {
            Some(w) => {
                let host = before_first_of(&w, 0, '/');
                assert(w@.subrange(0, w@.len() as int) =~= w@);
                let mut r = if https { owned("https") } else { owned("http") };
                push_str(&mut r, "://");
                push_str(&mut r, string_of(host.as_slice()).as_str());
                Some(r)
            },
            None => None,
        };
    }
    None
}

/// The address of the forge's form that opens a pull request from `head` onto `base`.
pub fn build_pr_url(github_host: &str, repo: &str, base: &str, head: &str) -> (r: String)
    ensures
        r@ == github_host@ + "/"@ + repo@ + "/compare/"@ + base@ + "..."@ + head@ + "?expand=1"@,
{
    let mut r = owned(github_host);
    push_str(&mut r, "/");
    push_str(&mut r, repo);
    push_str(&mut r, "/compare/");
    push_str(&mut r, base);
    push_str(&mut r, "...");
    push_str(&mut r, head);
    push_str(&mut r, "?expand=1");
    r
}

} // verus!
