//! The markdown table that describes a stack in each pull request's description, and how it
//! replaces an earlier one.
use vstd::prelude::*;

use crate::land::FlatDep;
use crate::pull_request::{PullRequest, PullRequestReviewState, PullRequestStatus};
use crate::text::{chars_of, decimal, decimal_spec, find_from, first_at, occurs_at, owned, push_str, slice_chars,
    string_of};

verus! {

/// The badge label of a pull request: "Closed" when closed without a merge, else its review
/// state ("%20", a blank, when merged).
pub open spec fn badge_label(pr: PullRequest) -> Seq<char> {
    let rs = pr.review_state_spec();
    if rs != PullRequestReviewState::MERGED && pr.state == PullRequestStatus::Closed {
        "Closed"@
    } else {
        match rs {
            PullRequestReviewState::APPROVED => "Approved"@,
            PullRequestReviewState::MERGED => "%20"@,
            PullRequestReviewState::PENDING => "Pending"@,
            PullRequestReviewState::CHANGES_REQUESTED => "Changes Requested"@,
            PullRequestReviewState::DISMISSED => "Dismissed"@,
            PullRequestReviewState::COMMENTED => "Commented"@,
        }
    }
}

pub open spec fn badge_spec(pr: PullRequest, repository: Seq<char>) -> Seq<char> {
    "![](https://img.shields.io/github/pulls/detail/state/"@ + repository + "/"@ + decimal_spec(pr.number as nat)
        + "?label="@ + badge_label(pr) + ")"@
}

/// One row: number, title, badge, and the number of the pull request it merges into ("-" for
/// the bottom one).
pub open spec fn row_spec(entry: (PullRequest, Option<PullRequest>), repository: Seq<char>) -> Seq<char> {
    let pr = entry.0;
    "|#"@ + decimal_spec(pr.number as nat) + "|"@ + pr.title_spec() + "|"@ + badge_spec(pr, repository) + "|"@
        + match entry.1 {
        None => "-"@,
        Some(parent) => "#"@ + decimal_spec(parent.number as nat),
    } + "|\n"@
}

pub open spec fn rows_spec(deps: Seq<(PullRequest, Option<PullRequest>)>, repository: Seq<char>) -> Seq<char>
    decreases deps.len(),
{
    if deps.len() == 0 {
        Seq::empty()
    } else {
        rows_spec(deps.drop_last(), repository) + row_spec(deps.last(), repository)
    }
}

/// Every pull request of the stack is closed.
pub open spec fn all_closed(deps: Seq<(PullRequest, Option<PullRequest>)>) -> bool {
    forall|i: int| 0 <= i < deps.len() ==> (#[trigger] deps[i]).0.state == PullRequestStatus::Closed
}

/// The whole table: a heading (checked once every pull request is closed), the prelude if
/// any, the header rows, then one row per pull request.
pub open spec fn table_spec(
    deps: Seq<(PullRequest, Option<PullRequest>)>,
    title: Seq<char>,
    prelude: Option<Seq<char>>,
    repository: Seq<char>,
) -> Seq<char> {
    (if all_closed(deps) {
        "### \u{2705} Stacked PR Chain: "@
    } else {
        "### Stacked PR Chain: "@
    }) + title + "\n"@ + match prelude {
        Some(p) => p + "\n"@,
        None => Seq::empty(),
    } + "| PR | Title | Status |  Merges Into  |\n"@ + "|:--:|:------|:-------|:-------------:|\n"@ + rows_spec(
        deps,
        repository,
    )
}

fn badge(pr: &PullRequest, repository: &str) -> (r: String)
    ensures
        r@ == badge_spec(*pr, repository@),
{
    let rs = pr.review_state();
    let label = if rs != PullRequestReviewState::MERGED && pr.state == PullRequestStatus::Closed {
        "Closed"
    } else {
        match rs {
            PullRequestReviewState::APPROVED => "Approved",
            PullRequestReviewState::MERGED => "%20",
            PullRequestReviewState::PENDING => "Pending",
            PullRequestReviewState::CHANGES_REQUESTED => "Changes Requested",
            PullRequestReviewState::DISMISSED => "Dismissed",
            PullRequestReviewState::COMMENTED => "Commented",
        }
    };
    let mut r = owned("![](https://img.shields.io/github/pulls/detail/state/");
    push_str(&mut r, repository);
    push_str(&mut r, "/");
    push_str(&mut r, decimal(pr.number).as_str());
    push_str(&mut r, "?label=");
    push_str(&mut r, label);
    push_str(&mut r, ")");
    r
}

fn all_closed_exec(deps: &FlatDep) -> (r: bool)
    ensures
        r == all_closed(deps@),
{
    let mut i: usize = 0;
    while i < deps.len()
        invariant
            i <= deps.len(),
            forall|k: int| 0 <= k < i ==> (#[trigger] deps@[k]).0.state == PullRequestStatus::Closed,
        decreases deps.len() - i,
    {
        if deps[i].0.state != PullRequestStatus::Closed {
            return false;
        }
        i = i + 1;
    }
    true
}

/// The markdown table that lists the stack `deps` under `title`, with `prelude` (the text of a
/// prelude file, if one is used) between the heading and the table.
pub fn build_table(deps: &FlatDep, title: &str, prelude: Option<&str>, repository: &str) -> (r: String)
    ensures
        r@ == table_spec(
            deps@,
            title@,
            match prelude {
                Some(p) => Some(p@),
                None => None,
            },
            repository@,
        ),
{
    let mut out = if all_closed_exec(deps) {
        owned("### \u{2705} Stacked PR Chain: ")
    } else {
        owned("### Stacked PR Chain: ")
    };
    push_str(&mut out, title);
    push_str(&mut out, "\n");
    if let Some(p) = prelude {
        push_str(&mut out, p);
        push_str(&mut out, "\n");
    }
    push_str(&mut out, "| PR | Title | Status |  Merges Into  |\n");
    push_str(&mut out, "|:--:|:------|:-------|:-------------:|\n");
    let ghost head = out@;
    let mut i: usize = 0;
    while i < deps.len()
        invariant
            i <= deps.len(),
            out@ == head + rows_spec(deps@.subrange(0, i as int), repository@),
        decreases deps.len() - i,
    {
        let ghost before = out@;
        let node = &deps[i].0;
        push_str(&mut out, "|#");
        push_str(&mut out, decimal(node.number).as_str());
        push_str(&mut out, "|");
        push_str(&mut out, node.title().as_str());
        push_str(&mut out, "|");
        push_str(&mut out, badge(node, repository).as_str());
        push_str(&mut out, "|");
        match &deps[i].1 {
            None => push_str(&mut out, "-"),
            Some(parent) => {
                push_str(&mut out, "#");
                push_str(&mut out, decimal(parent.number).as_str());
            },
        }
        push_str(&mut out, "|\n");
        proof {
            assert(deps@.subrange(0, i + 1).drop_last() =~= deps@.subrange(0, i as int));
            assert(out@ =~= before + row_spec(deps@[i as int], repository@));
        }
        i = i + 1;
    }
    assert(deps@.subrange(0, deps.len() as int) =~= deps@);
    out
}

/// The marker that opens the table in a description.
pub open spec fn open_marker() -> Seq<char> {
    "<!---GHSTACKOPEN-->"@
}

/// The marker that closes the table in a description.
pub open spec fn close_marker() -> Seq<char> {
    "<!---GHSTACKCLOSE-->"@
}

/// The table between the markers, each on a line of its own.
pub open spec fn framed(table: Seq<char>) -> Seq<char> {
    "\n"@ + open_marker() + "\n"@ + table + "\n"@ + close_marker() + "\n"@
}

/// `j` is the last occurrence of the closing marker that starts at or after `from`.
pub open spec fn last_close_at(body: Seq<char>, from: int, j: int) -> bool {
    &&& from <= j
    &&& occurs_at(body, close_marker(), j)
    &&& forall|k: int| j < k ==> !occurs_at(body, close_marker(), k)
}

/// The description with its table replaced: where an opening marker occurs with a closing
/// marker after it, everything from the first opening marker to the end of the last closing
/// marker gives way to the framed table; where an opening marker occurs without one, the
/// description stays as it is; where none occurs, the framed table is appended.
pub open spec fn replaced_spec(body: Seq<char>, table: Seq<char>) -> Seq<char> {
    if exists|i: int| first_at(body, open_marker(), 0, i) {
        let i = choose|i: int| first_at(body, open_marker(), 0, i);
        if exists|j: int| #[trigger] last_close_at(body, i + open_marker().len(), j) {
            let j = choose|j: int| #[trigger] last_close_at(body, i + open_marker().len(), j);
            body.subrange(0, i) + framed(table) + body.subrange(j + close_marker().len(), body.len() as int)
        } else {
            body
        }
    } else {
        body + framed(table)
    }
}

proof fn lemma_first_unique(s: Seq<char>, pat: Seq<char>, from: int, i: int)
    requires
        first_at(s, pat, from, i),
    ensures
        (choose|j: int| first_at(s, pat, from, j)) == i,
{
    let j = choose|j: int| first_at(s, pat, from, j);
    if j < i {
        assert(!occurs_at(s, pat, j));
    } else if i < j {
        assert(!occurs_at(s, pat, i));
    }
}

/// The last occurrence of the closing marker at or after `from`.
fn find_last_close(v: &Vec<char>, close: &Vec<char>, from: usize) -> (r: Option<usize>)
    requires
        from <= v.len(),
        close@ == close_marker(),
    ensures
        r is Some ==> last_close_at(v@, from as int, r->0 as int),
        r is None ==> !exists|j: int| #[trigger] last_close_at(v@, from as int, j),
{
    let mut best: Option<usize> = None;
    let mut k: usize = from;
    loop
        invariant
            from <= k <= v.len(),
            close@ == close_marker(),
            best is Some ==> from <= best->0 && occurs_at(v@, close@, best->0 as int)
                && forall|t: int| best->0 < t < k ==> !occurs_at(v@, close@, t),
            best is None ==> forall|t: int| from <= t < k ==> !occurs_at(v@, close@, t),
        decreases v.len() - k,
    {
        match find_from(v, close, k) {
            Some(j) => {
                best = Some(j);
                if j >= v.len() {
                    proof {
                        assert(close@.len() > 0) by {
                            reveal_strlit("<!---GHSTACKCLOSE-->");
                        }
                    }
                    return best;
                }
                k = j + 1;
            },
            None => {
                proof {
                    if let Some(b) = best {
                        assert(forall|t: int| b < t ==> !occurs_at(v@, close@, t));
                    } else {
                        assert(forall|t: int| from <= t ==> !occurs_at(v@, close@, t));
                    }
                }
                return best;
            },
        }
    }
}

/// `body` with the framed table in place of the one between the markers, or appended where it
/// has none.
pub fn safe_replace(body: &str, table: &str) -> (r: String)
    ensures
        r@ == replaced_spec(body@, table@),
{
    proof {
        reveal_strlit("<!---GHSTACKOPEN-->");
        reveal_strlit("<!---GHSTACKCLOSE-->");
    }
    let mut framed_text = owned("\n");
    push_str(&mut framed_text, "<!---GHSTACKOPEN-->");
    push_str(&mut framed_text, "\n");
    push_str(&mut framed_text, table);
    push_str(&mut framed_text, "\n");
    push_str(&mut framed_text, "<!---GHSTACKCLOSE-->");
    push_str(&mut framed_text, "\n");
    let v = chars_of(body);
    let open = chars_of("<!---GHSTACKOPEN-->");
    let close = chars_of("<!---GHSTACKCLOSE-->");
    match find_from(&v, &open, 0) {
        None => {
            let mut r = owned(body);
            push_str(&mut r, framed_text.as_str());
            r
        },
        Some(i) => {
            proof {
                lemma_first_unique(v@, open@, 0, i as int);
                assert(occurs_at(v@, open@, i as int));
            }
            let l = open.len();
            assert(i + l <= v.len());
            match find_last_close(&v, &close, i + l) {
                None => owned(body),
                Some(j) => {
                    proof {
                        let c = choose|c: int| #[trigger] last_close_at(v@, i + open@.len(), c);
                        if c < j {
                            assert(!occurs_at(v@, close@, j as int));
                        } else if c > j {
                            assert(!occurs_at(v@, close@, c));
                        }
                        assert(occurs_at(v@, close@, j as int));
                    }
                    let e = j + close.len();
                    let mut r = string_of(slice_chars(&v, 0, i).as_slice());
                    push_str(&mut r, framed_text.as_str());
                    push_str(&mut r, string_of(slice_chars(&v, e, v.len()).as_slice()).as_str());
                    r
                },
            }
        },
    }
}

} // verus!
