//! Pull requests as the forge reports them, and the facts the stack logic reads from them.
use vstd::prelude::*;
use vstd::string::*;

use crate::text::{chars_of, is_space, owned, push_str, replace_all, replace_all_spec, replace_first,
    replace_first_spec, space, string_of, trim_spec, decimal_spec};

verus! {

/// The verdict of one review.
#[allow(non_camel_case_types)]
#[derive(Debug, Clone, Copy, PartialEq, Eq, Structural)]
pub enum PullRequestReviewState {
    APPROVED,
    PENDING,
    CHANGES_REQUESTED,
    DISMISSED,
    COMMENTED,
    MERGED,
}

/// One review left on a pull request.
#[derive(Debug, Clone)]
pub struct PullRequestReview {
    pub state: PullRequestReviewState,
    pub body: String,
}

impl PullRequestReview {
    /// A review with the given verdict and an empty body.
    pub fn new_for_test(state: PullRequestReviewState) -> (r: Self)
        ensures
            r.state == state,
            r.body@ == Seq::<char>::empty(),
    {
        PullRequestReview { state, body: String::new() }
    }

    pub fn is_approved(&self) -> (r: bool)
        ensures
            r == (self.state == PullRequestReviewState::APPROVED),
    {
        self.state == PullRequestReviewState::APPROVED
    }

    /// A copy with the same verdict and body.
    pub fn duplicate(&self) -> (r: Self)
        ensures
            r == *self,
    {
        PullRequestReview { state: self.state, body: self.body.clone() }
    }
}

/// One end of a pull request: a branch and the commit it points at.
#[derive(Debug, Clone)]
pub struct PullRequestRef {
    pub label: String,
    pub gitref: String,
    pub sha: String,
}

impl PullRequestRef {
    /// A copy with the same label, branch and commit.
    pub fn duplicate(&self) -> (r: Self)
        ensures
            r == *self,
    {
        PullRequestRef {
            label: self.label.clone(),
            gitref: self.gitref.clone(),
            sha: self.sha.clone(),
        }
    }
}

/// Whether a pull request is still open.
#[derive(Debug, Clone, Copy, PartialEq, Eq, Structural, PartialOrd, Ord)]
pub enum PullRequestStatus {
    Open,
    Closed,
}

/// A pull request: `head` is the branch it brings in, `base` the branch it targets.
#[derive(Debug, Clone)]
pub struct PullRequest {
    pub id: usize,
    pub number: usize,
    pub head: PullRequestRef,
    pub base: PullRequestRef,
    pub title: String,
    pub url: String,
    pub body: Option<String>,
    pub state: PullRequestStatus,
    pub merged_at: Option<String>,
    pub updated_at: Option<String>,
    pub draft: bool,
    pub reviews: Vec<PullRequestReview>,
}

/// Two pull requests that hold the same data.
pub open spec fn same_pr(a: PullRequest, b: PullRequest) -> bool {
    &&& a.id == b.id
    &&& a.number == b.number
    &&& a.head == b.head
    &&& a.base == b.base
    &&& a.title == b.title
    &&& a.url == b.url
    &&& a.body == b.body
    &&& a.state == b.state
    &&& a.merged_at == b.merged_at
    &&& a.updated_at == b.updated_at
    &&& a.draft == b.draft
    &&& a.reviews@ == b.reviews@
}

/// Two sequences of pull requests that hold the same data, position by position.
pub open spec fn same_prs(a: Seq<PullRequest>, b: Seq<PullRequest>) -> bool {
    &&& a.len() == b.len()
    &&& forall|i: int| 0 <= i < a.len() ==> same_pr(#[trigger] a[i], b[i])
}

fn clone_opt(s: &Option<String>) -> (r: Option<String>)
    ensures
        r == *s,
{
    match s {
        Some(t) => Some(t.clone()),
        None => None,
    }
}

fn test_ref(branch: &str, sha: &str) -> (r: PullRequestRef)
    ensures
        r.label@ == "user:"@ + branch@,
        r.gitref@ == branch@,
        r.sha@ == sha@,
{
    let mut label = owned("user:");
    push_str(&mut label, branch);
    PullRequestRef { label, gitref: owned(branch), sha: owned(sha) }
}

impl PullRequest {
    /// The branch this pull request brings in.
    pub open spec fn head_spec(&self) -> Seq<char> {
        self.head.gitref@
    }

    /// The branch this pull request targets.
    pub open spec fn base_spec(&self) -> Seq<char> {
        self.base.gitref@
    }

    /// At least one review approves.
    pub open spec fn approved_spec(&self) -> bool {
        exists|i: int|
            0 <= i < self.reviews@.len() && (#[trigger] self.reviews@[i]).state
                == PullRequestReviewState::APPROVED
    }

    /// Neither merged nor closed.
    pub open spec fn is_live(&self) -> bool {
        self.merged_at is None && self.state == PullRequestStatus::Open
    }

    pub open spec fn review_state_spec(&self) -> PullRequestReviewState {
        if self.merged_at is Some {
            PullRequestReviewState::MERGED
        } else if self.approved_spec() {
            PullRequestReviewState::APPROVED
        } else {
            PullRequestReviewState::PENDING
        }
    }

    /// The title as shown in a stack listing: trimmed, marked when a draft, struck through
    /// when closed.
    pub open spec fn title_spec(&self) -> Seq<char> {
        let t = trim_spec(self.title@);
        let d = if self.draft {
            "*(Draft) "@ + t + "*"@
        } else {
            t
        };
        if self.state == PullRequestStatus::Closed {
            "~~"@ + d + "~~"@
        } else {
            d
        }
    }

    /// A pull request with fixed test commits and an API address derived from its number.
    pub fn new_for_test(
        number: usize,
        head: &str,
        base: &str,
        title: &str,
        state: PullRequestStatus,
        draft: bool,
        merged_at: Option<String>,
        reviews: Vec<PullRequestReview>,
    ) -> (r: Self)
        ensures
            r.number == number,
            r.head_spec() == head@,
            r.base_spec() == base@,
            r.title@ == title@,
            r.state == state,
            r.draft == draft,
            r.merged_at == merged_at,
            r.updated_at is None,
            r.reviews == reviews,
            r.id == number,
            r.head.sha@ == "abc123"@,
            r.base.sha@ == "def456"@,
            r.head.label@ == "user:"@ + head@,
            r.base.label@ == "user:"@ + base@,
            r.url@ == "https://api.github.com/repos/test/repo/pulls/"@ + decimal_spec(number as nat),
            r.body is None,
    {
        Self::new_for_test_with_updated_at(
            number,
            head,
            base,
            title,
            state,
            draft,
            merged_at,
            None,
            reviews,
        )
    }

    /// As `new_for_test`, with a last-update time.
    pub fn new_for_test_with_updated_at(
        number: usize,
        head: &str,
        base: &str,
        title: &str,
        state: PullRequestStatus,
        draft: bool,
        merged_at: Option<String>,
        updated_at: Option<String>,
        reviews: Vec<PullRequestReview>,
    ) -> (r: Self)
        ensures
            r.number == number,
            r.head_spec() == head@,
            r.base_spec() == base@,
            r.title@ == title@,
            r.state == state,
            r.draft == draft,
            r.merged_at == merged_at,
            r.updated_at == updated_at,
            r.reviews == reviews,
            r.id == number,
            r.head.sha@ == "abc123"@,
            r.base.sha@ == "def456"@,
            r.head.label@ == "user:"@ + head@,
            r.base.label@ == "user:"@ + base@,
            r.url@ == "https://api.github.com/repos/test/repo/pulls/"@ + decimal_spec(number as nat),
            r.body is None,
    {
        let mut url = owned("https://api.github.com/repos/test/repo/pulls/");
        let digits = crate::text::decimal(number);
        push_str(&mut url, digits.as_str());
        PullRequest {
            id: number,
            number,
            head: test_ref(head, "abc123"),
            base: test_ref(base, "def456"),
            title: owned(title),
            url,
            body: None,
            state,
            merged_at,
            updated_at,
            draft,
            reviews,
        }
    }

    /// A copy that holds the same data.
    pub fn duplicate(&self) -> (r: Self)
        ensures
            same_pr(r, *self),
    {
        let mut reviews: Vec<PullRequestReview> = Vec::new();
        let mut i: usize = 0;
        while i < self.reviews.len()
            invariant
                i <= self.reviews.len(),
                reviews@ =~= self.reviews@.subrange(0, i as int),
            decreases self.reviews.len() - i,
        {
            reviews.push(self.reviews[i].duplicate());
            i = i + 1;
        }
        assert(self.reviews@.subrange(0, self.reviews.len() as int) =~= self.reviews@);
        PullRequest {
            id: self.id,
            number: self.number,
            head: self.head.duplicate(),
            base: self.base.duplicate(),
            title: self.title.clone(),
            url: self.url.clone(),
            body: clone_opt(&self.body),
            state: self.state,
            merged_at: clone_opt(&self.merged_at),
            updated_at: clone_opt(&self.updated_at),
            draft: self.draft,
            reviews,
        }
    }

    pub fn head(&self) -> (r: &str)
        ensures
            r@ == self.head_spec(),
    {
        self.head.gitref.as_str()
    }

    pub fn base(&self) -> (r: &str)
        ensures
            r@ == self.base_spec(),
    {
        self.base.gitref.as_str()
    }

    pub fn url(&self) -> (r: &str)
        ensures
            r@ == self.url@,
    {
        self.url.as_str()
    }

    pub fn number(&self) -> (r: usize)
        ensures
            r == self.number,
    {
        self.number
    }

    /// The title as shown in a stack listing.
    pub fn title(&self) -> (r: String)
        ensures
            r@ == self.title_spec(),
    {
        let t = string_of(crate::text::trim_chars(&chars_of(self.title.as_str())).as_slice());
        let d = if self.draft {
            let mut d = owned("*(Draft) ");
            push_str(&mut d, t.as_str());
            push_str(&mut d, "*");
            d
        } else {
            t
        };
        match self.state {
            PullRequestStatus::Open => d,
            PullRequestStatus::Closed => {
                let mut c = owned("~~");
                push_str(&mut c, d.as_str());
                push_str(&mut c, "~~");
                c
            },
        }
    }

    pub fn state(&self) -> (r: &PullRequestStatus)
        ensures
            *r == self.state,
    {
        &self.state
    }

    /// Merged, else approved by at least one review, else pending.
    pub fn review_state(&self) -> (r: PullRequestReviewState)
        ensures
            r == self.review_state_spec(),
    {
        if self.merged_at.is_some() {
            PullRequestReviewState::MERGED
        } else if self.at_least_one_approval() {
            PullRequestReviewState::APPROVED
        } else {
            PullRequestReviewState::PENDING
        }
    }

    /// The description, or the empty string when there is none.
    pub fn body(&self) -> (r: &str)
        ensures
            r@ == match self.body {
                Some(b) => b@,
                None => Seq::<char>::empty(),
            },
    {
        match &self.body {
            Some(body) => body.as_str(),
            None => {
                proof {
                    reveal_strlit("");
                }
                ""
            },
        }
    }

    pub fn updated_at(&self) -> (r: Option<&str>)
        ensures
            r is Some <==> self.updated_at is Some,
            r is Some ==> r->0@ == self.updated_at->0@,
    {
        match &self.updated_at {
            Some(u) => Some(u.as_str()),
            None => None,
        }
    }

    pub fn is_merged(&self) -> (r: bool)
        ensures
            r == (self.merged_at is Some),
    {
        self.merged_at.is_some()
    }

    pub fn is_draft(&self) -> (r: bool)
        ensures
            r == self.draft,
    {
        self.draft
    }

    /// The commit at the head of the pull request.
    pub fn head_sha(&self) -> (r: &str)
        ensures
            r@ == self.head.sha@,
    {
        self.head.sha.as_str()
    }

    /// The title without surrounding white space and without any marks.
    pub fn raw_title(&self) -> (r: &str)
        ensures
            r@ == trim_spec(self.title@),
    {
        let s = self.title.as_str();
        let n = s.unicode_len();
        let mut i: usize = 0;
        while i < n && space(s.get_char(i))
            invariant
                i <= n == s@.len(),
                forall|k: int| 0 <= k < i ==> is_space(#[trigger] s@[k]),
            decreases n - i,
        {
            i = i + 1;
        }
        let mut j: usize = n;
        while j > i && space(s.get_char(j - 1))
            invariant
                i <= j <= n == s@.len(),
                forall|k: int| j <= k < n ==> is_space(#[trigger] s@[k]),
            decreases j,
        {
            j = j - 1;
        }
        proof {
            crate::text::lemma_trim_bounds(s@, i as int, j as int);
        }
        s.substring_char(i, j)
    }

    /// The address of the pull request's web page: the API address with the `api.` host
    /// prefix, the `/repos/` segment and the plural `/pulls/` segment taken out.
    pub fn html_url(&self) -> (r: String)
        ensures
            r@ == replace_all_spec(
                replace_all_spec(replace_first_spec(self.url@, "api."@, ""@), "/repos/"@, "/"@),
                "/pulls/"@,
                "/pull/"@,
            ),
    {
        proof {
            reveal_strlit("api.");
            reveal_strlit("/repos/");
            reveal_strlit("/pulls/");
        }
        let u = chars_of(self.url.as_str());
        let a = replace_first(&u, &chars_of("api."), &chars_of(""));
        let b = replace_all(&a, &chars_of("/repos/"), &chars_of("/"));
        let c = replace_all(&b, &chars_of("/pulls/"), &chars_of("/pull/"));
        string_of(c.as_slice())
    }

    /// At least one review approves.
    pub fn at_least_one_approval(&self) -> (r: bool)
        ensures
            r == self.approved_spec(),
    {
        let mut i: usize = 0;
        while i < self.reviews.len()
            invariant
                i <= self.reviews.len(),
                forall|k: int|
                    0 <= k < i ==> (#[trigger] self.reviews@[k]).state
                        != PullRequestReviewState::APPROVED,
            decreases self.reviews.len() - i,
        {
            if self.reviews[i].is_approved() {
                return true;
            }
            i = i + 1;
        }
        false
    }
}

} // verus!
