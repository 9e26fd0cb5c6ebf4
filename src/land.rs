//! Land planning: which prefix of a stack can land, which pull request carries the merge,
//! and the sequence of remote steps that carries a plan out.
use vstd::prelude::*;

use crate::pull_request::{same_pr, same_prs, PullRequest, PullRequestReviewState,
    PullRequestStatus};
use crate::text::{decimal, decimal_spec, owned, push_str};

verus! {

/// Each pull request of a stack with the one it sits on, where that one is in the stack.
pub type FlatDep = Vec<(PullRequest, Option<PullRequest>)>;

/// A plan for landing a stack.
#[derive(Debug)]
pub struct LandPlan {
    /// The pull request that is squash-merged (the topmost mergeable one).
    pub top_pr: PullRequest,
    /// The pull requests beneath it, bottom to top, closed once the merge is done.
    pub prs_to_close: Vec<PullRequest>,
    /// The branch the merge lands on.
    pub target_branch: String,
    /// The repository, as "owner/repo".
    pub repository: String,
}

/// What a completed landing did.
#[derive(Debug)]
pub struct LandResult {
    pub merged_pr: PullRequest,
    pub closed_prs: Vec<PullRequest>,
    pub merge_url: String,
}

/// Why a landing cannot be planned or did not complete.
#[derive(Debug)]
pub enum LandError {
    NoPRsInStack,
    NoPRsMergeable { reason: String },
    DraftBlocking { pr_number: usize },
    ApprovalRequired { pr_number: usize },
    ApiError { message: String },
}

impl LandError {
    /// A sentence that explains the error.
    pub fn message(&self) -> (r: String)
        ensures
            r@ == match self {
                LandError::NoPRsInStack => "No PRs found in the stack"@,
                LandError::NoPRsMergeable { reason } => "No PRs are mergeable: "@ + reason@,
                LandError::DraftBlocking { pr_number } => "PR #"@ + decimal_spec(*pr_number as nat)
                    + " is a draft and blocks landing of PRs above it"@,
                LandError::ApprovalRequired { pr_number } => "PR #"@ + decimal_spec(*pr_number as nat)
                    + " requires approval"@,
                LandError::ApiError { message } => "API error: "@ + message@,
            },
    {
        match self {
            LandError::NoPRsInStack => owned("No PRs found in the stack"),
            LandError::NoPRsMergeable { reason } => {
                let mut m = owned("No PRs are mergeable: ");
                push_str(&mut m, reason.as_str());
                m
            },
            LandError::DraftBlocking { pr_number } => {
                let mut m = owned("PR #");
                push_str(&mut m, decimal(*pr_number).as_str());
                push_str(&mut m, " is a draft and blocks landing of PRs above it");
                m
            },
            LandError::ApprovalRequired { pr_number } => {
                let mut m = owned("PR #");
                push_str(&mut m, decimal(*pr_number).as_str());
                push_str(&mut m, " requires approval");
                m
            },
            LandError::ApiError { message } => {
                let mut m = owned("API error: ");
                push_str(&mut m, message.as_str());
                m
            },
        }
    }
}

/// How much of a stack to land.
#[derive(Debug)]
pub struct LandOptions {
    /// Every landed pull request must be approved.
    pub require_approval: bool,
    /// At most this many pull requests land (`None`: all that can).
    pub max_count: Option<usize>,
}

impl Default for LandOptions {
    fn default() -> (r: Self)
        ensures
            r.require_approval,
            r.max_count is None,
    {
        LandOptions { require_approval: true, max_count: None }
    }
}

// ---------------------------------------------------------------------------------------------
// Ordering a flattened stack
// ---------------------------------------------------------------------------------------------

/// Entry `i` may be placed after the entries at `ord`: it has no parent, or its parent's
/// number is among theirs.
pub open spec fn parent_placed(stack: Seq<(PullRequest, Option<PullRequest>)>, ord: Seq<int>, i: int) -> bool {
    match stack[i].1 {
        None => true,
        Some(p) => exists|k: int| 0 <= k < ord.len() && stack[ord[k]].0.number == p.number,
    }
}

/// One pass over `rem` in order: each entry whose parent is placed is placed at once (later
/// entries of the same pass see it); the others are kept, in order.
pub open spec fn pass(stack: Seq<(PullRequest, Option<PullRequest>)>, rem: Seq<int>, ord: Seq<int>) -> (
    Seq<int>,
    Seq<int>,
)
    decreases rem.len(),
{
    if rem.len() == 0 {
        (rem, ord)
    } else if parent_placed(stack, ord, rem[0]) {
        pass(stack, rem.drop_first(), ord.push(rem[0]))
    } else {
        let r = pass(stack, rem.drop_first(), ord);
        (seq![rem[0]] + r.0, r.1)
    }
}

/// Passes repeat until every entry is placed; a pass that places nothing appends the rest as
/// they stand.
pub open spec fn base_to_top(stack: Seq<(PullRequest, Option<PullRequest>)>, rem: Seq<int>, ord: Seq<int>) -> Seq<int>
    decreases rem.len(),
{
    if rem.len() == 0 {
        ord
    } else {
        let r = pass(stack, rem, ord);
        if r.0.len() >= rem.len() {
            ord + rem
        } else {
            base_to_top(stack, r.0, r.1)
        }
    }
}

/// The positions of the stack in the order `order_stack_base_to_top` gives.
pub open spec fn base_to_top_order(stack: Seq<(PullRequest, Option<PullRequest>)>) -> Seq<int> {
    base_to_top(stack, Seq::new(stack.len(), |i: int| i), Seq::empty())
}

/// The pull requests of the stack, bottom to top.
pub open spec fn ordered_spec(stack: Seq<(PullRequest, Option<PullRequest>)>) -> Seq<PullRequest> {
    base_to_top_order(stack).map_values(|i: int| stack[i].0)
}

proof fn lemma_pass_len(stack: Seq<(PullRequest, Option<PullRequest>)>, rem: Seq<int>, ord: Seq<int>)
    ensures
        pass(stack, rem, ord).0.len() + pass(stack, rem, ord).1.len() == rem.len() + ord.len(),
        pass(stack, rem, ord).0.len() <= rem.len(),
        pass(stack, rem, ord).0.len() == rem.len() ==> pass(stack, rem, ord).1 == ord && pass(stack, rem, ord).0 == rem,
        forall|k: int| 0 <= k < pass(stack, rem, ord).0.len() ==> rem.contains(#[trigger] pass(stack, rem, ord).0[k]),
        forall|k: int| 0 <= k < pass(stack, rem, ord).1.len() ==> ord.contains(#[trigger] pass(stack, rem, ord).1[k]) || rem.contains(pass(stack, rem, ord).1[k]),
    decreases rem.len(),
{
    if rem.len() > 0 {
        let t = rem.drop_first();
        if parent_placed(stack, ord, rem[0]) {
            lemma_pass_len(stack, t, ord.push(rem[0]));
            let r = pass(stack, t, ord.push(rem[0]));
            assert forall|k: int| 0 <= k < r.0.len() implies rem.contains(#[trigger] r.0[k]) by {
                let j = choose|j: int| 0 <= j < t.len() && t[j] == r.0[k];
                assert(rem[j + 1] == r.0[k]);
            }
            assert forall|k: int| 0 <= k < r.1.len() implies ord.contains(#[trigger] r.1[k]) || rem.contains(r.1[k]) by {
                if ord.push(rem[0]).contains(r.1[k]) {
                    let j = choose|j: int| 0 <= j < ord.len() + 1 && ord.push(rem[0])[j] == r.1[k];
                    if j < ord.len() {
                        assert(ord[j] == r.1[k]);
                    } else {
                        assert(rem[0] == r.1[k]);
                    }
                } else {
                    let j = choose|j: int| 0 <= j < t.len() && t[j] == r.1[k];
                    assert(rem[j + 1] == r.1[k]);
                }
            }
        } else {
            lemma_pass_len(stack, t, ord);
            let r = pass(stack, t, ord);
            let k0 = seq![rem[0]] + r.0;
            if r.0.len() == t.len() {
                assert(k0 =~= rem);
            }
            assert forall|k: int| 0 <= k < k0.len() implies rem.contains(#[trigger] k0[k]) by {
                if k == 0 {
                    assert(rem[0] == k0[k]);
                } else {
                    assert(k0[k] == r.0[k - 1]);
                    let j = choose|j: int| 0 <= j < t.len() && t[j] == r.0[k - 1];
                    assert(rem[j + 1] == k0[k]);
                }
            }
            assert forall|k: int| 0 <= k < r.1.len() implies ord.contains(#[trigger] r.1[k]) || rem.contains(r.1[k]) by {
                if !ord.contains(r.1[k]) {
                    let j = choose|j: int| 0 <= j < t.len() && t[j] == r.1[k];
                    assert(rem[j + 1] == r.1[k]);
                }
            }
        }
    }
}

/// Whether some pull request at the positions `ord` has the number `x`.
fn placed_number(stack: &FlatDep, ord: &Vec<usize>, x: usize) -> (r: bool)
    requires
        forall|k: int| 0 <= k < ord.len() ==> (#[trigger] ord@[k]) < stack.len(),
    ensures
        r == exists|k: int| 0 <= k < ord.len() && stack@[ord@[k] as int].0.number == x,
{
    let mut k: usize = 0;
    while k < ord.len()
        invariant
            k <= ord.len(),
            forall|t: int| 0 <= t < ord.len() ==> (#[trigger] ord@[t]) < stack.len(),
            forall|t: int| 0 <= t < k ==> stack@[#[trigger] ord@[t] as int].0.number != x,
        decreases ord.len() - k,
    {
        if stack[ord[k]].0.number == x {
            return true;
        }
        k = k + 1;
    }
    false
}

pub open spec fn as_ints(v: Seq<usize>) -> Seq<int> {
    v.map_values(|x: usize| x as int)
}

proof fn lemma_as_ints_push(v: Seq<usize>, x: usize)
    ensures
        as_ints(v.push(x)) == as_ints(v).push(x as int),
{
    assert(as_ints(v.push(x)) =~= as_ints(v).push(x as int));
}

/// Orders a flattened stack bottom to top: entries without a parent first, then entries whose
/// parent is placed, pass after pass; where a pass places nothing (the parents form a cycle or
/// lie outside the stack), the rest follow in their order.
pub fn order_stack_base_to_top(stack: &FlatDep) -> (r: Vec<PullRequest>)
    ensures
        same_prs(r@, ordered_spec(stack@)),
{
    let n = stack.len();
    let ord = base_to_top_positions(stack);
    let mut r: Vec<PullRequest> = Vec::new();
    let mut k: usize = 0;
    while k < ord.len()
        invariant
            n == stack.len(),
            k <= ord.len(),
            r.len() == k,
            forall|j: int| 0 <= j < ord.len() ==> (#[trigger] ord@[j]) < n,
            as_ints(ord@) == base_to_top_order(stack@),
            forall|j: int| 0 <= j < k ==> same_pr(#[trigger] r@[j], stack@[ord@[j] as int].0),
        decreases ord.len() - k,
    {
        r.push(stack[ord[k]].0.duplicate());
        k = k + 1;
    }
    r
}

/// The positions of the stack, bottom to top.
fn base_to_top_positions(stack: &FlatDep) -> (ord: Vec<usize>)
    ensures
        as_ints(ord@) == base_to_top_order(stack@),
        forall|j: int| 0 <= j < ord.len() ==> (#[trigger] ord@[j]) < stack.len(),
{
    let n = stack.len();
    let mut rem: Vec<usize> = Vec::new();
    while rem.len() < n
        invariant
            rem.len() <= n,
            forall|k: int| 0 <= k < rem.len() ==> rem@[k] == k,
        decreases n - rem.len(),
    {
        rem.push(rem.len());
    }
    let mut ord: Vec<usize> = Vec::new();
    proof {
        assert(as_ints(rem@) =~= Seq::new(stack@.len(), |i: int| i));
        assert(as_ints(ord@) =~= Seq::<int>::empty());
    }
    while rem.len() > 0
        invariant
            n == stack.len(),
            forall|k: int| 0 <= k < rem.len() ==> (#[trigger] rem@[k]) < n,
            forall|k: int| 0 <= k < ord.len() ==> (#[trigger] ord@[k]) < n,
            base_to_top(stack@, as_ints(rem@), as_ints(ord@)) == base_to_top_order(stack@),
        decreases rem.len(),
    {
        let ghost rem0 = as_ints(rem@);
        let ghost ord0 = as_ints(ord@);
        let mut kept: Vec<usize> = Vec::new();
        let mut t: usize = 0;
        proof {
            assert(rem0.subrange(0, rem0.len() as int) =~= rem0);
            let r = pass(stack@, rem0, ord0);
            assert(as_ints(kept@) + r.0 =~= r.0);
        }
        while t < rem.len()
            invariant
                n == stack.len(),
                t <= rem.len(),
                forall|k: int| 0 <= k < rem.len() ==> (#[trigger] rem@[k]) < n,
                forall|k: int| 0 <= k < ord.len() ==> (#[trigger] ord@[k]) < n,
                forall|k: int| 0 <= k < kept.len() ==> (#[trigger] kept@[k]) < n,
                rem0 == as_ints(rem@),
                pass(stack@, rem0, ord0) == ({
                    let r = pass(stack@, rem0.subrange(t as int, rem0.len() as int), as_ints(ord@));
                    (as_ints(kept@) + r.0, r.1)
                }),
            decreases rem.len() - t,
        {
            let ghost sub = rem0.subrange(t as int, rem0.len() as int);
            let ghost ord_before = ord@;
            let ghost kept_before = kept@;
            assert(sub.drop_first() =~= rem0.subrange(t + 1, rem0.len() as int));
            let i = rem[t];
            assert(sub[0] == i as int);
            let placed = match &stack[i].1 {
                None => true,
                Some(p) => placed_number(stack, &ord, p.number),
            };
            proof {
                assert(placed == parent_placed(stack@, as_ints(ord@), sub[0])) by {
                    if stack@[i as int].1 is Some {
                        let p = stack@[i as int].1->0;
                        if placed {
                            let k = choose|k: int| 0 <= k < ord.len() && stack@[ord@[k] as int].0.number == p.number;
                            assert(as_ints(ord@)[k] == ord@[k] as int);
                        }
                        if parent_placed(stack@, as_ints(ord@), sub[0]) {
                            let k = choose|k: int| 0 <= k < as_ints(ord@).len() && stack@[as_ints(ord@)[k]].0.number == p.number;
                            assert(as_ints(ord@)[k] == ord@[k] as int);
                        }
                    }
                }
            }
            if placed {
                ord.push(i);
                proof {
                    lemma_as_ints_push(ord_before, i);
                }
            } else {
                kept.push(i);
                proof {
                    lemma_as_ints_push(kept_before, i);
                    let r = pass(stack@, sub.drop_first(), as_ints(ord@));
                    assert(as_ints(kept_before) + (seq![i as int] + r.0) =~= as_ints(kept@) + r.0);
                }
            }
            t = t + 1;
        }
        proof {
            assert(rem0.subrange(rem0.len() as int, rem0.len() as int) =~= Seq::<int>::empty());
            assert(as_ints(kept@) + Seq::<int>::empty() =~= as_ints(kept@));
            lemma_pass_len(stack@, rem0, ord0);
        }
        if kept.len() >= rem.len() {
            proof {
                assert(as_ints(ord@) == ord0);
            }
            let mut k: usize = 0;
            while k < rem.len()
                invariant
                    n == stack.len(),
                    k <= rem.len(),
                    forall|j: int| 0 <= j < rem.len() ==> (#[trigger] rem@[j]) < n,
                    forall|j: int| 0 <= j < ord.len() ==> (#[trigger] ord@[j]) < n,
                    rem0 == as_ints(rem@),
                    as_ints(ord@) =~= ord0 + rem0.subrange(0, k as int),
                decreases rem.len() - k,
            {
                let ghost ord_before = ord@;
                ord.push(rem[k]);
                proof {
                    lemma_as_ints_push(ord_before, rem[k as int]);
                    assert(rem0.subrange(0, k + 1) =~= rem0.subrange(0, k as int).push(rem0[k as int]));
                }
                k = k + 1;
            }
            proof {
                assert(rem0.subrange(0, rem0.len() as int) =~= rem0);
            }
            rem = Vec::new();
            proof {
                assert(as_ints(rem@) =~= Seq::<int>::empty());
            }
        } else {
            proof {
                assert forall|k: int| 0 <= k < kept.len() implies (#[trigger] kept@[k]) < n by {
                    assert(as_ints(kept@)[k] == kept@[k] as int);
                    assert(rem0.contains(as_ints(kept@)[k]));
                }
            }
            rem = kept;
        }
    }
    proof {
        assert(as_ints(rem@) =~= Seq::<int>::empty());
    }
    ord
}

// ---------------------------------------------------------------------------------------------
// Planning
// ---------------------------------------------------------------------------------------------

/// Approved by a review, or already merged.
pub open spec fn approved_or_merged(pr: PullRequest) -> bool {
    pr.review_state_spec() == PullRequestReviewState::APPROVED || pr.review_state_spec()
        == PullRequestReviewState::MERGED
}

/// `pr` stops the mergeable prefix: a draft, or unapproved where approval is required.
pub open spec fn blocks(pr: PullRequest, require_approval: bool) -> bool {
    pr.draft || (require_approval && !approved_or_merged(pr))
}

/// The pull requests of `s` that are neither merged nor closed, in order.
pub open spec fn live_of(s: Seq<PullRequest>) -> Seq<PullRequest>
    decreases s.len(),
{
    if s.len() == 0 {
        s
    } else if s.last().is_live() {
        live_of(s.drop_last()).push(s.last())
    } else {
        live_of(s.drop_last())
    }
}

/// The number of leading pull requests of `s` that do not block.
pub open spec fn unblocked_run(s: Seq<PullRequest>, require_approval: bool) -> nat
    decreases s.len(),
{
    if s.len() == 0 || blocks(s[0], require_approval) {
        0
    } else {
        1 + unblocked_run(s.drop_first(), require_approval)
    }
}

/// How many pull requests of the live stack `open` land: the unblocked prefix, cut at the
/// count limit (a limit of zero still lands one).
pub open spec fn landing_count(open: Seq<PullRequest>, require_approval: bool, max_count: Option<usize>) -> int {
    let m = unblocked_run(open, require_approval) as int;
    match max_count {
        None => m,
        Some(c) => if m < cap_of(c) { m } else { cap_of(c) },
    }
}

/// The count limit in effect: a limit of zero still lands one.
pub open spec fn cap_of(c: usize) -> int {
    if c == 0 { 1 } else { c as int }
}

/// The branch a plan lands on: the base of the first entry without a parent, else "main".
pub open spec fn target_spec(stack: Seq<(PullRequest, Option<PullRequest>)>) -> Seq<char> {
    if exists|i: int| 0 <= i < stack.len() && stack[i].1 is None {
        let i = choose|i: int|
            0 <= i < stack.len() && stack[i].1 is None && forall|j: int| 0 <= j < i ==> stack[j].1 is Some;
        stack[i].0.base_spec()
    } else {
        "main"@
    }
}

proof fn lemma_run(s: Seq<PullRequest>, ra: bool, i: int)
    requires
        0 <= i <= s.len(),
        forall|k: int| 0 <= k < i ==> !blocks(#[trigger] s[k], ra),
    ensures
        unblocked_run(s, ra) >= i,
        unblocked_run(s, ra) <= s.len(),
        (i == s.len() || blocks(s[i], ra)) ==> unblocked_run(s, ra) == i,
    decreases s.len(),
{
    if s.len() > 0 {
        let t = s.drop_first();
        if i > 0 {
            assert forall|k: int| 0 <= k < i - 1 implies !blocks(#[trigger] t[k], ra) by {
                assert(t[k] == s[k + 1]);
            }
            lemma_run(t, ra, i - 1);
        } else {
            lemma_run(t, ra, 0);
        }
    }
}

proof fn lemma_live(s: Seq<PullRequest>)
    ensures
        forall|k: int| 0 <= k < live_of(s).len() ==> (#[trigger] live_of(s)[k]).is_live(),
    decreases s.len(),
{
    if s.len() > 0 {
        let t = live_of(s.drop_last());
        lemma_live(s.drop_last());
        if s.last().is_live() {
            assert forall|k: int| 0 <= k < live_of(s).len() implies (#[trigger] live_of(s)[k]).is_live() by {
                if k < t.len() {
                    assert(live_of(s)[k] == t[k]);
                }
            }
        }
    }
}

/// Approved by at least one review, or merged.
pub fn is_pr_approved(pr: &PullRequest) -> (r: bool)
    ensures
        r == approved_or_merged(*pr),
{
    match pr.review_state() {
        PullRequestReviewState::APPROVED | PullRequestReviewState::MERGED => true,
        _ => false,
    }
}

fn target_branch_of(stack: &FlatDep) -> (r: String)
    ensures
        r@ == target_spec(stack@),
{
    let mut i: usize = 0;
    while i < stack.len()
        invariant
            i <= stack.len(),
            forall|j: int| 0 <= j < i ==> (#[trigger] stack@[j]).1 is Some,
        decreases stack.len() - i,
    {
        if stack[i].1.is_none() {
            let r = stack[i].0.base.gitref.clone();
            proof {
                let c = choose|c: int|
                    0 <= c < stack@.len() && stack@[c].1 is None && forall|j: int| 0 <= j < c ==> stack@[j].1 is Some;
                if c < i {
                    assert(stack@[c].1 is Some);
                } else if c > i {
                    assert(stack@[i as int].1 is Some);
                }
            }
            return r;
        }
        i = i + 1;
    }
    proof {
        reveal_strlit("main");
    }
    owned("main")
}

/// Plans a landing: orders the stack bottom to top, leaves out merged and closed pull
/// requests, and takes the longest prefix of the rest with no draft (and, where required, no
/// unapproved one), cut at `max_count`. Its last pull request is merged; the ones beneath it
/// are closed.
///
/// Fails with `NoPRsInStack` on an empty stack, with `NoPRsMergeable` when nothing is left
/// open, and with `DraftBlocking` or `ApprovalRequired` naming the bottom open pull request
/// when it blocks.
pub fn create_land_plan(stack: &FlatDep, repository: &str, options: &LandOptions) -> (r: Result<
    LandPlan,
    LandError,
>)
    ensures
        (stack@.len() == 0) <==> (r is Err && r->Err_0 is NoPRsInStack),
        ({
            let open = live_of(ordered_spec(stack@));
            let m = landing_count(open, options.require_approval, options.max_count);
            &&& (stack@.len() > 0 && open.len() == 0) ==> (r is Err && r->Err_0 is NoPRsMergeable
                && r->Err_0->reason@ == "All PRs are already merged or closed"@)
            &&& (open.len() > 0 && m == 0 && open[0].draft) ==> r is Err && r->Err_0
                == (LandError::DraftBlocking { pr_number: open[0].number })
            &&& (open.len() > 0 && m == 0 && !open[0].draft) ==> r is Err && r->Err_0
                == (LandError::ApprovalRequired { pr_number: open[0].number })
            &&& (open.len() > 0 && m > 0) ==> {
                &&& r is Ok
                &&& same_pr(r->Ok_0.top_pr, open[m - 1])
                &&& same_prs(r->Ok_0.prs_to_close@, open.subrange(0, m - 1))
                &&& r->Ok_0.target_branch@ == target_spec(stack@)
                &&& r->Ok_0.repository@ == repository@
            }
        }),
        r is Ok ==> r->Ok_0.top_pr.is_live() && forall|i: int|
            0 <= i < r->Ok_0.prs_to_close.len() ==> (#[trigger] r->Ok_0.prs_to_close@[i]).is_live(),
{
    if stack.len() == 0 {
        return Err(LandError::NoPRsInStack);
    }
    let ord = base_to_top_positions(stack);
    let ghost ordered = ordered_spec(stack@);
    // The live pull requests, as positions of the stack.
    let mut open: Vec<usize> = Vec::new();
    let mut k: usize = 0;
    while k < ord.len()
        invariant
            k <= ord.len(),
            forall|j: int| 0 <= j < ord.len() ==> (#[trigger] ord@[j]) < stack.len(),
            as_ints(ord@) == base_to_top_order(stack@),
            ordered == ordered_spec(stack@),
            ordered.len() == ord.len(),
            forall|j: int| 0 <= j < open.len() ==> (#[trigger] open@[j]) < stack.len(),
            open.len() == live_of(ordered.subrange(0, k as int)).len(),
            forall|j: int| 0 <= j < open.len() ==> stack@[#[trigger] open@[j] as int].0 == live_of(ordered.subrange(0, k as int))[j],
        decreases ord.len() - k,
    {
        assert(ordered.subrange(0, k + 1).drop_last() =~= ordered.subrange(0, k as int));
        assert(ordered[k as int] == stack@[ord@[k as int] as int].0);
        let pr = &stack[ord[k]].0;
        if !pr.is_merged() && *pr.state() == PullRequestStatus::Open {
            open.push(ord[k]);
        }
        k = k + 1;
    }
    assert(ordered.subrange(0, ord.len() as int) =~= ordered);
    let ghost live = live_of(ordered);
    if open.len() == 0 {
        proof {
            reveal_strlit("All PRs are already merged or closed");
        }
        return Err(LandError::NoPRsMergeable { reason: owned("All PRs are already merged or closed") });
    }
    let target_branch = target_branch_of(stack);
    let ra = options.require_approval;
    let mut count: usize = 0;
    while count < open.len()
        invariant_except_break
            options.max_count is Some ==> count < cap_of(options.max_count->0),
        invariant
            count <= open.len(),
            open.len() == live.len(),
            ra == options.require_approval,
            forall|j: int| 0 <= j < open.len() ==> (#[trigger] open@[j]) < stack.len(),
            forall|j: int| 0 <= j < open.len() ==> stack@[#[trigger] open@[j] as int].0 == live[j],
            forall|j: int| 0 <= j < count ==> !blocks(#[trigger] live[j], ra),
            count <= unblocked_run(live, ra),
            count == live.len() ==> unblocked_run(live, ra) == count,
            live.len() > 0,
            live == live_of(ordered_spec(stack@)),
            options.max_count is Some ==> count <= cap_of(options.max_count->0),
        ensures
            count >= 1,
            count as int == landing_count(live, ra, options.max_count),
        decreases open.len() - count,
    {
        proof {
            lemma_run(live, ra, count as int);
        }
        let pr = &stack[open[count]].0;
        if pr.is_draft() {
            if count == 0 {
                proof {
                    assert(live[0] == stack@[open@[0] as int].0);
                }
                return Err(LandError::DraftBlocking { pr_number: pr.number() });
            }
            proof {
                lemma_run(live, ra, count as int);
            }
            break;
        }
        if ra && !is_pr_approved(pr) {
            if count == 0 {
                proof {
                    assert(live[0] == stack@[open@[0] as int].0);
                }
                return Err(LandError::ApprovalRequired { pr_number: pr.number() });
            }
            proof {
                lemma_run(live, ra, count as int);
            }
            break;
        }
        count = count + 1;
        proof {
            assert forall|j: int| 0 <= j < count implies !blocks(#[trigger] live[j], ra) by {
                if j == count - 1 {
                    assert(live[j] == stack@[open@[j] as int].0);
                }
            }
            lemma_run(live, ra, count as int);
        }
        match options.max_count {
            Some(max) => {
                if count >= max {
                    break;
                }
            },
            None => {},
        }
    }
    proof {
        lemma_run(live, ra, count as int);
        lemma_live(ordered);
    }
    let mut prs_to_close: Vec<PullRequest> = Vec::new();
    let mut j: usize = 0;
    while j + 1 < count
        invariant
            j < count <= open.len(),
            open.len() == live.len(),
            forall|t: int| 0 <= t < open.len() ==> (#[trigger] open@[t]) < stack.len(),
            forall|t: int| 0 <= t < open.len() ==> stack@[#[trigger] open@[t] as int].0 == live[t],
            prs_to_close.len() == j,
            forall|t: int| 0 <= t < j ==> same_pr(#[trigger] prs_to_close@[t], live[t]),
        decreases count - j,
    {
        prs_to_close.push(stack[open[j]].0.duplicate());
        j = j + 1;
    }
    let top_pr = stack[open[count - 1]].0.duplicate();
    Ok(LandPlan { top_pr, prs_to_close, target_branch, repository: owned(repository) })
}

// ---------------------------------------------------------------------------------------------
// Dry-run report
// ---------------------------------------------------------------------------------------------

pub open spec fn close_line(pr: PullRequest) -> Seq<char> {
    "    [x] #"@ + decimal_spec(pr.number as nat) + ": "@ + pr.title_spec() + " (will close)\n"@
}

pub open spec fn close_lines(s: Seq<PullRequest>) -> Seq<char>
    decreases s.len(),
{
    if s.len() == 0 {
        Seq::empty()
    } else {
        close_lines(s.drop_last()) + close_line(s.last())
    }
}

pub open spec fn left_out_line(pr: PullRequest) -> Seq<char> {
    "    [ ] #"@ + decimal_spec(pr.number as nat) + ": "@ + pr.title_spec() + " ("@ + (if pr.draft {
        "draft"@
    } else {
        "not approved"@
    }) + ")\n"@
}

pub open spec fn left_out_lines(s: Seq<PullRequest>) -> Seq<char>
    decreases s.len(),
{
    if s.len() == 0 {
        Seq::empty()
    } else {
        left_out_lines(s.drop_last()) + left_out_line(s.last())
    }
}

/// The comment left on each closed pull request.
pub open spec fn landed_via(top: usize) -> Seq<char> {
    "Landed via #"@ + decimal_spec(top as nat)
}

pub open spec fn close_action_line(step: nat, pr: PullRequest, top: usize) -> Seq<char> {
    "    "@ + decimal_spec(step) + ". Close PR #"@ + decimal_spec(pr.number as nat) + " with comment: \""@
        + landed_via(top) + "\"\n"@
}

/// The close steps, numbered from 3.
pub open spec fn close_actions(s: Seq<PullRequest>, top: usize) -> Seq<char>
    decreases s.len(),
{
    if s.len() == 0 {
        Seq::empty()
    } else {
        close_actions(s.drop_last(), top) + close_action_line((s.len() + 2) as nat, s.last(), top)
    }
}

/// The dry-run report of a plan, with the open pull requests it leaves out.
pub open spec fn dry_run_spec(plan: LandPlan, left_out: Seq<PullRequest>) -> Seq<char> {
    let tb = plan.target_branch@;
    let top = plan.top_pr;
    let close = plan.prs_to_close@;
    "Landing Plan:\n"@ + "  Target branch: "@ + tb + "\n\n"@ + "  PRs to land ("@ + decimal_spec(
        (close.len() + 1) as nat,
    ) + "):\n"@ + close_lines(close) + "    [x] #"@ + decimal_spec(top.number as nat) + ": "@
        + top.title_spec() + " <- will merge\n"@ + (if left_out.len() > 0 {
        "\n  PRs not included ("@ + decimal_spec(left_out.len()) + "):\n"@ + left_out_lines(left_out)
    } else {
        Seq::empty()
    }) + "\n  Actions that would be taken:\n"@ + "    1. Update PR #"@ + decimal_spec(
        top.number as nat,
    ) + " base branch: "@ + top.base_spec() + " -> "@ + tb + "\n"@ + "    2. Squash-merge PR #"@
        + decimal_spec(top.number as nat) + " into "@ + tb + "\n"@ + close_actions(close, top.number)
        + "\nRun without --dry-run to execute.\n"@
}

fn push_close_lines(out: &mut String, close: &Vec<PullRequest>)
    ensures
        final(out)@ == old(out)@ + close_lines(close@),
{
    let ghost head = out@;
    let mut i: usize = 0;
    while i < close.len()
        invariant
            i <= close.len(),
            out@ == head + close_lines(close@.subrange(0, i as int)),
        decreases close.len() - i,
    {
        let pr = &close[i];
        let ghost before = out@;
        push_str(out, "    [x] #");
        push_str(out, decimal(pr.number).as_str());
        push_str(out, ": ");
        push_str(out, pr.title().as_str());
        push_str(out, " (will close)\n");
        proof {
            assert(close@.subrange(0, i + 1).drop_last() =~= close@.subrange(0, i as int));
            assert(out@ =~= before + close_line(close@[i as int]));
        }
        i = i + 1;
    }
    assert(close@.subrange(0, close.len() as int) =~= close@);
}

fn push_left_out_lines(out: &mut String, left: &[PullRequest])
    ensures
        final(out)@ == old(out)@ + left_out_lines(left@),
{
    let ghost head = out@;
    let mut j: usize = 0;
    while j < left.len()
        invariant
            j <= left.len(),
            out@ == head + left_out_lines(left@.subrange(0, j as int)),
        decreases left.len() - j,
    {
        let pr = &left[j];
        let ghost before = out@;
        push_str(out, "    [ ] #");
        push_str(out, decimal(pr.number).as_str());
        push_str(out, ": ");
        push_str(out, pr.title().as_str());
        push_str(out, " (");
        if pr.is_draft() {
            push_str(out, "draft");
        } else {
            push_str(out, "not approved");
        }
        push_str(out, ")\n");
        proof {
            assert(left@.subrange(0, j + 1).drop_last() =~= left@.subrange(0, j as int));
            assert(out@ =~= before + left_out_line(left@[j as int]));
        }
        j = j + 1;
    }
    assert(left@.subrange(0, left.len() as int) =~= left@);
}

fn push_close_actions(out: &mut String, close: &Vec<PullRequest>, top: usize)
    requires
        close.len() + 3 <= usize::MAX,
    ensures
        final(out)@ == old(out)@ + close_actions(close@, top),
{
    let ghost head = out@;
    let top_num = decimal(top);
    let mut k: usize = 0;
    while k < close.len()
        invariant
            k <= close.len(),
            close.len() + 3 <= usize::MAX,
            top_num@ == decimal_spec(top as nat),
            out@ == head + close_actions(close@.subrange(0, k as int), top),
        decreases close.len() - k,
    {
        let ghost before = out@;
        push_str(out, "    ");
        push_str(out, decimal(k + 3).as_str());
        push_str(out, ". Close PR #");
        push_str(out, decimal(close[k].number).as_str());
        push_str(out, " with comment: \"");
        push_str(out, "Landed via #");
        push_str(out, top_num.as_str());
        push_str(out, "\"\n");
        proof {
            assert(close@.subrange(0, k + 1).drop_last() =~= close@.subrange(0, k as int));
            assert(out@ =~= before + close_action_line((k + 3) as nat, close@[k as int], top));
        }
        k = k + 1;
    }
    assert(close@.subrange(0, close.len() as int) =~= close@);
}

/// The text that describes what landing `plan` would do, and which of `remaining_prs` it
/// leaves out and why.
pub fn format_dry_run(plan: &LandPlan, remaining_prs: &[PullRequest]) -> (r: String)
    requires
        plan.prs_to_close.len() + 3 <= usize::MAX,
    ensures
        r@ == dry_run_spec(*plan, remaining_prs@),
{
    let tb = plan.target_branch.as_str();
    let top = &plan.top_pr;
    let close = &plan.prs_to_close;
    let top_num = decimal(top.number);
    let mut out = owned("Landing Plan:\n");
    push_str(&mut out, "  Target branch: ");
    push_str(&mut out, tb);
    push_str(&mut out, "\n\n");
    push_str(&mut out, "  PRs to land (");
    push_str(&mut out, decimal(close.len() + 1).as_str());
    push_str(&mut out, "):\n");
    push_close_lines(&mut out, close);
    push_str(&mut out, "    [x] #");
    push_str(&mut out, top_num.as_str());
    push_str(&mut out, ": ");
    push_str(&mut out, top.title().as_str());
    push_str(&mut out, " <- will merge\n");
    let ghost part1 = out@;
    if remaining_prs.len() > 0 {
        push_str(&mut out, "\n  PRs not included (");
        push_str(&mut out, decimal(remaining_prs.len()).as_str());
        push_str(&mut out, "):\n");
        push_left_out_lines(&mut out, remaining_prs);
    }
    let ghost part2 = out@;
    push_str(&mut out, "\n  Actions that would be taken:\n");
    push_str(&mut out, "    1. Update PR #");
    push_str(&mut out, top_num.as_str());
    push_str(&mut out, " base branch: ");
    push_str(&mut out, top.base());
    push_str(&mut out, " -> ");
    push_str(&mut out, tb);
    push_str(&mut out, "\n");
    push_str(&mut out, "    2. Squash-merge PR #");
    push_str(&mut out, top_num.as_str());
    push_str(&mut out, " into ");
    push_str(&mut out, tb);
    push_str(&mut out, "\n");
    push_close_actions(&mut out, close, top.number);
    push_str(&mut out, "\nRun without --dry-run to execute.\n");
    proof {
        if remaining_prs.len() > 0 {
            assert(part2 =~= part1 + ("\n  PRs not included ("@ + decimal_spec(remaining_prs@.len()) + "):\n"@ + left_out_lines(remaining_prs@)));
        } else {
            assert(part2 =~= part1 + Seq::<char>::empty());
        }
        assert(out@ =~= dry_run_spec(*plan, remaining_prs@));
    }
    out
}

// ---------------------------------------------------------------------------------------------
// Carrying a plan out
// ---------------------------------------------------------------------------------------------

/// How far a landing has come.
#[derive(Debug, Clone, Copy, PartialEq, Eq, Structural)]
pub enum LandStage {
    /// The top pull request is being retargeted onto the target branch.
    Retarget,
    /// The top pull request is being squash-merged.
    Merge,
    /// The pull request at this position of `prs_to_close` is being closed.
    Close { next: usize },
    /// Nothing is left to do.
    Over,
}

/// What the forge answered to the last operation.
#[derive(Debug)]
pub enum LandOutcome {
    /// The retarget or the close went through.
    Done,
    /// The merge went through; the merged pull request is at this address.
    Merged { url: String },
    /// The forge answered the merge with `merged: false`.
    NotMerged { message: String },
    /// The call failed.
    Error { message: String },
}

/// The next remote operation, or the end of the landing.
#[derive(Debug)]
pub enum LandAction {
    UpdateBase { pr_number: usize, base: String },
    SquashMerge { pr_number: usize },
    CloseWithComment { pr_number: usize, comment: String },
    Finished(LandResult),
    Failed(LandError),
}

/// The state of a landing between two operations.
#[derive(Debug)]
pub struct LandProgress {
    pub stage: LandStage,
    /// The address of the merged pull request, once merged.
    pub merge_url: String,
    /// How many pull requests of `prs_to_close` are closed, from the bottom; kept when a step
    /// fails, so that a landing can be resumed by hand from there.
    pub closed: usize,
}

/// `p` records the merge address `url` and `closed` closed pull requests.
pub open spec fn records(p: LandProgress, url: Seq<char>, closed: int) -> bool {
    p.merge_url@ == url && p.closed == closed
}

/// The message of an answer that reports a failure.
pub open spec fn outcome_message(o: LandOutcome) -> Seq<char> {
    match o {
        LandOutcome::NotMerged { message } => "PR was not merged: "@ + message@,
        LandOutcome::Error { message } => message@,
        _ => "unexpected response"@,
    }
}

fn outcome_text(o: &LandOutcome) -> (r: String)
    ensures
        r@ == outcome_message(*o),
{
    match o {
        LandOutcome::NotMerged { message } => {
            let mut t = owned("PR was not merged: ");
            push_str(&mut t, message.as_str());
            t
        },
        LandOutcome::Error { message } => message.clone(),
        _ => owned("unexpected response"),
    }
}

fn fail_with(prefix: &str, o: &LandOutcome, merge_url: String, closed: usize) -> (r: (LandProgress, LandAction))
    ensures
        r.0.stage == LandStage::Over,
        records(r.0, merge_url@, closed as int),
        fails_with(r.1, prefix@ + outcome_message(*o)),
{
    let mut m = owned(prefix);
    push_str(&mut m, outcome_text(o).as_str());
    (LandProgress { stage: LandStage::Over, merge_url, closed }, LandAction::Failed(LandError::ApiError { message: m }))
}

fn close_action(plan: &LandPlan, k: usize) -> (r: LandAction)
    requires
        k < plan.prs_to_close.len(),
    ensures
        closes(r, *plan, k as int),
{
    let mut c = owned("Landed via #");
    push_str(&mut c, decimal(plan.top_pr.number).as_str());
    LandAction::CloseWithComment { pr_number: plan.prs_to_close[k].number, comment: c }
}

fn finished(plan: &LandPlan, url: &String) -> (r: LandAction)
    ensures
        finishes(r, *plan, url@),
{
    let mut closed: Vec<PullRequest> = Vec::new();
    let mut i: usize = 0;
    while i < plan.prs_to_close.len()
        invariant
            i <= plan.prs_to_close.len(),
            closed.len() == i,
            forall|t: int| 0 <= t < i ==> same_pr(#[trigger] closed@[t], plan.prs_to_close@[t]),
        decreases plan.prs_to_close.len() - i,
    {
        closed.push(plan.prs_to_close[i].duplicate());
        i = i + 1;
    }
    LandAction::Finished(LandResult { merged_pr: plan.top_pr.duplicate(), closed_prs: closed, merge_url: url.clone() })
}

/// The first step of carrying out `plan`: retarget its top pull request onto the target branch.
pub fn begin_land(plan: &LandPlan) -> (r: (LandProgress, LandAction))
    ensures
        r.0.stage == LandStage::Retarget,
        records(r.0, Seq::empty(), 0),
        r.1 is UpdateBase,
        r.1->UpdateBase_pr_number == plan.top_pr.number,
        r.1->UpdateBase_base@ == plan.target_branch@,
{
    (LandProgress { stage: LandStage::Retarget, merge_url: String::new(), closed: 0 }, LandAction::UpdateBase {
        pr_number: plan.top_pr.number,
        base: plan.target_branch.clone(),
    })
}

/// `a` ends the landing with an API error carrying `msg`.
pub open spec fn fails_with(a: LandAction, msg: Seq<char>) -> bool {
    match a {
        LandAction::Failed(LandError::ApiError { message }) => message@ == msg,
        _ => false,
    }
}

/// `a` closes the pull request at position `k` of the plan with the landing comment.
pub open spec fn closes(a: LandAction, plan: LandPlan, k: int) -> bool {
    match a {
        LandAction::CloseWithComment { pr_number, comment } => pr_number == plan.prs_to_close@[k].number
            && comment@ == landed_via(plan.top_pr.number),
        _ => false,
    }
}

/// `a` ends the landing with the plan's pull requests merged and closed, at `url`.
pub open spec fn finishes(a: LandAction, plan: LandPlan, url: Seq<char>) -> bool {
    match a {
        LandAction::Finished(res) => same_pr(res.merged_pr, plan.top_pr) && same_prs(res.closed_prs@, plan.prs_to_close@)
            && res.merge_url@ == url,
        _ => false,
    }
}

/// The step after the forge answered `outcome`: retarget, then merge, then close each pull
/// request beneath the top one in order with a comment that names the top one. The first
/// failure ends the landing with an error that names the step (and the pull request, for a
/// close); what was done before it stays done.
pub fn advance_land(plan: &LandPlan, progress: &LandProgress, outcome: LandOutcome) -> (r: (LandProgress, LandAction))
    ensures
        ({
            let (next, action) = r;
            match progress.stage {
                LandStage::Retarget => records(next, Seq::empty(), 0) && if outcome is Done {
                    next.stage == LandStage::Merge && action == (LandAction::SquashMerge { pr_number: plan.top_pr.number })
                } else {
                    next.stage == LandStage::Over && fails_with(action, "Failed to update PR base: "@ + outcome_message(outcome))
                },
                LandStage::Merge => match outcome {
                    LandOutcome::Merged { url } => records(next, url@, 0) && if plan.prs_to_close.len() == 0 {
                        next.stage == LandStage::Over && finishes(action, *plan, url@)
                    } else {
                        next.stage == (LandStage::Close { next: 0 }) && closes(action, *plan, 0)
                    },
                    _ => next.stage == LandStage::Over && records(next, Seq::empty(), 0) && fails_with(
                        action,
                        "Failed to merge PR: "@ + outcome_message(outcome),
                    ),
                },
                LandStage::Close { next: k } => if k >= plan.prs_to_close.len() {
                    next.stage == LandStage::Over && records(next, progress.merge_url@, progress.closed as int)
                        && fails_with(action, "landing already finished"@)
                } else if outcome is Done {
                    records(next, progress.merge_url@, k + 1) && if k + 1 < plan.prs_to_close.len() {
                        next.stage == (LandStage::Close { next: (k + 1) as usize }) && closes(action, *plan, k + 1)
                    } else {
                        next.stage == LandStage::Over && finishes(action, *plan, progress.merge_url@)
                    }
                } else {
                    next.stage == LandStage::Over && records(next, progress.merge_url@, k as int) && fails_with(
                        action,
                        "Failed to close PR #"@ + decimal_spec(plan.prs_to_close@[k as int].number as nat) + ": "@
                            + outcome_message(outcome),
                    )
                },
                LandStage::Over => next.stage == LandStage::Over && records(next, progress.merge_url@, progress.closed as int)
                    && fails_with(action, "landing already finished"@),
            }
        }),
{
    match progress.stage {
        LandStage::Retarget => match outcome {
            LandOutcome::Done => (LandProgress { stage: LandStage::Merge, merge_url: String::new(), closed: 0 }, LandAction::SquashMerge {
                pr_number: plan.top_pr.number,
            }),
            _ => fail_with("Failed to update PR base: ", &outcome, String::new(), 0),
        },
        LandStage::Merge => match outcome {
            LandOutcome::Merged { url } => {
                if plan.prs_to_close.len() == 0 {
                    let a = finished(plan, &url);
                    (LandProgress { stage: LandStage::Over, merge_url: url, closed: 0 }, a)
                } else {
                    (LandProgress { stage: LandStage::Close { next: 0 }, merge_url: url, closed: 0 }, close_action(plan, 0))
                }
            },
            _ => fail_with("Failed to merge PR: ", &outcome, String::new(), 0),
        },
        LandStage::Close { next: k } => {
            if k >= plan.prs_to_close.len() {
                return (LandProgress { stage: LandStage::Over, merge_url: progress.merge_url.clone(), closed: progress.closed }, LandAction::Failed(
                    LandError::ApiError { message: owned("landing already finished") },
                ));
            }
            match outcome {
                LandOutcome::Done => {
                    if k + 1 < plan.prs_to_close.len() {
                        (LandProgress { stage: LandStage::Close { next: k + 1 }, merge_url: progress.merge_url.clone(), closed: k + 1 },
                            close_action(plan, k + 1))
                    } else {
                        (LandProgress { stage: LandStage::Over, merge_url: progress.merge_url.clone(), closed: k + 1 }, finished(
                            plan,
                            &progress.merge_url,
                        ))
                    }
                },
                _ => {
                    let mut prefix = owned("Failed to close PR #");
                    push_str(&mut prefix, decimal(plan.prs_to_close[k].number).as_str());
                    push_str(&mut prefix, ": ");
                    fail_with(prefix.as_str(), &outcome, progress.merge_url.clone(), k)
                },
            }
        },
        LandStage::Over => (LandProgress { stage: LandStage::Over, merge_url: progress.merge_url.clone(), closed: progress.closed }, LandAction::Failed(
            LandError::ApiError { message: owned("landing already finished") },
        )),
    }
}

} // verus!
