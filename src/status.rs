//! Status bits of a stack: CI, approval, mergeability and whether everything beneath a pull
//! request is clear to land.
use vstd::prelude::*;

use crate::checks::{CheckState, CheckStatus};
use crate::pull_request::{PullRequest, PullRequestReviewState};
use crate::text::{owned, push_str, truncate_chars, truncate_spec};
use crate::tree::CommitInfo;

verus! {

/// One status indicator.
#[derive(Debug, Clone, Copy, PartialEq, Eq, Structural)]
pub enum StatusBit {
    Passed,
    Failed,
    Pending,
    NotApplicable,
}

impl StatusBit {
    pub open spec fn unicode_spec(self) -> Seq<char> {
        match self {
            StatusBit::Passed => "\u{2713}"@,
            StatusBit::Failed => "\u{2717}"@,
            StatusBit::Pending => "\u{23F3}"@,
            StatusBit::NotApplicable => "\u{2500}"@,
        }
    }

    pub open spec fn ascii_spec(self) -> Seq<char> {
        match self {
            StatusBit::Passed => "Y"@,
            StatusBit::Failed => "N"@,
            StatusBit::Pending => "?"@,
            StatusBit::NotApplicable => "-"@,
        }
    }

    /// The symbol for terminals that show Unicode.
    pub fn to_unicode(&self) -> (r: &'static str)
        ensures
            r@ == self.unicode_spec(),
    {
        match self {
            StatusBit::Passed => "\u{2713}",
            StatusBit::Failed => "\u{2717}",
            StatusBit::Pending => "\u{23F3}",
            StatusBit::NotApplicable => "\u{2500}",
        }
    }

    /// The symbol for plain terminals.
    pub fn to_ascii(&self) -> (r: &'static str)
        ensures
            r@ == self.ascii_spec(),
    {
        match self {
            StatusBit::Passed => "Y",
            StatusBit::Failed => "N",
            StatusBit::Pending => "?",
            StatusBit::NotApplicable => "-",
        }
    }
}

/// The status bits of one pull request.
#[derive(Debug, Clone, Copy)]
pub struct PrStatus {
    pub ci: StatusBit,
    pub approved: StatusBit,
    pub mergeable: StatusBit,
    pub stack_clear: StatusBit,
}

impl PrStatus {
    /// Every bit not applicable.
    pub fn not_applicable() -> (r: Self)
        ensures
            r.ci == StatusBit::NotApplicable,
            r.approved == StatusBit::NotApplicable,
            r.mergeable == StatusBit::NotApplicable,
            r.stack_clear == StatusBit::NotApplicable,
    {
        PrStatus {
            ci: StatusBit::NotApplicable,
            approved: StatusBit::NotApplicable,
            mergeable: StatusBit::NotApplicable,
            stack_clear: StatusBit::NotApplicable,
        }
    }
}

/// One line of the status listing: a pull request's branch, or trunk.
#[derive(Debug, Clone)]
pub struct StatusEntry {
    pub branch: String,
    pub pr_number: Option<usize>,
    pub title: Option<String>,
    pub is_current: bool,
    pub is_draft: bool,
    pub is_trunk: bool,
    pub status: Option<PrStatus>,
    pub updated_at: Option<String>,
    pub commits: Vec<CommitInfo>,
    pub extra_commits: usize,
}

/// Whether a count is zero (such counts are left out of serialized output).
pub fn is_zero(n: &usize) -> (r: bool)
    ensures
        r == (*n == 0),
{
    *n == 0
}

/// How the status listing is shown.
#[derive(Debug, Clone)]
pub struct StatusConfig {
    pub use_color: bool,
    pub use_unicode: bool,
    pub show_legend: bool,
    pub include_checks: bool,
    pub json_output: bool,
}

impl Default for StatusConfig {
    fn default() -> (r: Self)
        ensures
            r.use_color && r.use_unicode && !r.show_legend && r.include_checks && !r.json_output,
    {
        StatusConfig {
            use_color: true,
            use_unicode: true,
            show_legend: false,
            include_checks: true,
            json_output: false,
        }
    }
}

/// The status listing with its trunk, as serialized.
#[derive(Debug)]
pub struct StatusOutput {
    pub stack: Vec<StatusEntry>,
    pub trunk: String,
}

/// The longest title shown in a status listing.
pub const MAX_TITLE_LEN: usize = 50;

/// `title` cut to `max_len` characters, ending in "..." where it was longer.
pub fn truncate_title(title: &str, max_len: usize) -> (r: String)
    ensures
        r@ == truncate_spec(title@, max_len as nat),
{
    truncate_chars(title, max_len)
}

pub open spec fn check_bit_spec(s: CheckState) -> StatusBit {
    match s {
        CheckState::Success => StatusBit::Passed,
        CheckState::Failure => StatusBit::Failed,
        CheckState::Pending => StatusBit::Pending,
        CheckState::Neutral => StatusBit::NotApplicable,
    }
}

/// The CI bit of a check status.
pub fn check_status_to_bit(status: &CheckStatus) -> (r: StatusBit)
    ensures
        r == check_bit_spec(status.state),
{
    match status.state {
        CheckState::Success => StatusBit::Passed,
        CheckState::Failure => StatusBit::Failed,
        CheckState::Pending => StatusBit::Pending,
        CheckState::Neutral => StatusBit::NotApplicable,
    }
}

/// Passed when the pull request is approved or merged, failed otherwise.
pub fn approval_to_bit(pr: &PullRequest) -> (r: StatusBit)
    ensures
        r == if pr.review_state_spec() == PullRequestReviewState::APPROVED || pr.review_state_spec()
            == PullRequestReviewState::MERGED {
            StatusBit::Passed
        } else {
            StatusBit::Failed
        },
{
    match pr.review_state() {
        PullRequestReviewState::APPROVED | PullRequestReviewState::MERGED => StatusBit::Passed,
        _ => StatusBit::Failed,
    }
}

/// Passed when mergeable, failed when not, pending while the forge still computes it.
pub fn mergeable_to_bit(mergeable: Option<bool>) -> (r: StatusBit)
    ensures
        r == match mergeable {
            Some(true) => StatusBit::Passed,
            Some(false) => StatusBit::Failed,
            None => StatusBit::Pending,
        },
{
    match mergeable {
        Some(true) => StatusBit::Passed,
        Some(false) => StatusBit::Failed,
        None => StatusBit::Pending,
    }
}

/// The entry is a draft, or its status shows it unapproved.
pub open spec fn entry_unready(e: StatusEntry) -> bool {
    e.is_draft || (e.status is Some && e.status->0.approved != StatusBit::Passed)
}

/// The listing runs top to bottom; the entry at `index` is clear when it and every pull
/// request below it (trunk aside) are ready.
pub open spec fn stack_clear_spec(entries: Seq<StatusEntry>, index: int) -> StatusBit {
    if (exists|j: int| index < j < entries.len() && !(#[trigger] entries[j]).is_trunk && entry_unready(entries[j]))
        || (0 <= index < entries.len() && entry_unready(entries[index])) {
        StatusBit::Failed
    } else {
        StatusBit::Passed
    }
}

fn unready(e: &StatusEntry) -> (r: bool)
    ensures
        r == entry_unready(*e),
{
    if e.is_draft {
        return true;
    }
    match &e.status {
        Some(s) => s.approved != StatusBit::Passed,
        None => false,
    }
}

/// Whether the entry at `index` is clear to land: failed when it, or any pull request entry
/// below it, is a draft or unapproved.
pub fn compute_stack_clear(entries: &[StatusEntry], index: usize) -> (r: StatusBit)
    ensures
        r == stack_clear_spec(entries@, index as int),
{
    let n = entries.len();
    if index < n {
        let mut j: usize = index + 1;
        while j < n
            invariant
                index < n == entries@.len(),
                index + 1 <= j <= n,
                forall|t: int| index < t < j ==> !((#[trigger] entries@[t]).is_trunk) ==> !entry_unready(entries@[t]),
            decreases n - j,
        {
            if !entries[j].is_trunk && unready(&entries[j]) {
                return StatusBit::Failed;
            }
            j = j + 1;
        }
        if unready(&entries[index]) {
            return StatusBit::Failed;
        }
    }
    StatusBit::Passed
}

pub open spec fn symbol(b: StatusBit, use_unicode: bool) -> Seq<char> {
    if use_unicode {
        b.unicode_spec()
    } else {
        b.ascii_spec()
    }
}

fn symbol_of(b: StatusBit, use_unicode: bool) -> (r: &'static str)
    ensures
        r@ == symbol(b, use_unicode),
{
    if use_unicode {
        b.to_unicode()
    } else {
        b.to_ascii()
    }
}

/// The four bits in brackets: CI, approval, mergeability, stack.
pub fn format_status_bits(status: &PrStatus, use_unicode: bool) -> (r: String)
    ensures
        r@ == "["@ + symbol(status.ci, use_unicode) + " "@ + symbol(status.approved, use_unicode) + " "@
            + symbol(status.mergeable, use_unicode) + " "@ + symbol(status.stack_clear, use_unicode) + "]"@,
{
    let mut out = owned("[");
    push_str(&mut out, symbol_of(status.ci, use_unicode));
    push_str(&mut out, " ");
    push_str(&mut out, symbol_of(status.approved, use_unicode));
    push_str(&mut out, " ");
    push_str(&mut out, symbol_of(status.mergeable, use_unicode));
    push_str(&mut out, " ");
    push_str(&mut out, symbol_of(status.stack_clear, use_unicode));
    push_str(&mut out, "]");
    out
}

/// The legend that explains the bits.
pub fn format_legend(use_unicode: bool) -> (r: String)
    ensures
        r@ == "\nStatus: [CI | Approved | Mergeable | Stack]\n"@ + if use_unicode {
            "  \u{2713} pass  \u{2717} fail  \u{23F3} pending  \u{2500} n/a\n"@
        } else {
            "  Y=pass  N=fail  ?=pending  -=n/a\n"@
        },
{
    let mut out = owned("\nStatus: [CI | Approved | Mergeable | Stack]\n");
    if use_unicode {
        push_str(&mut out, "  \u{2713} pass  \u{2717} fail  \u{23F3} pending  \u{2500} n/a\n");
    } else {
        push_str(&mut out, "  Y=pass  N=fail  ?=pending  -=n/a\n");
    }
    out
}

} // verus!
