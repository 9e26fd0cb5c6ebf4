//! Aggregating the CI check runs of a commit into one status.
use vstd::prelude::*;

use crate::text::same_text;

verus! {

/// Overall state of the CI checks of a commit.
#[derive(Debug, Clone, Copy, PartialEq, Eq, Structural)]
pub enum CheckState {
    /// Every check passed.
    Success,
    /// At least one check failed.
    Failure,
    /// Checks are still running.
    Pending,
    /// No checks, or none that counts.
    Neutral,
}

/// Aggregated check status of a commit.
#[derive(Debug, Clone)]
pub struct CheckStatus {
    pub state: CheckState,
    pub total: usize,
    pub passed: usize,
    pub failed: usize,
    pub pending: usize,
}

impl CheckStatus {
    /// The status of a commit without checks.
    pub fn neutral() -> (r: Self)
        ensures
            r.state == CheckState::Neutral,
            r.total == 0 && r.passed == 0 && r.failed == 0 && r.pending == 0,
    {
        CheckStatus { state: CheckState::Neutral, total: 0, passed: 0, failed: 0, pending: 0 }
    }
}

/// The check runs of a commit as the forge lists them.
#[derive(Debug)]
pub struct CheckRunsResponse {
    pub total_count: usize,
    pub check_runs: Vec<CheckRun>,
}

/// One check run: `status` is "completed", "in_progress", "queued" or "pending"; a completed
/// run has a `conclusion`.
#[derive(Debug)]
pub struct CheckRun {
    pub status: String,
    pub conclusion: Option<String>,
}

/// How one run counts.
#[derive(Debug, Clone, Copy, PartialEq, Eq, Structural)]
pub enum RunVerdict {
    Passed,
    Failed,
    Pending,
}

/// A completed run passes on "success", "neutral" or "skipped", fails on "failure",
/// "timed_out", "cancelled" or "action_required"; every other run is pending.
pub open spec fn verdict_spec(run: CheckRun) -> RunVerdict {
    if run.status@ == "completed"@ {
        match run.conclusion {
            Some(c) => if c@ == "success"@ || c@ == "neutral"@ || c@ == "skipped"@ {
                RunVerdict::Passed
            } else if c@ == "failure"@ || c@ == "timed_out"@ || c@ == "cancelled"@ || c@ == "action_required"@ {
                RunVerdict::Failed
            } else {
                RunVerdict::Pending
            },
            None => RunVerdict::Pending,
        }
    } else {
        RunVerdict::Pending
    }
}

/// The number of runs of `runs` with verdict `v`.
pub open spec fn count_verdict(runs: Seq<CheckRun>, v: RunVerdict) -> nat
    decreases runs.len(),
{
    if runs.len() == 0 {
        0
    } else {
        count_verdict(runs.drop_last(), v) + if verdict_spec(runs.last()) == v { 1nat } else { 0nat }
    }
}

/// Failure wins over pending, pending over success; with no counted run the state is neutral.
pub open spec fn state_spec(passed: nat, failed: nat, pending: nat) -> CheckState {
    if failed > 0 {
        CheckState::Failure
    } else if pending > 0 {
        CheckState::Pending
    } else if passed > 0 {
        CheckState::Success
    } else {
        CheckState::Neutral
    }
}

/// How `run` counts.
pub fn run_verdict(run: &CheckRun) -> (r: RunVerdict)
    ensures
        r == verdict_spec(*run),
{
    if !same_text(run.status.as_str(), "completed") {
        return RunVerdict::Pending;
    }
    match &run.conclusion {
        Some(c) => {
            let c = c.as_str();
            if same_text(c, "success") || same_text(c, "neutral") || same_text(c, "skipped") {
                RunVerdict::Passed
            } else if same_text(c, "failure") || same_text(c, "timed_out") || same_text(c, "cancelled")
                || same_text(c, "action_required") {
                RunVerdict::Failed
            } else {
                RunVerdict::Pending
            }
        },
        None => RunVerdict::Pending,
    }
}

proof fn lemma_count_bound(runs: Seq<CheckRun>, v: RunVerdict)
    ensures
        count_verdict(runs, v) <= runs.len(),
    decreases runs.len(),
{
    if runs.len() > 0 {
        lemma_count_bound(runs.drop_last(), v);
    }
}

/// Aggregates check runs: with a total count of zero the status is neutral; otherwise each run
/// counts as passed, failed or pending, and the state follows from the three counts.
pub fn parse_check_runs(response: &CheckRunsResponse) -> (r: CheckStatus)
    ensures
        response.total_count == 0 ==> r.state == CheckState::Neutral && r.total == 0 && r.passed == 0
            && r.failed == 0 && r.pending == 0,
        response.total_count > 0 ==> {
            let runs = response.check_runs@;
            &&& r.total == response.total_count
            &&& r.passed == count_verdict(runs, RunVerdict::Passed)
            &&& r.failed == count_verdict(runs, RunVerdict::Failed)
            &&& r.pending == count_verdict(runs, RunVerdict::Pending)
            &&& r.state == state_spec(r.passed as nat, r.failed as nat, r.pending as nat)
        },
{
    if response.total_count == 0 {
        return CheckStatus::neutral();
    }
    let runs = &response.check_runs;
    let mut passed: usize = 0;
    let mut failed: usize = 0;
    let mut pending: usize = 0;
    let mut i: usize = 0;
    while i < runs.len()
        invariant
            i <= runs.len(),
            passed == count_verdict(runs@.subrange(0, i as int), RunVerdict::Passed),
            failed == count_verdict(runs@.subrange(0, i as int), RunVerdict::Failed),
            pending == count_verdict(runs@.subrange(0, i as int), RunVerdict::Pending),
        decreases runs.len() - i,
    {
        proof {
            assert(runs@.subrange(0, i + 1).drop_last() =~= runs@.subrange(0, i as int));
            lemma_count_bound(runs@.subrange(0, i as int), RunVerdict::Passed);
            lemma_count_bound(runs@.subrange(0, i as int), RunVerdict::Failed);
            lemma_count_bound(runs@.subrange(0, i as int), RunVerdict::Pending);
        }
        match run_verdict(&runs[i]) {
            RunVerdict::Passed => passed = passed + 1,
            RunVerdict::Failed => failed = failed + 1,
            RunVerdict::Pending => pending = pending + 1,
        }
        i = i + 1;
    }
    assert(runs@.subrange(0, runs.len() as int) =~= runs@);
    let state = if failed > 0 {
        CheckState::Failure
    } else if pending > 0 {
        CheckState::Pending
    } else if passed > 0 {
        CheckState::Success
    } else {
        CheckState::Neutral
    };
    CheckStatus { state, total: response.total_count, passed, failed, pending }
}

} // verus!
