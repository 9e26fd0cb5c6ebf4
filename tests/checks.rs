use gh_stack::checks::{parse_check_runs, run_verdict, CheckRun, CheckRunsResponse, CheckState, CheckStatus, RunVerdict};

fn run(status: &str, conclusion: Option<&str>) -> CheckRun {
    CheckRun { status: status.to_string(), conclusion: conclusion.map(|c| c.to_string()) }
}

#[test]
fn test_parse_check_runs_all_success() {
    let response = CheckRunsResponse {
        total_count: 3,
        check_runs: vec![
            run("completed", Some("success")),
            run("completed", Some("success")),
            run("completed", Some("success")),
        ],
    };
    let status = parse_check_runs(&response);
    assert_eq!(status.state, CheckState::Success);
    assert_eq!(status.total, 3);
    assert_eq!(status.passed, 3);
    assert_eq!(status.failed, 0);
    assert_eq!(status.pending, 0);
}

#[test]
fn test_parse_check_runs_mixed() {
    let response = CheckRunsResponse {
        total_count: 3,
        check_runs: vec![
            run("completed", Some("success")),
            run("completed", Some("failure")),
            run("in_progress", None),
        ],
    };
    let status = parse_check_runs(&response);
    assert_eq!(status.state, CheckState::Failure);
    assert_eq!(status.total, 3);
    assert_eq!(status.passed, 1);
    assert_eq!(status.failed, 1);
    assert_eq!(status.pending, 1);
}

#[test]
fn test_parse_check_runs_all_pending() {
    let response = CheckRunsResponse {
        total_count: 2,
        check_runs: vec![run("in_progress", None), run("queued", None)],
    };
    let status = parse_check_runs(&response);
    assert_eq!(status.state, CheckState::Pending);
    assert_eq!(status.total, 2);
    assert_eq!(status.passed, 0);
    assert_eq!(status.failed, 0);
    assert_eq!(status.pending, 2);
}

#[test]
fn test_parse_check_runs_empty() {
    let response = CheckRunsResponse { total_count: 0, check_runs: vec![] };
    let status = parse_check_runs(&response);
    assert_eq!(status.state, CheckState::Neutral);
    assert_eq!(status.total, 0);
}

#[test]
fn test_parse_check_runs_neutral_conclusion() {
    let response = CheckRunsResponse {
        total_count: 2,
        check_runs: vec![run("completed", Some("neutral")), run("completed", Some("skipped"))],
    };
    let status = parse_check_runs(&response);
    assert_eq!(status.state, CheckState::Success);
    assert_eq!(status.passed, 2);
}

#[test]
fn test_parse_check_runs_timed_out() {
    let response = CheckRunsResponse { total_count: 1, check_runs: vec![run("completed", Some("timed_out"))] };
    let status = parse_check_runs(&response);
    assert_eq!(status.state, CheckState::Failure);
    assert_eq!(status.failed, 1);
}

#[test]
fn test_parse_check_runs_cancelled() {
    let response = CheckRunsResponse { total_count: 1, check_runs: vec![run("completed", Some("cancelled"))] };
    let status = parse_check_runs(&response);
    assert_eq!(status.state, CheckState::Failure);
    assert_eq!(status.failed, 1);
}

#[test]
fn unknown_conclusion_counts_as_pending() {
    assert_eq!(run_verdict(&run("completed", Some("stale"))), RunVerdict::Pending);
    assert_eq!(run_verdict(&run("completed", None)), RunVerdict::Pending);
    assert_eq!(run_verdict(&run("completed", Some("action_required"))), RunVerdict::Failed);
}

#[test]
fn zero_total_is_neutral_even_with_runs() {
    let response = CheckRunsResponse { total_count: 0, check_runs: vec![run("completed", Some("failure"))] };
    let status = parse_check_runs(&response);
    assert_eq!(status.state, CheckState::Neutral);
    assert_eq!(status.failed, 0);
    let n = CheckStatus::neutral();
    assert_eq!(n.state, CheckState::Neutral);
    assert_eq!(n.total, 0);
}
