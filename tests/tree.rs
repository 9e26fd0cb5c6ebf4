use gh_stack::pull_request::{PullRequest, PullRequestStatus};
use gh_stack::tree::{determine_pr_state, format_elapsed, parse_github_remote_url, truncate, PrState};

#[test]
fn test_truncate_short_string() {
    assert_eq!(truncate("hello", 10), "hello");
}

#[test]
fn test_truncate_exact_length() {
    assert_eq!(truncate("hello", 5), "hello");
}

#[test]
fn test_truncate_long_string() {
    assert_eq!(truncate("hello world", 8), "hello...");
}

#[test]
fn test_truncate_unicode() {
    assert_eq!(truncate("hello 世界 world", 10), "hello 世...");
}

fn pr(state: PullRequestStatus, draft: bool, merged_at: Option<String>) -> PullRequest {
    PullRequest::new_for_test(1, "feature", "main", "Test PR", state, draft, merged_at, vec![])
}

#[test]
fn test_determine_pr_state_open() {
    assert_eq!(determine_pr_state(&pr(PullRequestStatus::Open, false, None)), PrState::Open);
}

#[test]
fn test_determine_pr_state_draft() {
    assert_eq!(determine_pr_state(&pr(PullRequestStatus::Open, true, None)), PrState::Draft);
}

#[test]
fn test_determine_pr_state_closed() {
    assert_eq!(determine_pr_state(&pr(PullRequestStatus::Closed, false, None)), PrState::Closed);
}

#[test]
fn test_determine_pr_state_merged() {
    assert_eq!(
        determine_pr_state(&pr(PullRequestStatus::Closed, false, Some("2024-01-15T10:00:00Z".to_string()))),
        PrState::Merged
    );
}

#[test]
fn test_parse_github_remote_url_ssh() {
    assert_eq!(parse_github_remote_url("git@github.com:owner/repo.git"), Some("owner/repo".to_string()));
}

#[test]
fn test_parse_github_remote_url_ssh_no_suffix() {
    assert_eq!(parse_github_remote_url("git@github.com:owner/repo"), Some("owner/repo".to_string()));
}

#[test]
fn test_parse_github_remote_url_https() {
    assert_eq!(parse_github_remote_url("https://github.com/owner/repo.git"), Some("owner/repo".to_string()));
}

#[test]
fn test_parse_github_remote_url_https_no_suffix() {
    assert_eq!(parse_github_remote_url("https://github.com/owner/repo"), Some("owner/repo".to_string()));
}

#[test]
fn test_parse_github_remote_url_http() {
    assert_eq!(parse_github_remote_url("http://github.com/owner/repo.git"), Some("owner/repo".to_string()));
}

#[test]
fn test_parse_github_remote_url_enterprise_ssh() {
    assert_eq!(
        parse_github_remote_url("git@github.mycompany.com:org/project.git"),
        Some("org/project".to_string())
    );
}

#[test]
fn test_parse_github_remote_url_enterprise_https() {
    assert_eq!(
        parse_github_remote_url("https://github.mycompany.com/org/project.git"),
        Some("org/project".to_string())
    );
}

#[test]
fn test_parse_github_remote_url_invalid() {
    assert_eq!(parse_github_remote_url("not-a-url"), None);
}

#[test]
fn test_parse_github_remote_url_empty() {
    assert_eq!(parse_github_remote_url(""), None);
}

#[test]
fn remote_url_edge_cases() {
    assert_eq!(parse_github_remote_url("git@host:o/r.git.git"), Some("o/r".to_string()));
    assert_eq!(parse_github_remote_url("https://host-only"), None);
    assert_eq!(parse_github_remote_url("git@host-without-colon"), None);
}

#[test]
fn elapsed_in_words() {
    assert_eq!(format_elapsed(8), "8 seconds ago");
    assert_eq!(format_elapsed(1), "1 second ago");
    assert_eq!(format_elapsed(5 * 60), "5 minutes ago");
    assert_eq!(format_elapsed(60), "1 minute ago");
    assert_eq!(format_elapsed(2 * 3600), "2 hours ago");
    assert_eq!(format_elapsed(3600), "1 hour ago");
    assert_eq!(format_elapsed(3 * 86400), "3 days ago");
    assert_eq!(format_elapsed(86400), "1 day ago");
    assert_eq!(format_elapsed(21 * 86400), "3 weeks ago");
    assert_eq!(format_elapsed(7 * 86400), "1 week ago");
    assert_eq!(format_elapsed(60 * 86400), "2 months ago");
    assert_eq!(format_elapsed(365 * 86400), "1 year ago");
    assert_eq!(format_elapsed(730 * 86400), "2 years ago");
    assert_eq!(format_elapsed(-5), "just now");
    assert_eq!(format_elapsed(0), "0 seconds ago");
}
