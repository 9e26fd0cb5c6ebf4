use gh_stack::identifier::{is_trunk_branch, StackSummary};
use gh_stack::pull_request::{PullRequest, PullRequestStatus};

#[test]
fn test_is_trunk_branch_main() {
    assert!(is_trunk_branch("main", None));
}

#[test]
fn test_is_trunk_branch_master() {
    assert!(is_trunk_branch("master", None));
}

#[test]
fn test_is_trunk_branch_develop() {
    assert!(is_trunk_branch("develop", None));
}

#[test]
fn test_is_trunk_branch_feature_returns_false() {
    assert!(!is_trunk_branch("feat/my-feature", None));
    assert!(!is_trunk_branch("feature-branch", None));
    assert!(!is_trunk_branch("fix/bug", None));
}

#[test]
fn test_is_trunk_branch_configured() {
    assert!(is_trunk_branch("production", Some("production")));
    assert!(is_trunk_branch("main", Some("production")));
}

#[test]
fn test_is_trunk_branch_configured_not_in_common() {
    assert!(is_trunk_branch("release", Some("release")));
    assert!(!is_trunk_branch("feature", Some("release")));
}

fn open_pr(number: usize, head: &str, base: &str, title: &str) -> PullRequest {
    PullRequest::new_for_test(number, head, base, title, PullRequestStatus::Open, false, None, vec![])
}

#[test]
fn test_stack_summary_from_prs_single() {
    let pr = open_pr(42, "feat/my-feature", "main", "Add awesome feature");
    let summary = StackSummary::from_prs(&[pr], "main");
    assert_eq!(summary.root_branch, "feat/my-feature");
    assert_eq!(summary.pr_count, 1);
    assert_eq!(summary.pr_numbers, vec![42]);
    assert_eq!(summary.title_snippet, "Add awesome feature");
}

#[test]
fn test_stack_summary_from_prs_multiple() {
    let pr1 = open_pr(1, "feat/part-1", "main", "Part 1: Initial setup");
    let pr2 = open_pr(2, "feat/part-2", "feat/part-1", "Part 2: Implementation");
    let summary = StackSummary::from_prs(&[pr1, pr2], "main");
    assert_eq!(summary.root_branch, "feat/part-1");
    assert_eq!(summary.pr_count, 2);
    assert_eq!(summary.pr_numbers, vec![1, 2]);
}

#[test]
fn test_stack_summary_truncates_long_title() {
    let pr = open_pr(
        1,
        "feat/long",
        "main",
        "This is a very long title that should be truncated because it exceeds forty characters",
    );
    let summary = StackSummary::from_prs(&[pr], "main");
    assert!(summary.title_snippet.len() <= 43);
    assert!(summary.title_snippet.ends_with("..."));
}

#[test]
fn test_stack_summary_display() {
    let summary = StackSummary {
        root_branch: "feat/my-feature".to_string(),
        pr_count: 2,
        pr_numbers: vec![42, 43],
        title_snippet: "Add feature".to_string(),
    };
    let display = summary.display();
    assert!(display.contains("feat/my-feature"));
    assert!(display.contains("2 PRs"));
    assert!(display.contains("#42"));
    assert!(display.contains("#43"));
}

#[test]
fn test_stack_summary_display_single() {
    let summary = StackSummary {
        root_branch: "feat/single".to_string(),
        pr_count: 1,
        pr_numbers: vec![99],
        title_snippet: "Single PR".to_string(),
    };
    let display = summary.display();
    assert!(display.contains("1 PR)"));
}

#[test]
fn test_stack_summary_empty() {
    let summary = StackSummary::from_prs(&[], "main");
    assert!(summary.root_branch.is_empty());
    assert_eq!(summary.pr_count, 0);
    assert!(summary.pr_numbers.is_empty());
}

#[test]
fn stack_summary_display_exact() {
    let summary = StackSummary {
        root_branch: "feat/x".to_string(),
        pr_count: 3,
        pr_numbers: vec![1, 20, 300],
        title_snippet: String::new(),
    };
    assert_eq!(summary.display(), "feat/x (3 PRs): #1, #20, #300");
}

#[test]
fn stack_summary_snippet_exact() {
    let title = "abcdefghijklmnopqrstuvwxyz0123456789ABCDEFG";
    let summary = StackSummary::from_prs(&[open_pr(5, "h", "main", title)], "main");
    assert_eq!(summary.title_snippet, "abcdefghijklmnopqrstuvwxyz0123456789A...");
}

#[test]
fn stack_summary_snippet_counts_bytes() {
    let title = format!("a{}", "é".repeat(29));
    let summary = StackSummary::from_prs(&[open_pr(6, "h", "main", &title)], "main");
    assert_eq!(summary.title_snippet, format!("a{}...", "é".repeat(18)));
    let short = format!("a{}", "é".repeat(19));
    let summary = StackSummary::from_prs(&[open_pr(7, "h", "main", &short)], "main");
    assert_eq!(summary.title_snippet, short);
}

#[test]
fn stack_summary_snippet_cuts_at_char_boundary() {
    let title = format!("{}{}", "x".repeat(36), "日本語日本語");
    let summary = StackSummary::from_prs(&[open_pr(8, "h", "main", &title)], "main");
    assert_eq!(summary.title_snippet, format!("{}...", "x".repeat(36)));
}
