use gh_stack::land::FlatDep;
use gh_stack::markdown::{build_table, safe_replace};
use gh_stack::pull_request::{PullRequest, PullRequestStatus};

fn make_pr(number: usize, head: &str, base: &str, title: &str, state: PullRequestStatus, draft: bool, merged_at: Option<String>) -> PullRequest {
    PullRequest::new_for_test(number, head, base, title, state, draft, merged_at, vec![])
}

const HEADER: &str = "| PR | Title | Status |  Merges Into  |\n|:--:|:------|:-------|:-------------:|\n";

fn badge(repo: &str, n: usize, label: &str) -> String {
    format!("![](https://img.shields.io/github/pulls/detail/state/{}/{}?label={})", repo, n, label)
}

#[test]
fn test_build_table_single_pr() {
    let pr = make_pr(1, "feature-1", "main", "Add new feature", PullRequestStatus::Open, false, None);
    let deps: FlatDep = vec![(pr, None)];
    let table = build_table(&deps, "JIRA-123", None, "user/repo");
    let expected = format!(
        "### Stacked PR Chain: JIRA-123\n{}|#1|Add new feature|{}|-|\n",
        HEADER,
        badge("user/repo", 1, "Pending")
    );
    assert_eq!(table, expected);
}

#[test]
fn test_build_table_linear_stack() {
    let pr1 = make_pr(1, "feature-1", "main", "Base feature", PullRequestStatus::Open, false, None);
    let pr2 = make_pr(2, "feature-2", "feature-1", "Second feature", PullRequestStatus::Open, false, None);
    let pr3 = make_pr(3, "feature-3", "feature-2", "Third feature", PullRequestStatus::Open, false, None);
    let deps: FlatDep = vec![(pr1.clone(), None), (pr2.clone(), Some(pr1.clone())), (pr3.clone(), Some(pr2.clone()))];
    let table = build_table(&deps, "STACK-456", None, "org/project");
    let expected = format!(
        "### Stacked PR Chain: STACK-456\n{}|#1|Base feature|{}|-|\n|#2|Second feature|{}|#1|\n|#3|Third feature|{}|#2|\n",
        HEADER,
        badge("org/project", 1, "Pending"),
        badge("org/project", 2, "Pending"),
        badge("org/project", 3, "Pending")
    );
    assert_eq!(table, expected);
}

#[test]
fn test_build_table_with_draft_pr() {
    let pr = make_pr(1, "wip-feature", "main", "Work in progress", PullRequestStatus::Open, true, None);
    let deps: FlatDep = vec![(pr, None)];
    let table = build_table(&deps, "DRAFT-TEST", None, "user/repo");
    let expected = format!(
        "### Stacked PR Chain: DRAFT-TEST\n{}|#1|*(Draft) Work in progress*|{}|-|\n",
        HEADER,
        badge("user/repo", 1, "Pending")
    );
    assert_eq!(table, expected);
}

#[test]
fn test_build_table_with_closed_pr() {
    let pr = make_pr(1, "old-feature", "main", "Completed feature", PullRequestStatus::Closed, false, None);
    let deps: FlatDep = vec![(pr, None)];
    let table = build_table(&deps, "CLOSED-TEST", None, "user/repo");
    let expected = format!(
        "### ✅ Stacked PR Chain: CLOSED-TEST\n{}|#1|~~Completed feature~~|{}|-|\n",
        HEADER,
        badge("user/repo", 1, "Closed")
    );
    assert_eq!(table, expected);
}

#[test]
fn test_build_table_with_merged_pr() {
    let pr = make_pr(
        1,
        "merged-feature",
        "main",
        "Merged feature",
        PullRequestStatus::Closed,
        false,
        Some("2024-01-15T10:00:00Z".to_string()),
    );
    let deps: FlatDep = vec![(pr, None)];
    let table = build_table(&deps, "MERGED-TEST", None, "user/repo");
    let expected = format!(
        "### ✅ Stacked PR Chain: MERGED-TEST\n{}|#1|~~Merged feature~~|{}|-|\n",
        HEADER,
        badge("user/repo", 1, "%20")
    );
    assert_eq!(table, expected);
}

#[test]
fn test_build_table_all_closed_shows_checkmark() {
    let pr1 = make_pr(1, "feature-1", "main", "First", PullRequestStatus::Closed, false, None);
    let pr2 = make_pr(2, "feature-2", "feature-1", "Second", PullRequestStatus::Closed, false, None);
    let deps: FlatDep = vec![(pr1.clone(), None), (pr2.clone(), Some(pr1.clone()))];
    let table = build_table(&deps, "COMPLETE-STACK", None, "user/repo");
    assert!(table.starts_with("### ✅ Stacked PR Chain: COMPLETE-STACK\n"));
    assert!(table.contains("|#2|~~Second~~|"));
    assert!(table.ends_with("|#1|\n"));
}

#[test]
fn test_build_table_mixed_states() {
    let pr1 = make_pr(
        1,
        "feature-1",
        "main",
        "Merged base",
        PullRequestStatus::Closed,
        false,
        Some("2024-01-15T10:00:00Z".to_string()),
    );
    let pr2 = make_pr(2, "feature-2", "feature-1", "Open follow-up", PullRequestStatus::Open, false, None);
    let pr3 = make_pr(3, "feature-3", "feature-2", "Draft WIP", PullRequestStatus::Open, true, None);
    let deps: FlatDep = vec![(pr1.clone(), None), (pr2.clone(), Some(pr1.clone())), (pr3.clone(), Some(pr2.clone()))];
    let table = build_table(&deps, "MIXED-STACK", None, "org/repo");
    let expected = format!(
        "### Stacked PR Chain: MIXED-STACK\n{}|#1|~~Merged base~~|{}|-|\n|#2|Open follow-up|{}|#1|\n|#3|*(Draft) Draft WIP*|{}|#2|\n",
        HEADER,
        badge("org/repo", 1, "%20"),
        badge("org/repo", 2, "Pending"),
        badge("org/repo", 3, "Pending")
    );
    assert_eq!(table, expected);
}

#[test]
fn table_with_prelude() {
    let pr = make_pr(4, "f", "main", "T", PullRequestStatus::Open, false, None);
    let table = build_table(&vec![(pr, None)], "X", Some("Read me first"), "o/r");
    assert!(table.starts_with("### Stacked PR Chain: X\nRead me first\n| PR |"));
}

#[test]
fn replace_appends_table_when_absent() {
    assert_eq!(
        safe_replace("Body", "T"),
        "Body\n<!---GHSTACKOPEN-->\nT\n<!---GHSTACKCLOSE-->\n"
    );
}

#[test]
fn replace_swaps_the_framed_table() {
    let body = "Intro\n<!---GHSTACKOPEN-->\nold\n<!---GHSTACKCLOSE-->\nOutro";
    assert_eq!(
        safe_replace(body, "new"),
        "Intro\n\n<!---GHSTACKOPEN-->\nnew\n<!---GHSTACKCLOSE-->\n\nOutro"
    );
}

#[test]
fn replace_keeps_body_with_unclosed_marker() {
    let body = "Intro <!---GHSTACKOPEN--> dangling";
    assert_eq!(safe_replace(body, "new"), body);
}
