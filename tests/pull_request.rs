use gh_stack::pull_request::{PullRequest, PullRequestRef, PullRequestReview, PullRequestReviewState, PullRequestStatus};

fn open_pr(number: usize, head: &str, title: &str, draft: bool) -> PullRequest {
    PullRequest::new_for_test(number, head, "main", title, PullRequestStatus::Open, draft, None, vec![])
}

#[test]
fn test_head_sha_accessor() {
    let pr = open_pr(123, "feature-branch", "Test PR", false);
    assert_eq!(pr.head_sha(), "abc123");
}

#[test]
fn test_html_url_conversion() {
    let pr = open_pr(123, "feature-branch", "Test PR", false);
    assert_eq!(pr.html_url(), "https://github.com/test/repo/pull/123");
}

#[test]
fn test_html_url_preserves_enterprise_domain() {
    let pr = PullRequest {
        id: 456,
        number: 456,
        head: PullRequestRef {
            label: "user:feature".to_string(),
            gitref: "feature".to_string(),
            sha: "abc123".to_string(),
        },
        base: PullRequestRef {
            label: "user:main".to_string(),
            gitref: "main".to_string(),
            sha: "def456".to_string(),
        },
        title: "Enterprise PR".to_string(),
        url: "https://api.github.mycompany.com/repos/org/repo/pulls/456".to_string(),
        body: None,
        state: PullRequestStatus::Open,
        merged_at: None,
        updated_at: None,
        draft: false,
        reviews: vec![],
    };
    assert_eq!(pr.html_url(), "https://github.mycompany.com/org/repo/pull/456");
}

#[test]
fn test_raw_title_trims_whitespace() {
    let pr = open_pr(1, "feature", "  Whitespace Title  ", false);
    assert_eq!(pr.raw_title(), "Whitespace Title");
}

#[test]
fn test_raw_title_vs_title_for_draft() {
    let pr = open_pr(1, "feature", "My Feature", true);
    assert_eq!(pr.raw_title(), "My Feature");
    assert_eq!(pr.title(), "*(Draft) My Feature*");
}

#[test]
fn title_of_closed_is_struck_through() {
    let pr = PullRequest::new_for_test(2, "f", "main", " Old ", PullRequestStatus::Closed, false, None, vec![]);
    assert_eq!(pr.title(), "~~Old~~");
}

#[test]
fn accessors_report_fields() {
    let pr = PullRequest::new_for_test_with_updated_at(
        7,
        "feat",
        "base-branch",
        "T",
        PullRequestStatus::Open,
        false,
        None,
        Some("2024-01-15T10:30:00Z".to_string()),
        vec![],
    );
    assert_eq!(pr.number(), 7);
    assert_eq!(pr.head(), "feat");
    assert_eq!(pr.base(), "base-branch");
    assert_eq!(pr.url(), "https://api.github.com/repos/test/repo/pulls/7");
    assert_eq!(pr.updated_at(), Some("2024-01-15T10:30:00Z"));
    assert_eq!(pr.body(), "");
    assert_eq!(*pr.state(), PullRequestStatus::Open);
    assert!(!pr.is_merged());
    assert!(!pr.is_draft());
}

#[test]
fn review_state_prefers_merged_then_approval() {
    let approved = vec![
        PullRequestReview::new_for_test(PullRequestReviewState::COMMENTED),
        PullRequestReview::new_for_test(PullRequestReviewState::APPROVED),
    ];
    let pr = PullRequest::new_for_test(1, "a", "main", "t", PullRequestStatus::Open, false, None, approved);
    assert_eq!(pr.review_state(), PullRequestReviewState::APPROVED);
    assert!(pr.at_least_one_approval());
    let pending = PullRequest::new_for_test(
        2,
        "b",
        "main",
        "t",
        PullRequestStatus::Open,
        false,
        None,
        vec![PullRequestReview::new_for_test(PullRequestReviewState::CHANGES_REQUESTED)],
    );
    assert_eq!(pending.review_state(), PullRequestReviewState::PENDING);
    let merged = PullRequest::new_for_test(3, "c", "main", "t", PullRequestStatus::Closed, false, Some("x".to_string()), vec![]);
    assert_eq!(merged.review_state(), PullRequestReviewState::MERGED);
    assert!(merged.is_merged());
}

#[test]
fn duplicate_keeps_every_field() {
    let pr = PullRequest::new_for_test(
        9,
        "h",
        "b",
        "Title",
        PullRequestStatus::Open,
        true,
        None,
        vec![PullRequestReview::new_for_test(PullRequestReviewState::APPROVED)],
    );
    let d = pr.duplicate();
    assert_eq!(d.number(), 9);
    assert_eq!(d.head(), "h");
    assert_eq!(d.base(), "b");
    assert_eq!(d.title(), pr.title());
    assert_eq!(d.reviews.len(), 1);
    assert!(d.reviews[0].is_approved());
}

#[test]
fn test_fixture_commits_and_address() {
    let pr = PullRequest::new_for_test(42, "h", "b", "t", PullRequestStatus::Open, false, None, vec![]);
    assert_eq!(pr.head_sha(), "abc123");
    assert_eq!(pr.base.sha, "def456");
    assert_eq!(pr.head.label, "user:h");
    assert_eq!(pr.url(), "https://api.github.com/repos/test/repo/pulls/42");
    assert_eq!(pr.id, 42);
}
