use gh_stack::land::{
    advance_land, begin_land, create_land_plan, format_dry_run, is_pr_approved, order_stack_base_to_top,
    FlatDep, LandAction, LandError, LandOptions, LandOutcome, LandStage,
};
use gh_stack::pull_request::{PullRequest, PullRequestReview, PullRequestReviewState, PullRequestStatus};

fn make_pr(number: usize, head: &str, base: &str, approved: bool, draft: bool) -> PullRequest {
    let reviews = if approved {
        vec![PullRequestReview::new_for_test(PullRequestReviewState::APPROVED)]
    } else {
        vec![]
    };
    PullRequest::new_for_test(number, head, base, &format!("PR #{}", number), PullRequestStatus::Open, draft, None, reviews)
}

fn make_stack(prs: Vec<PullRequest>) -> FlatDep {
    let mut stack = Vec::new();
    for (i, pr) in prs.iter().enumerate() {
        let parent = if i > 0 { Some(prs[i - 1].clone()) } else { None };
        stack.push((pr.clone(), parent));
    }
    stack
}

#[test]
fn test_create_plan_empty_stack() {
    let stack: FlatDep = vec![];
    let options = LandOptions::default();
    let result = create_land_plan(&stack, "owner/repo", &options);
    assert!(matches!(result, Err(LandError::NoPRsInStack)));
}

#[test]
fn test_create_plan_single_approved_pr() {
    let pr = make_pr(1, "feature-1", "main", true, false);
    let stack = make_stack(vec![pr.clone()]);
    let options = LandOptions::default();
    let plan = create_land_plan(&stack, "owner/repo", &options).unwrap();
    assert_eq!(plan.top_pr.number(), 1);
    assert!(plan.prs_to_close.is_empty());
    assert_eq!(plan.target_branch, "main");
}

#[test]
fn test_create_plan_all_approved() {
    let prs = vec![
        make_pr(1, "feature-1", "main", true, false),
        make_pr(2, "feature-2", "feature-1", true, false),
        make_pr(3, "feature-3", "feature-2", true, false),
    ];
    let stack = make_stack(prs);
    let options = LandOptions::default();
    let plan = create_land_plan(&stack, "owner/repo", &options).unwrap();
    assert_eq!(plan.top_pr.number(), 3);
    assert_eq!(plan.prs_to_close.len(), 2);
    assert_eq!(plan.prs_to_close[0].number(), 1);
    assert_eq!(plan.prs_to_close[1].number(), 2);
}

#[test]
fn test_create_plan_partial_approval() {
    let prs = vec![
        make_pr(1, "feature-1", "main", true, false),
        make_pr(2, "feature-2", "feature-1", true, false),
        make_pr(3, "feature-3", "feature-2", false, false),
    ];
    let stack = make_stack(prs);
    let options = LandOptions::default();
    let plan = create_land_plan(&stack, "owner/repo", &options).unwrap();
    assert_eq!(plan.top_pr.number(), 2);
    assert_eq!(plan.prs_to_close.len(), 1);
    assert_eq!(plan.prs_to_close[0].number(), 1);
}

#[test]
fn test_create_plan_first_pr_not_approved() {
    let prs = vec![
        make_pr(1, "feature-1", "main", false, false),
        make_pr(2, "feature-2", "feature-1", true, false),
    ];
    let stack = make_stack(prs);
    let options = LandOptions::default();
    let result = create_land_plan(&stack, "owner/repo", &options);
    assert!(matches!(result, Err(LandError::ApprovalRequired { pr_number: 1 })));
}

#[test]
fn test_create_plan_draft_blocking() {
    let prs = vec![
        make_pr(1, "feature-1", "main", true, true),
        make_pr(2, "feature-2", "feature-1", true, false),
    ];
    let stack = make_stack(prs);
    let options = LandOptions::default();
    let result = create_land_plan(&stack, "owner/repo", &options);
    assert!(matches!(result, Err(LandError::DraftBlocking { pr_number: 1 })));
}

#[test]
fn test_create_plan_with_count() {
    let prs = vec![
        make_pr(1, "feature-1", "main", true, false),
        make_pr(2, "feature-2", "feature-1", true, false),
        make_pr(3, "feature-3", "feature-2", true, false),
    ];
    let stack = make_stack(prs);
    let options = LandOptions { require_approval: true, max_count: Some(2) };
    let plan = create_land_plan(&stack, "owner/repo", &options).unwrap();
    assert_eq!(plan.top_pr.number(), 2);
    assert_eq!(plan.prs_to_close.len(), 1);
}

#[test]
fn test_create_plan_no_approval_flag() {
    let prs = vec![
        make_pr(1, "feature-1", "main", false, false),
        make_pr(2, "feature-2", "feature-1", false, false),
    ];
    let stack = make_stack(prs);
    let options = LandOptions { require_approval: false, max_count: None };
    let plan = create_land_plan(&stack, "owner/repo", &options).unwrap();
    assert_eq!(plan.top_pr.number(), 2);
    assert_eq!(plan.prs_to_close.len(), 1);
}

#[test]
fn test_order_stack_base_to_top() {
    let pr3 = make_pr(3, "feature-3", "feature-2", true, false);
    let pr1 = make_pr(1, "feature-1", "main", true, false);
    let pr2 = make_pr(2, "feature-2", "feature-1", true, false);
    let stack: FlatDep = vec![
        (pr3.clone(), Some(pr2.clone())),
        (pr1.clone(), None),
        (pr2.clone(), Some(pr1.clone())),
    ];
    let ordered = order_stack_base_to_top(&stack);
    assert_eq!(ordered[0].number(), 1);
    assert_eq!(ordered[1].number(), 2);
    assert_eq!(ordered[2].number(), 3);
}

#[test]
fn order_with_parent_cycle_keeps_every_entry() {
    let a = make_pr(1, "a", "b", true, false);
    let b = make_pr(2, "b", "a", true, false);
    let stack: FlatDep = vec![(a.clone(), Some(b.clone())), (b.clone(), Some(a.clone()))];
    let ordered = order_stack_base_to_top(&stack);
    assert_eq!(ordered.len(), 2);
    assert_eq!(ordered[0].number(), 1);
    assert_eq!(ordered[1].number(), 2);
}

#[test]
fn all_closed_stack_is_not_mergeable() {
    let closed = PullRequest::new_for_test(1, "f", "main", "t", PullRequestStatus::Closed, false, None, vec![]);
    let stack = make_stack(vec![closed]);
    match create_land_plan(&stack, "o/r", &LandOptions::default()) {
        Err(LandError::NoPRsMergeable { reason }) => assert_eq!(reason, "All PRs are already merged or closed"),
        other => panic!("unexpected {:?}", other),
    }
}

#[test]
fn merged_prs_are_skipped() {
    let merged = PullRequest::new_for_test(
        1,
        "feature-1",
        "main",
        "t",
        PullRequestStatus::Closed,
        false,
        Some("2024-01-01T00:00:00Z".to_string()),
        vec![],
    );
    let prs = vec![merged, make_pr(2, "feature-2", "feature-1", true, false), make_pr(3, "feature-3", "feature-2", true, false)];
    let plan = create_land_plan(&make_stack(prs), "o/r", &LandOptions::default()).unwrap();
    assert_eq!(plan.top_pr.number(), 3);
    assert_eq!(plan.prs_to_close.len(), 1);
    assert_eq!(plan.prs_to_close[0].number(), 2);
    assert_eq!(plan.target_branch, "main");
    assert_eq!(plan.repository, "o/r");
}

#[test]
fn max_count_zero_lands_one() {
    let prs = vec![make_pr(1, "feature-1", "main", true, false), make_pr(2, "feature-2", "feature-1", true, false)];
    let plan = create_land_plan(&make_stack(prs), "o/r", &LandOptions { require_approval: true, max_count: Some(0) }).unwrap();
    assert_eq!(plan.top_pr.number(), 1);
    assert!(plan.prs_to_close.is_empty());
}

#[test]
fn approval_check_counts_approving_review() {
    assert!(is_pr_approved(&make_pr(1, "a", "main", true, false)));
    assert!(!is_pr_approved(&make_pr(1, "a", "main", false, false)));
}

#[test]
fn dry_run_text() {
    let prs = vec![
        make_pr(1, "feature-1", "main", true, false),
        make_pr(2, "feature-2", "feature-1", true, false),
        make_pr(3, "feature-3", "feature-2", false, true),
    ];
    let plan = create_land_plan(&make_stack(prs.clone()), "o/r", &LandOptions::default()).unwrap();
    let text = format_dry_run(&plan, &prs[2..]);
    let expected = "Landing Plan:\n  Target branch: main\n\n  PRs to land (2):\n    [x] #1: PR #1 (will close)\n    [x] #2: PR #2 <- will merge\n\n  PRs not included (1):\n    [ ] #3: *(Draft) PR #3* (draft)\n\n  Actions that would be taken:\n    1. Update PR #2 base branch: feature-1 -> main\n    2. Squash-merge PR #2 into main\n    3. Close PR #1 with comment: \"Landed via #2\"\n\nRun without --dry-run to execute.\n";
    assert_eq!(text, expected);
}

#[test]
fn executor_runs_retarget_merge_close_in_order() {
    let prs = vec![
        make_pr(1, "feature-1", "main", true, false),
        make_pr(2, "feature-2", "feature-1", true, false),
        make_pr(3, "feature-3", "feature-2", true, false),
    ];
    let plan = create_land_plan(&make_stack(prs), "o/r", &LandOptions::default()).unwrap();
    let (p, a) = begin_land(&plan);
    assert_eq!(p.stage, LandStage::Retarget);
    assert!(matches!(a, LandAction::UpdateBase { pr_number: 3, ref base } if base == "main"));
    let (p, a) = advance_land(&plan, &p, LandOutcome::Done);
    assert!(matches!(a, LandAction::SquashMerge { pr_number: 3 }));
    let (p, a) = advance_land(&plan, &p, LandOutcome::Merged { url: "https://x/pull/3".to_string() });
    assert!(matches!(a, LandAction::CloseWithComment { pr_number: 1, ref comment } if comment == "Landed via #3"));
    let (p, a) = advance_land(&plan, &p, LandOutcome::Done);
    assert!(matches!(a, LandAction::CloseWithComment { pr_number: 2, .. }));
    let (p, a) = advance_land(&plan, &p, LandOutcome::Done);
    assert_eq!(p.stage, LandStage::Over);
    match a {
        LandAction::Finished(res) => {
            assert_eq!(res.merged_pr.number(), 3);
            assert_eq!(res.closed_prs.len(), 2);
            assert_eq!(res.merge_url, "https://x/pull/3");
        }
        other => panic!("unexpected {:?}", other),
    }
}

#[test]
fn executor_stops_when_not_merged() {
    let plan = create_land_plan(&make_stack(vec![make_pr(1, "f", "main", true, false)]), "o/r", &LandOptions::default()).unwrap();
    let (p, _) = begin_land(&plan);
    let (p, _) = advance_land(&plan, &p, LandOutcome::Done);
    let (p, a) = advance_land(&plan, &p, LandOutcome::NotMerged { message: "conflict".to_string() });
    assert_eq!(p.stage, LandStage::Over);
    match a {
        LandAction::Failed(LandError::ApiError { message }) => {
            assert_eq!(message, "Failed to merge PR: PR was not merged: conflict")
        }
        other => panic!("unexpected {:?}", other),
    }
}

#[test]
fn executor_names_the_failing_close() {
    let prs = vec![make_pr(1, "feature-1", "main", true, false), make_pr(2, "feature-2", "feature-1", true, false)];
    let plan = create_land_plan(&make_stack(prs), "o/r", &LandOptions::default()).unwrap();
    let (p, _) = begin_land(&plan);
    let (p, _) = advance_land(&plan, &p, LandOutcome::Done);
    let (p, _) = advance_land(&plan, &p, LandOutcome::Merged { url: "u".to_string() });
    let (_, a) = advance_land(&plan, &p, LandOutcome::Error { message: "boom".to_string() });
    match a {
        LandAction::Failed(LandError::ApiError { message }) => assert_eq!(message, "Failed to close PR #1: boom"),
        other => panic!("unexpected {:?}", other),
    }
}

#[test]
fn executor_reports_failed_retarget() {
    let plan = create_land_plan(&make_stack(vec![make_pr(4, "f", "main", true, false)]), "o/r", &LandOptions::default()).unwrap();
    let (p, _) = begin_land(&plan);
    let (_, a) = advance_land(&plan, &p, LandOutcome::Error { message: "403".to_string() });
    assert!(matches!(a, LandAction::Failed(LandError::ApiError { ref message }) if message == "Failed to update PR base: 403"));
}

#[test]
fn land_error_messages() {
    assert_eq!(LandError::NoPRsInStack.message(), "No PRs found in the stack");
    assert_eq!(LandError::DraftBlocking { pr_number: 7 }.message(), "PR #7 is a draft and blocks landing of PRs above it");
    assert_eq!(LandError::ApprovalRequired { pr_number: 12 }.message(), "PR #12 requires approval");
    assert_eq!(LandError::ApiError { message: "x".to_string() }.message(), "API error: x");
    assert_eq!(LandError::NoPRsMergeable { reason: "r".to_string() }.message(), "No PRs are mergeable: r");
}

#[test]
fn failed_close_keeps_merge_address_and_count() {
    let prs = vec![
        make_pr(1, "feature-1", "main", true, false),
        make_pr(2, "feature-2", "feature-1", true, false),
        make_pr(3, "feature-3", "feature-2", true, false),
    ];
    let plan = create_land_plan(&make_stack(prs), "o/r", &LandOptions::default()).unwrap();
    let (p, _) = begin_land(&plan);
    assert_eq!(p.closed, 0);
    let (p, _) = advance_land(&plan, &p, LandOutcome::Done);
    let (p, _) = advance_land(&plan, &p, LandOutcome::Merged { url: "https://x/pull/3".to_string() });
    let (p, _) = advance_land(&plan, &p, LandOutcome::Done);
    assert_eq!(p.closed, 1);
    let (p, a) = advance_land(&plan, &p, LandOutcome::Error { message: "boom".to_string() });
    assert_eq!(p.stage, LandStage::Over);
    assert_eq!(p.closed, 1);
    assert_eq!(p.merge_url, "https://x/pull/3");
    assert!(matches!(a, LandAction::Failed(LandError::ApiError { ref message }) if message == "Failed to close PR #2: boom"));
}
