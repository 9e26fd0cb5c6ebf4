use gh_stack::api::{after_attempt, is_rate_limited, parse_rate_limit_headers, RetryStep, MAX_RETRIES};
use gh_stack::land::{create_land_plan, FlatDep, LandOptions};
use gh_stack::pull_request::{PullRequest, PullRequestReview, PullRequestReviewState, PullRequestStatus};
use gh_stack::order::sort_stack;
use gh_stack::stack::{discover_stack_from_index, group_into_stacks, PrIndex};

fn pr(number: usize, head: &str, base: &str, approved: bool, draft: bool) -> PullRequest {
    let reviews = if approved {
        vec![PullRequestReview::new_for_test(PullRequestReviewState::APPROVED)]
    } else {
        vec![]
    };
    PullRequest::new_for_test(number, head, base, &format!("PR {}", number), PullRequestStatus::Open, draft, None, reviews)
}

fn chain(prs: Vec<PullRequest>) -> FlatDep {
    let mut out = Vec::new();
    for i in 0..prs.len() {
        let parent = if i > 0 { Some(prs[i - 1].clone()) } else { None };
        out.push((prs[i].clone(), parent));
    }
    out
}

fn numbers(prs: &[PullRequest]) -> Vec<usize> {
    prs.iter().map(|p| p.number()).collect()
}

#[test]
fn approval_gating_stops_at_first_unapproved() {
    let stack = chain(vec![pr(1, "f1", "main", true, false), pr(2, "f2", "f1", false, false), pr(3, "f3", "f2", true, false)]);
    let plan = create_land_plan(&stack, "o/r", &LandOptions { require_approval: true, max_count: None }).unwrap();
    assert_eq!(plan.top_pr.number(), 1);
    assert!(plan.prs_to_close.is_empty());
}

#[test]
fn draft_gating_stops_at_first_draft() {
    let stack = chain(vec![pr(1, "f1", "main", true, false), pr(2, "f2", "f1", true, true), pr(3, "f3", "f2", true, false)]);
    let plan = create_land_plan(&stack, "o/r", &LandOptions::default()).unwrap();
    assert_eq!(plan.top_pr.number(), 1);
    assert!(plan.prs_to_close.is_empty());
}

#[test]
fn full_stack_lands_on_trunk() {
    let stack = chain(vec![pr(1, "f1", "main", true, false), pr(2, "f2", "f1", true, false), pr(3, "f3", "f2", true, false)]);
    let plan = create_land_plan(&stack, "o/r", &LandOptions::default()).unwrap();
    assert_eq!(plan.top_pr.number(), 3);
    assert_eq!(numbers(&plan.prs_to_close), vec![1, 2]);
    assert_eq!(plan.target_branch, "main");
}

#[test]
fn count_cap_limits_the_prefix() {
    let stack = chain(vec![pr(1, "f1", "main", true, false), pr(2, "f2", "f1", true, false), pr(3, "f3", "f2", true, false)]);
    let plan = create_land_plan(&stack, "o/r", &LandOptions { require_approval: true, max_count: Some(2) }).unwrap();
    assert_eq!(plan.top_pr.number(), 2);
    assert_eq!(numbers(&plan.prs_to_close), vec![1]);
}

#[test]
fn grouping_puts_the_larger_stack_first() {
    let stacks = group_into_stacks(vec![pr(1, "f1", "main", false, false), pr(2, "f2", "f1", false, false), pr(3, "other", "main", false, false)], "main");
    assert_eq!(stacks.len(), 2);
    assert_eq!(numbers(&stacks[0]), vec![1, 2]);
    assert_eq!(numbers(&stacks[1]), vec![3]);
}

#[test]
fn retry_gives_up_after_three_rate_limited_attempts() {
    let mut calls = 0;
    let mut waited = Vec::new();
    let mut attempt: u32 = 0;
    let outcome = loop {
        calls += 1;
        let limited = is_rate_limited(429, Some("0"));
        let info = parse_rate_limit_headers(Some("1700000000"), Some("5000"), Some("0"));
        match after_attempt(attempt, limited, info) {
            RetryStep::Accept => break None,
            RetryStep::Wait { delay_ms } => {
                waited.push(delay_ms);
                attempt += 1;
            }
            RetryStep::GiveUp(e) => break Some(e),
        }
    };
    let e = outcome.expect("rate-limit error");
    assert_eq!(calls, MAX_RETRIES);
    assert_eq!(waited, vec![1000, 2000]);
    assert_eq!(e.limit, Some(5000));
    assert_eq!(e.remaining, Some(0));
    assert_eq!(e.reset_time, Some(1700000000));
}

#[test]
fn sort_is_the_same_for_every_order_of_a_chain() {
    let base = vec![pr(1, "f1", "main", false, false), pr(2, "f2", "f1", false, false), pr(3, "f3", "f2", false, false), pr(4, "g", "f1", false, false)];
    let orders = [[0, 1, 2, 3], [3, 2, 1, 0], [2, 0, 3, 1], [1, 3, 0, 2]];
    let first = numbers(&sort_stack(orders[0].iter().map(|&i| base[i].clone()).collect(), "main"));
    for o in orders.iter() {
        let sorted = sort_stack(o.iter().map(|&i| base[i].clone()).collect(), "main");
        assert_eq!(numbers(&sorted), first);
    }
    assert_eq!(first, vec![1, 2, 3, 4]);
}

#[test]
fn discovery_from_any_member_of_a_chain_finds_all() {
    let prs = vec![pr(1, "f1", "main", false, false), pr(2, "f2", "f1", false, false), pr(3, "f3", "f2", false, false), pr(4, "f4", "f3", false, false)];
    for i in 0..prs.len() {
        let index = PrIndex::from_prs(prs.clone());
        let stack = discover_stack_from_index(&index, prs[i].clone(), "main");
        assert_eq!(numbers(&stack), vec![1, 2, 3, 4]);
    }
}

#[test]
fn filtering_never_plans_closed_or_merged() {
    let closed = PullRequest::new_for_test(2, "f2", "f1", "c", PullRequestStatus::Closed, false, None, vec![]);
    let stack = chain(vec![pr(1, "f1", "main", true, false), closed, pr(3, "f3", "f2", true, false)]);
    let plan = create_land_plan(&stack, "o/r", &LandOptions::default()).unwrap();
    assert_eq!(plan.top_pr.number(), 3);
    assert_eq!(numbers(&plan.prs_to_close), vec![1]);
}
