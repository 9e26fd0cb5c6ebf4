use gh_stack::pull_request::{PullRequest, PullRequestStatus};
use gh_stack::order::sort_stack;
use gh_stack::stack::{discover_stack_from_index, group_into_stacks, PrIndex};

fn make_test_pr(number: usize, head: &str, base: &str) -> PullRequest {
    PullRequest::new_for_test(number, head, base, &format!("PR {}", number), PullRequestStatus::Open, false, None, vec![])
}

#[test]
fn test_pr_index_get_by_head() {
    let pr1 = make_test_pr(1, "feature-1", "main");
    let pr2 = make_test_pr(2, "feature-2", "feature-1");
    let index = PrIndex::from_prs(vec![pr1, pr2]);
    assert!(index.get_by_head("feature-1").is_some());
    assert_eq!(index.get_by_head("feature-1").unwrap().number(), 1);
    assert!(index.get_by_head("feature-2").is_some());
    assert!(index.get_by_head("nonexistent").is_none());
}

#[test]
fn test_pr_index_get_by_base() {
    let pr1 = make_test_pr(1, "feature-1", "main");
    let pr2 = make_test_pr(2, "feature-2", "main");
    let pr3 = make_test_pr(3, "feature-3", "feature-1");
    let index = PrIndex::from_prs(vec![pr1, pr2, pr3]);
    let main_children = index.get_by_base("main");
    assert_eq!(main_children.len(), 2);
    let feature1_children = index.get_by_base("feature-1");
    assert_eq!(feature1_children.len(), 1);
    assert_eq!(feature1_children[0].number(), 3);
    let no_children = index.get_by_base("feature-3");
    assert!(no_children.is_empty());
}

#[test]
fn index_lookup_by_head_takes_the_later_duplicate() {
    let index = PrIndex::from_prs(vec![make_test_pr(1, "dup", "main"), make_test_pr(2, "dup", "main")]);
    assert_eq!(index.get_by_head("dup").unwrap().number(), 2);
}

#[test]
fn test_discover_stack_from_index_linear() {
    let pr1 = make_test_pr(1, "feature-1", "main");
    let pr2 = make_test_pr(2, "feature-2", "feature-1");
    let pr3 = make_test_pr(3, "feature-3", "feature-2");
    let index = PrIndex::from_prs(vec![pr1.clone(), pr2, pr3]);
    let stack = discover_stack_from_index(&index, pr1, "main");
    assert_eq!(stack.len(), 3);
    assert_eq!(stack[0].number(), 1);
    assert_eq!(stack[1].number(), 2);
    assert_eq!(stack[2].number(), 3);
}

#[test]
fn test_discover_stack_from_index_from_top() {
    let pr1 = make_test_pr(1, "feature-1", "main");
    let pr2 = make_test_pr(2, "feature-2", "feature-1");
    let pr3 = make_test_pr(3, "feature-3", "feature-2");
    let index = PrIndex::from_prs(vec![pr1, pr2, pr3.clone()]);
    let stack = discover_stack_from_index(&index, pr3, "main");
    assert_eq!(stack.len(), 3);
    assert_eq!(stack[0].number(), 1);
    assert_eq!(stack[2].number(), 3);
}

#[test]
fn test_discover_stack_from_index_single_pr() {
    let pr = make_test_pr(1, "feature", "main");
    let index = PrIndex::from_prs(vec![pr.clone()]);
    let stack = discover_stack_from_index(&index, pr, "main");
    assert_eq!(stack.len(), 1);
    assert_eq!(stack[0].number(), 1);
}

#[test]
fn test_discover_stack_from_index_unrelated_prs() {
    let pr1 = make_test_pr(1, "feature-1", "main");
    let pr2 = make_test_pr(2, "other-stack", "main");
    let index = PrIndex::from_prs(vec![pr1.clone(), pr2]);
    let stack = discover_stack_from_index(&index, pr1, "main");
    assert_eq!(stack.len(), 1);
    assert_eq!(stack[0].number(), 1);
}

#[test]
fn test_group_into_stacks_single_stack() {
    let pr1 = make_test_pr(1, "feature-1", "main");
    let pr2 = make_test_pr(2, "feature-2", "feature-1");
    let stacks = group_into_stacks(vec![pr1, pr2], "main");
    assert_eq!(stacks.len(), 1);
    assert_eq!(stacks[0].len(), 2);
}

#[test]
fn test_group_into_stacks_multiple_stacks() {
    let pr1 = make_test_pr(1, "feature-1", "main");
    let pr2 = make_test_pr(2, "feature-2", "feature-1");
    let pr3 = make_test_pr(3, "other-1", "main");
    let stacks = group_into_stacks(vec![pr1, pr2, pr3], "main");
    assert_eq!(stacks.len(), 2);
    assert_eq!(stacks[0].len(), 2);
    assert_eq!(stacks[1].len(), 1);
}

#[test]
fn test_group_into_stacks_empty() {
    let stacks = group_into_stacks(vec![], "main");
    assert!(stacks.is_empty());
}

#[test]
fn test_sort_stack_linear() {
    let pr1 = make_test_pr(1, "feature-1", "main");
    let pr2 = make_test_pr(2, "feature-2", "feature-1");
    let pr3 = make_test_pr(3, "feature-3", "feature-2");
    let prs = vec![pr3, pr1, pr2];
    let sorted = sort_stack(prs, "main");
    assert_eq!(sorted.len(), 3);
    assert_eq!(sorted[0].number(), 1);
    assert_eq!(sorted[1].number(), 2);
    assert_eq!(sorted[2].number(), 3);
}

#[test]
fn test_sort_stack_single() {
    let pr = make_test_pr(1, "feature", "main");
    let sorted = sort_stack(vec![pr], "main");
    assert_eq!(sorted.len(), 1);
    assert_eq!(sorted[0].number(), 1);
}

#[test]
fn test_sort_stack_empty() {
    let sorted = sort_stack(vec![], "main");
    assert!(sorted.is_empty());
}

#[test]
fn sort_stack_fan_out_takes_lowest_number_first() {
    let prs = vec![make_test_pr(5, "b", "root"), make_test_pr(4, "a", "root"), make_test_pr(1, "root", "main")];
    let sorted = sort_stack(prs, "main");
    let numbers: Vec<usize> = sorted.iter().map(|p| p.number()).collect();
    assert_eq!(numbers, vec![1, 4, 5]);
}

#[test]
fn sort_stack_cycle_returns_every_pr_in_input_order() {
    let prs = vec![make_test_pr(2, "x", "y"), make_test_pr(1, "y", "x")];
    let sorted = sort_stack(prs, "main");
    let numbers: Vec<usize> = sorted.iter().map(|p| p.number()).collect();
    assert_eq!(numbers, vec![2, 1]);
}

#[test]
fn discover_stack_terminates_on_cycle() {
    let a = make_test_pr(1, "a", "b");
    let b = make_test_pr(2, "b", "a");
    let index = PrIndex::from_prs(vec![a.clone(), b]);
    let stack = discover_stack_from_index(&index, a, "main");
    let mut numbers: Vec<usize> = stack.iter().map(|p| p.number()).collect();
    numbers.sort();
    assert_eq!(numbers, vec![1, 2]);
}

#[test]
fn group_leaves_out_unrooted_prs() {
    let stacks = group_into_stacks(vec![make_test_pr(1, "a", "b"), make_test_pr(2, "b", "a"), make_test_pr(3, "c", "main")], "main");
    assert_eq!(stacks.len(), 1);
    assert_eq!(stacks[0][0].number(), 3);
}

#[test]
fn discovery_result_has_distinct_heads_and_the_start() {
    let a = make_test_pr(1, "a", "b");
    let b = make_test_pr(2, "b", "a");
    let c = make_test_pr(3, "c", "a");
    let index = PrIndex::from_prs(vec![a, b.clone(), c]);
    let stack = discover_stack_from_index(&index, b, "main");
    let mut heads: Vec<String> = stack.iter().map(|p| p.head().to_string()).collect();
    heads.sort();
    heads.dedup();
    assert_eq!(heads.len(), stack.len());
    assert!(stack.len() <= 4);
    assert!(stack.iter().any(|p| p.number() == 2));
}
