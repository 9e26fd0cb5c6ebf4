//! Ordering a stack bottom to top, and why the order is total and deterministic.
use vstd::prelude::*;

use crate::pull_request::{same_pr, same_prs, PullRequest};
use crate::text::owned;

verus! {


/// Whether position `i` comes before position `j` in the tie-breaking order: lower PR number
/// first, then earlier position.
pub open spec fn before(prs: Seq<PullRequest>, i: int, j: int) -> bool {
    prs[i].number < prs[j].number || (prs[i].number == prs[j].number && i <= j)
}

/// Position `i` is unplaced and targets the branch `cur`.
pub open spec fn direct_ok(prs: Seq<PullRequest>, placed: Seq<int>, cur: Seq<char>, i: int) -> bool {
    0 <= i < prs.len() && !placed.contains(i) && prs[i].base_spec() == cur
}

/// Some placed position has `branch` as its head.
pub open spec fn placed_head(prs: Seq<PullRequest>, placed: Seq<int>, branch: Seq<char>) -> bool {
    exists|k: int| 0 <= k < placed.len() && prs[placed[k]].head_spec() == branch
}

/// Position `i` is unplaced and targets trunk or the head of a placed pull request.
pub open spec fn fallback_ok(
    prs: Seq<PullRequest>,
    placed: Seq<int>,
    trunk: Seq<char>,
    i: int,
) -> bool {
    &&& 0 <= i < prs.len()
    &&& !placed.contains(i)
    &&& (prs[i].base_spec() == trunk || placed_head(prs, placed, prs[i].base_spec()))
}

pub open spec fn direct_best(prs: Seq<PullRequest>, placed: Seq<int>, cur: Seq<char>, i: int) -> bool {
    &&& direct_ok(prs, placed, cur, i)
    &&& forall|j: int| #[trigger] direct_ok(prs, placed, cur, j) ==> before(prs, i, j)
}

pub open spec fn fallback_best(
    prs: Seq<PullRequest>,
    placed: Seq<int>,
    trunk: Seq<char>,
    i: int,
) -> bool {
    &&& fallback_ok(prs, placed, trunk, i)
    &&& forall|j: int| #[trigger] fallback_ok(prs, placed, trunk, j) ==> before(prs, i, j)
}

/// The positions not in `placed`, in input order.
pub open spec fn unplaced(n: int, placed: Seq<int>) -> Seq<int>
    decreases n,
{
    if n <= 0 {
        Seq::empty()
    } else if placed.contains(n - 1) {
        unplaced(n - 1, placed)
    } else {
        unplaced(n - 1, placed).push(n - 1)
    }
}

/// The placement order from a given state: while some unplaced pull request targets the
/// current branch, place the one with the lowest number; else one that targets trunk or a
/// placed head; else append everything left in input order.
pub open spec fn greedy(
    prs: Seq<PullRequest>,
    trunk: Seq<char>,
    placed: Seq<int>,
    cur: Seq<char>,
) -> Seq<int>
    decreases prs.len() - placed.len(),
{
    if placed.len() >= prs.len() {
        placed
    } else if exists|i: int| direct_ok(prs, placed, cur, i) {
        let i = choose|i: int| direct_best(prs, placed, cur, i);
        greedy(prs, trunk, placed.push(i), prs[i].head_spec())
    } else if exists|i: int| fallback_ok(prs, placed, trunk, i) {
        let i = choose|i: int| fallback_best(prs, placed, trunk, i);
        greedy(prs, trunk, placed.push(i), prs[i].head_spec())
    } else {
        placed + unplaced(prs.len() as int, placed)
    }
}

/// The positions of `prs` in the order in which `sort_stack` returns them.
pub open spec fn sort_order(prs: Seq<PullRequest>, trunk: Seq<char>) -> Seq<int> {
    greedy(prs, trunk, Seq::empty(), trunk)
}

/// The stack `sort_stack` returns for `prs`.
pub open spec fn sorted_spec(prs: Seq<PullRequest>, trunk: Seq<char>) -> Seq<PullRequest> {
    sort_order(prs, trunk).map_values(|i: int| prs[i])
}

/// `order` lists every position below `n` exactly once.
pub open spec fn is_permutation_of_range(order: Seq<int>, n: int) -> bool {
    &&& order.len() == n
    &&& order.no_duplicates()
    &&& forall|k: int| 0 <= k < order.len() ==> 0 <= #[trigger] order[k] < n
}

proof fn lemma_unplaced(n: int, placed: Seq<int>)
    requires
        n >= 0,
    ensures
        unplaced(n, placed).no_duplicates(),
        forall|k: int|
            0 <= k < unplaced(n, placed).len() ==> 0 <= #[trigger] unplaced(n, placed)[k] < n
                && !placed.contains(unplaced(n, placed)[k]),
        forall|i: int| 0 <= i < n && !placed.contains(i) ==> unplaced(n, placed).contains(i),
    decreases n,
{
    if n > 0 {
        lemma_unplaced(n - 1, placed);
        if !placed.contains(n - 1) {
            let u = unplaced(n - 1, placed);
            assert forall|i: int| 0 <= i < n && !placed.contains(i) implies unplaced(
                n,
                placed,
            ).contains(i) by {
                if i < n - 1 {
                    let k = choose|k: int| 0 <= k < u.len() && u[k] == i;
                    assert(u.push(n - 1)[k] == i);
                } else {
                    assert(u.push(n - 1)[u.len() as int] == i);
                }
            }
        }
    }
}

/// The placement order lists every position exactly once, whatever the data: the ordering
/// neither drops nor repeats a pull request, also where the branches form a cycle.
pub proof fn lemma_greedy_permutation(
    prs: Seq<PullRequest>,
    trunk: Seq<char>,
    placed: Seq<int>,
    cur: Seq<char>,
)
    requires
        placed.no_duplicates(),
        forall|k: int| 0 <= k < placed.len() ==> 0 <= #[trigger] placed[k] < prs.len(),
    ensures
        is_permutation_of_range(greedy(prs, trunk, placed, cur), prs.len() as int),
    decreases prs.len() - placed.len(),
{
    if placed.len() >= prs.len() {
        lemma_distinct_in_range_bound(placed, prs.len() as int);
        lemma_full_is_permutation(placed, prs.len() as int);
    } else if exists|i: int| direct_ok(prs, placed, cur, i) {
        lemma_direct_best_exists(prs, placed, cur);
        let i = choose|i: int| direct_best(prs, placed, cur, i);
        lemma_push_distinct(placed, i);
        lemma_greedy_permutation(prs, trunk, placed.push(i), prs[i].head_spec());
    } else if exists|i: int| fallback_ok(prs, placed, trunk, i) {
        lemma_fallback_best_exists(prs, placed, trunk);
        let i = choose|i: int| fallback_best(prs, placed, trunk, i);
        lemma_push_distinct(placed, i);
        lemma_greedy_permutation(prs, trunk, placed.push(i), prs[i].head_spec());
    } else {
        let n = prs.len() as int;
        let u = unplaced(n, placed);
        lemma_unplaced(n, placed);
        let r = placed + u;
        assert forall|a: int, b: int| 0 <= a < r.len() && 0 <= b < r.len() && a != b implies r[a]
            != r[b] by {
            if a < placed.len() && b >= placed.len() {
                assert(!placed.contains(u[b - placed.len()]));
            } else if b < placed.len() && a >= placed.len() {
                assert(!placed.contains(u[a - placed.len()]));
            }
        }
        assert forall|i: int| 0 <= i < n implies r.contains(i) by {
            if placed.contains(i) {
                let k = choose|k: int| 0 <= k < placed.len() && placed[k] == i;
                assert(r[k] == i);
            } else {
                let k = choose|k: int| 0 <= k < u.len() && u[k] == i;
                assert(r[placed.len() + k] == i);
            }
        }
        lemma_covering_len(r, n);
    }
}

pub(crate) proof fn lemma_push_distinct(placed: Seq<int>, i: int)
    requires
        placed.no_duplicates(),
        !placed.contains(i),
    ensures
        placed.push(i).no_duplicates(),
{
    assert forall|a: int, b: int|
        0 <= a < placed.len() + 1 && 0 <= b < placed.len() + 1 && a != b implies placed.push(
        i,
    )[a] != placed.push(i)[b] by {
        if a == placed.len() {
            assert(placed[b] != i);
        } else if b == placed.len() {
            assert(placed[a] != i);
        }
    }
}

/// A sequence of distinct positions below `n` has at most `n` entries.
pub(crate) proof fn lemma_distinct_in_range_bound(s: Seq<int>, n: int)
    requires
        n >= 0,
        s.no_duplicates(),
        forall|k: int| 0 <= k < s.len() ==> 0 <= #[trigger] s[k] < n,
    ensures
        s.len() <= n,
{
    s.unique_seq_to_set();
    if n >= 0 {
        vstd::set_lib::lemma_int_range(0, n);
        assert forall|x: int| s.to_set().contains(x) implies vstd::set_lib::set_int_range(
            0,
            n,
        ).contains(x) by {
            let k = choose|k: int| 0 <= k < s.len() && s[k] == x;
        }
        assert(s.to_set().subset_of(vstd::set_lib::set_int_range(0, n)));
        vstd::set_lib::lemma_len_subset(s.to_set(), vstd::set_lib::set_int_range(0, n));
    }
}

/// `n` distinct positions below `n` cover every position below `n`.
pub(crate) proof fn lemma_full_is_permutation(s: Seq<int>, n: int)
    requires
        n >= 0,
        s.no_duplicates(),
        forall|k: int| 0 <= k < s.len() ==> 0 <= #[trigger] s[k] < n,
        s.len() >= n,
    ensures
        is_permutation_of_range(s, n),
{
    lemma_distinct_in_range_bound(s, n);
}

/// `n` distinct positions below `n` include each position below `n`.
pub(crate) proof fn lemma_permutation_covers(s: Seq<int>, n: int, i: int)
    requires
        is_permutation_of_range(s, n),
        0 <= i < n,
    ensures
        s.contains(i),
{
    if !s.contains(i) {
        s.unique_seq_to_set();
        vstd::set_lib::lemma_int_range(0, n);
        let r = vstd::set_lib::set_int_range(0, n).remove(i);
        assert forall|x: int| s.to_set().contains(x) implies r.contains(x) by {
            let k = choose|k: int| 0 <= k < s.len() && s[k] == x;
        }
        vstd::set_lib::lemma_len_subset(s.to_set(), r);
    }
}

/// A sequence of distinct positions below `n` that holds each of them has length `n`.
pub(crate) proof fn lemma_covering_len(s: Seq<int>, n: int)
    requires
        n >= 0,
        s.no_duplicates(),
        forall|k: int| 0 <= k < s.len() ==> 0 <= #[trigger] s[k] < n,
        forall|i: int| 0 <= i < n ==> s.contains(i),
    ensures
        s.len() == n,
{
    lemma_distinct_in_range_bound(s, n);
    s.unique_seq_to_set();
    vstd::set_lib::lemma_int_range(0, n);
    assert(vstd::set_lib::set_int_range(0, n).subset_of(s.to_set()));
    vstd::set_lib::lemma_len_subset(vstd::set_lib::set_int_range(0, n), s.to_set());
}

/// Among the candidates of a non-empty choice there is a least one in `before` order.
proof fn lemma_direct_best_exists(prs: Seq<PullRequest>, placed: Seq<int>, cur: Seq<char>)
    requires
        exists|i: int| direct_ok(prs, placed, cur, i),
    ensures
        exists|i: int| direct_best(prs, placed, cur, i),
{
    let w = choose|i: int| direct_ok(prs, placed, cur, i);
    assert(ok_of(prs, placed, cur, Seq::empty(), false, w));
    let b = least_below(prs, placed, cur, Seq::empty(), false, prs.len() as int);
    assert forall|j: int| #[trigger] direct_ok(prs, placed, cur, j) implies before(prs, b, j) by {
        assert(ok_of(prs, placed, cur, Seq::empty(), false, j));
    }
    assert(direct_best(prs, placed, cur, b));
}

proof fn lemma_fallback_best_exists(prs: Seq<PullRequest>, placed: Seq<int>, trunk: Seq<char>)
    requires
        exists|i: int| fallback_ok(prs, placed, trunk, i),
    ensures
        exists|i: int| fallback_best(prs, placed, trunk, i),
{
    let w = choose|i: int| fallback_ok(prs, placed, trunk, i);
    assert(ok_of(prs, placed, Seq::empty(), trunk, true, w));
    let b = least_below(prs, placed, Seq::empty(), trunk, true, prs.len() as int);
    assert forall|j: int| #[trigger] fallback_ok(prs, placed, trunk, j) implies before(
        prs,
        b,
        j,
    ) by {
        assert(ok_of(prs, placed, Seq::empty(), trunk, true, j));
    }
    assert(fallback_best(prs, placed, trunk, b));
}

pub open spec fn ok_of(
    prs: Seq<PullRequest>,
    placed: Seq<int>,
    cur: Seq<char>,
    trunk: Seq<char>,
    fallback: bool,
    i: int,
) -> bool {
    if fallback {
        fallback_ok(prs, placed, trunk, i)
    } else {
        direct_ok(prs, placed, cur, i)
    }
}

/// The least candidate below `m`, where there is one.
proof fn least_below(
    prs: Seq<PullRequest>,
    placed: Seq<int>,
    cur: Seq<char>,
    trunk: Seq<char>,
    fallback: bool,
    m: int,
) -> (b: int)
    requires
        m <= prs.len(),
        exists|j: int| 0 <= j < m && #[trigger] ok_of(prs, placed, cur, trunk, fallback, j),
    ensures
        0 <= b < m,
        ok_of(prs, placed, cur, trunk, fallback, b),
        forall|j: int|
            0 <= j < m && #[trigger] ok_of(prs, placed, cur, trunk, fallback, j) ==> before(
                prs,
                b,
                j,
            ),
    decreases m,
{
    if exists|j: int| 0 <= j < m - 1 && #[trigger] ok_of(prs, placed, cur, trunk, fallback, j) {
        let b0 = least_below(prs, placed, cur, trunk, fallback, m - 1);
        if ok_of(prs, placed, cur, trunk, fallback, m - 1) && !before(prs, b0, m - 1) {
            m - 1
        } else {
            b0
        }
    } else {
        m - 1
    }
}

pub(crate) proof fn lemma_direct_unique(prs: Seq<PullRequest>, placed: Seq<int>, cur: Seq<char>, i: int)
    requires
        direct_best(prs, placed, cur, i),
    ensures
        (choose|j: int| direct_best(prs, placed, cur, j)) == i,
{
    let j = choose|j: int| direct_best(prs, placed, cur, j);
    assert(before(prs, i, j) && before(prs, j, i));
}

pub(crate) proof fn lemma_fallback_unique(prs: Seq<PullRequest>, placed: Seq<int>, trunk: Seq<char>, i: int)
    requires
        fallback_best(prs, placed, trunk, i),
    ensures
        (choose|j: int| fallback_best(prs, placed, trunk, j)) == i,
{
    let j = choose|j: int| fallback_best(prs, placed, trunk, j);
    assert(before(prs, i, j) && before(prs, j, i));
}

/// `order` lists exactly the positions in `placed`, and `flags` marks them.
pub open spec fn tracks(order: Seq<usize>, placed: Seq<int>, flags: Seq<bool>, n: int) -> bool {
    &&& order.len() == placed.len()
    &&& forall|k: int| 0 <= k < order.len() ==> order[k] as int == #[trigger] placed[k]
    &&& flags.len() == n
    &&& forall|i: int| 0 <= i < n ==> (#[trigger] flags[i] <==> placed.contains(i))
    &&& placed.no_duplicates()
    &&& forall|k: int| 0 <= k < placed.len() ==> 0 <= #[trigger] placed[k] < n
}

/// The least unplaced position that targets `cur`.
fn find_direct(
    prs: &Vec<PullRequest>,
    flags: &Vec<bool>,
    cur: &String,
    Ghost(placed): Ghost<Seq<int>>,
) -> (r: Option<usize>)
    requires
        flags.len() == prs.len(),
        forall|i: int| 0 <= i < prs.len() ==> (#[trigger] flags@[i] <==> placed.contains(i)),
    ensures
        r is None ==> !exists|i: int| direct_ok(prs@, placed, cur@, i),
        r is Some ==> direct_best(prs@, placed, cur@, r->0 as int),
{
    let mut best: Option<usize> = None;
    let mut i: usize = 0;
    while i < prs.len()
        invariant
            i <= prs.len() == flags.len(),
            forall|k: int| 0 <= k < prs.len() ==> (#[trigger] flags@[k] <==> placed.contains(k)),
            best is None ==> forall|j: int| 0 <= j < i ==> !#[trigger] direct_ok(prs@, placed, cur@, j),
            best is Some ==> best->0 < i && direct_ok(prs@, placed, cur@, best->0 as int),
            best is Some ==> forall|j: int|
                0 <= j < i && #[trigger] direct_ok(prs@, placed, cur@, j) ==> before(
                    prs@,
                    best->0 as int,
                    j,
                ),
        decreases prs.len() - i,
    {
        if !flags[i] && prs[i].base.gitref == *cur {
            match best {
                None => {
                    best = Some(i);
                },
                Some(b) => {
                    if prs[i].number < prs[b].number {
                        best = Some(i);
                    }
                },
            }
        }
        i = i + 1;
    }
    best
}

/// Some placed pull request has `branch` as its head.
fn has_placed_head(prs: &Vec<PullRequest>, order: &Vec<usize>, branch: &String, Ghost(placed): Ghost<Seq<int>>) -> (r: bool)
    requires
        order.len() == placed.len(),
        forall|k: int| 0 <= k < order.len() ==> order@[k] as int == #[trigger] placed[k],
        forall|k: int| 0 <= k < placed.len() ==> 0 <= #[trigger] placed[k] < prs.len(),
    ensures
        r == placed_head(prs@, placed, branch@),
{
    let mut k: usize = 0;
    while k < order.len()
        invariant
            k <= order.len() == placed.len(),
            forall|t: int| 0 <= t < order.len() ==> order@[t] as int == #[trigger] placed[t],
            forall|t: int| 0 <= t < placed.len() ==> 0 <= #[trigger] placed[t] < prs.len(),
            forall|t: int| 0 <= t < k ==> prs@[#[trigger] placed[t]].head_spec() != branch@,
        decreases order.len() - k,
    {
        assert(0 <= placed[k as int] < prs.len());
        if prs[order[k]].head.gitref == *branch {
            return true;
        }
        k = k + 1;
    }
    false
}

/// The least unplaced position that targets trunk or a placed head.
fn find_fallback(
    prs: &Vec<PullRequest>,
    flags: &Vec<bool>,
    order: &Vec<usize>,
    trunk: &String,
    Ghost(placed): Ghost<Seq<int>>,
) -> (r: Option<usize>)
    requires
        tracks(order@, placed, flags@, prs.len() as int),
    ensures
        r is None ==> !exists|i: int| fallback_ok(prs@, placed, trunk@, i),
        r is Some ==> fallback_best(prs@, placed, trunk@, r->0 as int),
{
    let mut best: Option<usize> = None;
    let mut i: usize = 0;
    while i < prs.len()
        invariant
            i <= prs.len(),
            tracks(order@, placed, flags@, prs.len() as int),
            best is None ==> forall|j: int| 0 <= j < i ==> !#[trigger] fallback_ok(prs@, placed, trunk@, j),
            best is Some ==> best->0 < i && fallback_ok(prs@, placed, trunk@, best->0 as int),
            best is Some ==> forall|j: int|
                0 <= j < i && #[trigger] fallback_ok(prs@, placed, trunk@, j) ==> before(
                    prs@,
                    best->0 as int,
                    j,
                ),
        decreases prs.len() - i,
    {
        if !flags[i] && (prs[i].base.gitref == *trunk || has_placed_head(
            prs,
            order,
            &prs[i].base.gitref,
            Ghost(placed),
        )) {
            match best {
                None => {
                    best = Some(i);
                },
                Some(b) => {
                    if prs[i].number < prs[b].number {
                        best = Some(i);
                    }
                },
            }
        }
        i = i + 1;
    }
    best
}

/// Orders a stack bottom (closest to trunk) to top.
///
/// Starting from trunk, it repeatedly places the unplaced pull request with the lowest number
/// that targets the branch placed last; when none does, one that targets trunk or any placed
/// branch; when none does either, the rest in input order. Every input comes out exactly once
/// (`lemma_greedy_permutation`), also where the branches form a cycle.
pub fn sort_stack(prs: Vec<PullRequest>, trunk: &str) -> (r: Vec<PullRequest>)
    ensures
        r.len() == prs.len(),
        same_prs(r@, sorted_spec(prs@, trunk@)),
{
    let n = prs.len();
    let trunk_s = owned(trunk);
    let mut flags: Vec<bool> = Vec::new();
    while flags.len() < n
        invariant
            flags.len() <= n,
            forall|i: int| 0 <= i < flags.len() ==> !#[trigger] flags@[i],
        decreases n - flags.len(),
    {
        flags.push(false);
    }
    let mut order: Vec<usize> = Vec::new();
    let ghost mut placed: Seq<int> = Seq::empty();
    let mut cur: String = trunk_s.clone();
    let mut stuck = false;
    while order.len() < n
        invariant_except_break
            !stuck,
        invariant
            n == prs.len(),
            trunk_s@ == trunk@,
            tracks(order@, placed, flags@, n as int),
            greedy(prs@, trunk@, placed, cur@) == sort_order(prs@, trunk@),
        ensures
            !stuck ==> order.len() >= n,
            stuck ==> sort_order(prs@, trunk@) == placed + unplaced(n as int, placed),
        decreases n - order.len(),
    {
        let next = match find_direct(&prs, &flags, &cur, Ghost(placed)) {
            Some(i) => {
                proof {
                    lemma_direct_unique(prs@, placed, cur@, i as int);
                }
                Some(i)
            },
            None => match find_fallback(&prs, &flags, &order, &trunk_s, Ghost(placed)) {
                Some(i) => {
                    proof {
                        lemma_fallback_unique(prs@, placed, trunk@, i as int);
                    }
                    Some(i)
                },
                None => None,
            },
        };
        match next {
            Some(i) => {
                let ghost old_placed = placed;
                let ghost old_flags = flags@;
                proof {
                    lemma_push_distinct(placed, i as int);
                    placed = placed.push(i as int);
                }
                flags.set(i, true);
                order.push(i);
                cur = prs[i].head.gitref.clone();
                proof {
                    assert forall|j: int| 0 <= j < n implies (#[trigger] flags@[j]
                        <==> placed.contains(j)) by {
                        if j == i {
                            assert(placed[old_placed.len() as int] == j);
                        } else {
                            if placed.contains(j) {
                                let k = choose|k: int| 0 <= k < placed.len() && placed[k] == j;
                                assert(old_placed[k] == j);
                            }
                            if old_placed.contains(j) {
                                let k = choose|k: int| 0 <= k < old_placed.len() && old_placed[k] == j;
                                assert(placed[k] == j);
                            }
                        }
                    }
                }
            },
            None => {
                assert(sort_order(prs@, trunk@) == placed + unplaced(n as int, placed));
                stuck = true;
                break;
            },
        }
    }
    proof {
        if !stuck {
            lemma_distinct_in_range_bound(placed, n as int);
            lemma_unplaced(n as int, placed);
            let u = unplaced(n as int, placed);
            if u.len() > 0 {
                lemma_permutation_covers(placed, n as int, u[0]);
            }
            assert(placed + u =~= placed);
        }
        assert(sort_order(prs@, trunk@) == placed + unplaced(n as int, placed));
    }
    let ghost mid = placed;
    let mut i: usize = 0;
    while i < n
        invariant
            n == prs.len(),
            i <= n,
            order.len() == placed.len(),
            forall|k: int| 0 <= k < order.len() ==> order@[k] as int == #[trigger] placed[k],
            placed =~= mid + unplaced(i as int, mid),
            flags.len() == n,
            forall|k: int| 0 <= k < n ==> (#[trigger] flags@[k] <==> mid.contains(k)),
        decreases n - i,
    {
        if !flags[i] {
            order.push(i);
            proof {
                assert((mid + unplaced(i as int, mid)).push(i as int) =~= mid + unplaced(
                    i as int,
                    mid,
                ).push(i as int));
                placed = placed.push(i as int);
            }
        }
        i = i + 1;
    }
    proof {
        lemma_greedy_permutation(prs@, trunk@, Seq::empty(), trunk@);
        assert(placed == sort_order(prs@, trunk@));
    }
    let mut r: Vec<PullRequest> = Vec::new();
    let mut k: usize = 0;
    while k < order.len()
        invariant
            n == prs.len(),
            k <= order.len(),
            r.len() == k,
            order.len() == n,
            forall|t: int| 0 <= t < order.len() ==> order@[t] as int == #[trigger] sort_order(prs@, trunk@)[t],
            is_permutation_of_range(sort_order(prs@, trunk@), n as int),
            forall|t: int| 0 <= t < k ==> same_pr(#[trigger] r@[t], prs@[order@[t] as int]),
        decreases order.len() - k,
    {
        assert(0 <= sort_order(prs@, trunk@)[k as int] < n);
        r.push(prs[order[k]].duplicate());
        k = k + 1;
    }
    r
}

/// The ordering places every pull request by following branches from trunk, never falling
/// back to input order.
pub open spec fn placed_by_branches(
    prs: Seq<PullRequest>,
    trunk: Seq<char>,
    placed: Seq<int>,
    cur: Seq<char>,
) -> bool
    decreases prs.len() - placed.len(),
{
    if placed.len() >= prs.len() {
        true
    } else if exists|i: int| direct_ok(prs, placed, cur, i) {
        let i = choose|i: int| direct_best(prs, placed, cur, i);
        placed_by_branches(prs, trunk, placed.push(i), prs[i].head_spec())
    } else if exists|i: int| fallback_ok(prs, placed, trunk, i) {
        let i = choose|i: int| fallback_best(prs, placed, trunk, i);
        placed_by_branches(prs, trunk, placed.push(i), prs[i].head_spec())
    } else {
        false
    }
}

/// `b` lists the pull requests of `a` rearranged by `sigma`: `b[j]` is `a[sigma[j]]`.
pub open spec fn rearranged(a: Seq<PullRequest>, b: Seq<PullRequest>, sigma: Seq<int>) -> bool {
    &&& a.len() == b.len()
    &&& is_permutation_of_range(sigma, a.len() as int)
    &&& forall|j: int| 0 <= j < b.len() ==> b[j] == a[#[trigger] sigma[j]]
}

/// No two pull requests share a number.
pub open spec fn numbers_unique(a: Seq<PullRequest>) -> bool {
    forall|x: int, y: int|
        0 <= x < a.len() && 0 <= y < a.len() && x != y ==> (#[trigger] a[x]).number != (#[trigger] a[y]).number
}

pub open spec fn map_positions(p: Seq<int>, sigma: Seq<int>) -> Seq<int> {
    p.map_values(|j: int| sigma[j])
}

proof fn lemma_sigma_injective(sigma: Seq<int>, n: int, x: int, y: int)
    requires
        is_permutation_of_range(sigma, n),
        0 <= x < n,
        0 <= y < n,
        sigma[x] == sigma[y],
    ensures
        x == y,
{
}

proof fn lemma_mapped_contains(pb: Seq<int>, sigma: Seq<int>, n: int, j: int)
    requires
        is_permutation_of_range(sigma, n),
        forall|k: int| 0 <= k < pb.len() ==> 0 <= #[trigger] pb[k] < n,
        0 <= j < n,
    ensures
        pb.contains(j) <==> map_positions(pb, sigma).contains(sigma[j]),
{
    let pa = map_positions(pb, sigma);
    if pb.contains(j) {
        let k = choose|k: int| 0 <= k < pb.len() && pb[k] == j;
        assert(pa[k] == sigma[j]);
    }
    if pa.contains(sigma[j]) {
        let k = choose|k: int| 0 <= k < pa.len() && pa[k] == sigma[j];
        lemma_sigma_injective(sigma, n, pb[k], j);
    }
}

proof fn lemma_greedy_rearranged(
    a: Seq<PullRequest>,
    b: Seq<PullRequest>,
    sigma: Seq<int>,
    trunk: Seq<char>,
    pb: Seq<int>,
    cur: Seq<char>,
)
    requires
        rearranged(a, b, sigma),
        numbers_unique(a),
        pb.no_duplicates(),
        forall|k: int| 0 <= k < pb.len() ==> 0 <= #[trigger] pb[k] < b.len(),
        placed_by_branches(a, trunk, map_positions(pb, sigma), cur),
    ensures
        map_positions(greedy(b, trunk, pb, cur), sigma) == greedy(a, trunk, map_positions(pb, sigma), cur),
    decreases b.len() - pb.len(),
{
    let n = a.len() as int;
    let pa = map_positions(pb, sigma);
    assert forall|j: int| 0 <= j < n implies (pb.contains(j) <==> #[trigger] pa.contains(sigma[j])) by {
        lemma_mapped_contains(pb, sigma, n, j);
    }
    assert forall|i: int| 0 <= i < n implies #[trigger] sigma.contains(i) by {
        lemma_permutation_covers(sigma, n, i);
    }
    assert forall|x: Seq<char>| placed_head(b, pb, x) <==> #[trigger] placed_head(a, pa, x) by {
        if placed_head(b, pb, x) {
            let k = choose|k: int| 0 <= k < pb.len() && b[pb[k]].head_spec() == x;
            assert(a[pa[k]] == b[pb[k]]);
        }
        if placed_head(a, pa, x) {
            let k = choose|k: int| 0 <= k < pa.len() && a[pa[k]].head_spec() == x;
            assert(a[pa[k]] == b[pb[k]]);
        }
    }
    assert forall|j: int| 0 <= j < n implies (direct_ok(b, pb, cur, j) <==> #[trigger] direct_ok(a, pa, cur, sigma[j])
        && (fallback_ok(b, pb, trunk, j) <==> fallback_ok(a, pa, trunk, sigma[j]))) by {
        assert(b[j] == a[sigma[j]]);
        lemma_mapped_contains(pb, sigma, n, j);
    }
    assert forall|j1: int, j2: int| 0 <= j1 < n && 0 <= j2 < n implies (before(b, j1, j2) <==> #[trigger] before(a, sigma[j1], sigma[j2])) by {
        assert(b[j1] == a[sigma[j1]]);
        assert(b[j2] == a[sigma[j2]]);
        if j1 != j2 {
            assert(sigma[j1] != sigma[j2]);
        }
    }
    if pb.len() >= b.len() {
    } else if exists|j: int| direct_ok(b, pb, cur, j) {
        lemma_direct_best_exists(b, pb, cur);
        let j = choose|j: int| direct_best(b, pb, cur, j);
        assert(direct_ok(a, pa, cur, sigma[j]));
        assert forall|i: int| #[trigger] direct_ok(a, pa, cur, i) implies before(a, sigma[j], i) by {
            assert(sigma.contains(i));
            let j2 = choose|j2: int| 0 <= j2 < sigma.len() && sigma[j2] == i;
            assert(direct_ok(b, pb, cur, j2));
        }
        lemma_direct_unique(a, pa, cur, sigma[j]);
        lemma_push_distinct(pb, j);
        assert(map_positions(pb.push(j), sigma) =~= pa.push(sigma[j]));
        assert(b[j] == a[sigma[j]]);
        lemma_greedy_rearranged(a, b, sigma, trunk, pb.push(j), b[j].head_spec());
    } else if exists|j: int| fallback_ok(b, pb, trunk, j) {
        lemma_fallback_best_exists(b, pb, trunk);
        let j = choose|j: int| fallback_best(b, pb, trunk, j);
        assert(fallback_ok(a, pa, trunk, sigma[j]));
        assert forall|i: int| 0 <= i < n && #[trigger] direct_ok(a, pa, cur, i) implies false by {
            assert(sigma.contains(i));
            let j2 = choose|j2: int| 0 <= j2 < sigma.len() && sigma[j2] == i;
            assert(direct_ok(b, pb, cur, j2));
        }
        assert forall|i: int| #[trigger] fallback_ok(a, pa, trunk, i) implies before(a, sigma[j], i) by {
            assert(sigma.contains(i));
            let j2 = choose|j2: int| 0 <= j2 < sigma.len() && sigma[j2] == i;
            assert(fallback_ok(b, pb, trunk, j2));
        }
        lemma_fallback_unique(a, pa, trunk, sigma[j]);
        lemma_push_distinct(pb, j);
        assert(map_positions(pb.push(j), sigma) =~= pa.push(sigma[j]));
        assert(b[j] == a[sigma[j]]);
        lemma_greedy_rearranged(a, b, sigma, trunk, pb.push(j), b[j].head_spec());
    } else {
        assert forall|i: int| 0 <= i < n && #[trigger] direct_ok(a, pa, cur, i) implies false by {
            assert(sigma.contains(i));
            let j2 = choose|j2: int| 0 <= j2 < sigma.len() && sigma[j2] == i;
            assert(direct_ok(b, pb, cur, j2));
        }
        assert forall|i: int| 0 <= i < n && #[trigger] fallback_ok(a, pa, trunk, i) implies false by {
            assert(sigma.contains(i));
            let j2 = choose|j2: int| 0 <= j2 < sigma.len() && sigma[j2] == i;
            assert(fallback_ok(b, pb, trunk, j2));
        }
    }
}

/// Determinism: ordering any rearrangement of the same pull requests gives the same stack,
/// where numbers are unique and the ordering places every pull request by following branches
/// from trunk (without falling back to input order, which a cycle or an orphaned chain forces).
pub proof fn lemma_sort_deterministic(a: Seq<PullRequest>, b: Seq<PullRequest>, sigma: Seq<int>, trunk: Seq<char>)
    requires
        rearranged(a, b, sigma),
        numbers_unique(a),
        placed_by_branches(a, trunk, Seq::empty(), trunk),
    ensures
        sorted_spec(b, trunk) == sorted_spec(a, trunk),
{
    assert(map_positions(Seq::<int>::empty(), sigma) =~= Seq::<int>::empty());
    lemma_greedy_rearranged(a, b, sigma, trunk, Seq::empty(), trunk);
    let ob = sort_order(b, trunk);
    let oa = sort_order(a, trunk);
    lemma_greedy_permutation(b, trunk, Seq::empty(), trunk);
    assert(map_positions(ob, sigma) == oa);
    assert(sorted_spec(b, trunk) =~= sorted_spec(a, trunk)) by {
        assert forall|k: int| 0 <= k < ob.len() implies #[trigger] sorted_spec(b, trunk)[k] == sorted_spec(a, trunk)[k] by {
            assert(0 <= ob[k] < b.len());
            assert(b[ob[k]] == a[sigma[ob[k]]]);
            assert(oa[k] == sigma[ob[k]]);
        }
    }
}

} // verus!
