//! Stack discovery and grouping over a batch of pull requests held in memory.
use vstd::prelude::*;

use crate::order::{
    before, direct_ok, greedy, is_permutation_of_range, lemma_greedy_permutation, lemma_covering_len, lemma_direct_unique,
    lemma_distinct_in_range_bound,
    lemma_permutation_covers, lemma_push_distinct, sort_order, sort_stack, sorted_spec,
};
use crate::pull_request::{same_pr, same_prs, PullRequest};
use crate::text::owned;

verus! {

// ---------------------------------------------------------------------------------------------
// Index and discovery
// ---------------------------------------------------------------------------------------------

/// A batch of pull requests, looked up by head branch and by base branch.
pub struct PrIndex {
    prs: Vec<PullRequest>,
}

impl View for PrIndex {
    type V = Seq<PullRequest>;

    closed spec fn view(&self) -> Seq<PullRequest> {
        self.prs@
    }
}

/// Position `i` holds the last pull request of `prs` whose head is `head`.
pub open spec fn last_with_head(prs: Seq<PullRequest>, head: Seq<char>, i: int) -> bool {
    &&& 0 <= i < prs.len()
    &&& prs[i].head_spec() == head
    &&& forall|j: int| i < j < prs.len() ==> (#[trigger] prs[j]).head_spec() != head
}

/// Some pull request of `prs` has `head` as its head branch.
pub open spec fn has_head(prs: Seq<PullRequest>, head: Seq<char>) -> bool {
    exists|t: int| 0 <= t < prs.len() && (#[trigger] prs[t]).head_spec() == head
}

/// The pull requests of `prs` that target `base`, in input order.
pub open spec fn with_base(prs: Seq<PullRequest>, base: Seq<char>) -> Seq<PullRequest>
    decreases prs.len(),
{
    if prs.len() == 0 {
        prs
    } else if prs.last().base_spec() == base {
        with_base(prs.drop_last(), base).push(prs.last())
    } else {
        with_base(prs.drop_last(), base)
    }
}

impl PrIndex {
    /// Indexes `prs`; where two share a head branch, lookups by head find the later one.
    pub fn from_prs(prs: Vec<PullRequest>) -> (r: Self)
        ensures
            r@ == prs@,
    {
        PrIndex { prs }
    }

    /// The position of the last pull request whose head is `head`.
    fn position_by_head(&self, head: &String) -> (r: Option<usize>)
        ensures
            r is None ==> !has_head(self@, head@),
            r is Some ==> last_with_head(self@, head@, r->0 as int),
    {
        let mut i: usize = self.prs.len();
        while i > 0
            invariant
                i <= self.prs.len(),
                forall|j: int| i <= j < self.prs.len() ==> (#[trigger] self.prs@[j]).head_spec() != head@,
            decreases i,
        {
            if self.prs[i - 1].head.gitref == *head {
                return Some(i - 1);
            }
            i = i - 1;
        }
        None
    }

    /// The pull request whose head branch is `head`; the later one where two share it.
    pub fn get_by_head(&self, head: &str) -> (r: Option<&PullRequest>)
        ensures
            r is None <==> !has_head(self@, head@),
            r is Some ==> exists|i: int| last_with_head(self@, head@, i) && *r->0 == self@[i],
    {
        match self.position_by_head(&owned(head)) {
            Some(i) => Some(&self.prs[i]),
            None => None,
        }
    }

    /// The pull requests that target `base`, in the order they were indexed.
    pub fn get_by_base(&self, base: &str) -> (r: Vec<&PullRequest>)
        ensures
            r.len() == with_base(self@, base@).len(),
            forall|i: int| 0 <= i < r.len() ==> *(#[trigger] r@[i]) == with_base(self@, base@)[i],
    {
        let b = owned(base);
        let mut r: Vec<&PullRequest> = Vec::new();
        let mut i: usize = 0;
        while i < self.prs.len()
            invariant
                i <= self.prs.len(),
                b@ == base@,
                r.len() == with_base(self@.subrange(0, i as int), base@).len(),
                forall|k: int| 0 <= k < r.len() ==> *(#[trigger] r@[k]) == with_base(self@.subrange(0, i as int), base@)[k],
            decreases self.prs.len() - i,
        {
            assert(self@.subrange(0, i + 1).drop_last() =~= self@.subrange(0, i as int));
            if self.prs[i].base.gitref == b {
                r.push(&self.prs[i]);
            }
            i = i + 1;
        }
        assert(self@.subrange(0, self.prs.len() as int) =~= self@);
        r
    }
}

/// `p` holds the same data as some pull request of `idx`.
pub open spec fn in_index(idx: Seq<PullRequest>, p: PullRequest) -> bool {
    exists|j: int| 0 <= j < idx.len() && same_pr(p, idx[j])
}

/// One of `p` and `q` targets the other's head branch.
pub open spec fn linked(p: PullRequest, q: PullRequest) -> bool {
    p.base_spec() == q.head_spec() || q.base_spec() == p.head_spec()
}

/// The stack that discovery collects from `start` in the index `idx`: it holds `start` first
/// and otherwise pull requests of the index, one per head branch; each links to an earlier
/// one; and it is closed both ways: the pull request that the base of a member names (unless
/// that base is trunk) and every pull request that targets a member's head are in it, or one
/// with the same head branch is.
pub open spec fn stack_of(
    idx: Seq<PullRequest>,
    start: PullRequest,
    trunk: Seq<char>,
    c: Seq<PullRequest>,
) -> bool {
    &&& c.len() >= 1
    &&& same_pr(c[0], start)
    &&& forall|k: int| 1 <= k < c.len() ==> in_index(idx, #[trigger] c[k])
    &&& forall|a: int, b: int|
        0 <= a < c.len() && 0 <= b < c.len() && a != b ==> (#[trigger] c[a]).head_spec() != (
        #[trigger] c[b]).head_spec()
    &&& forall|k: int| 1 <= k < c.len() ==> exists|t: int| 0 <= t < k && linked(#[trigger] c[k], c[t])
    &&& forall|k: int|
        0 <= k < c.len() && (#[trigger] c[k]).base_spec() != trunk && has_head(idx, c[k].base_spec())
            ==> has_head(c, c[k].base_spec())
    &&& forall|k: int, j: int|
        0 <= k < c.len() && 0 <= j < idx.len() && (#[trigger] idx[j]).base_spec() == (
        #[trigger] c[k]).head_spec() ==> has_head(c, idx[j].head_spec())
}

/// Whether some pull request of `c` has `head` as its head branch.
fn contains_head(c: &Vec<PullRequest>, head: &String) -> (r: bool)
    ensures
        r == has_head(c@, head@),
{
    let mut t: usize = 0;
    while t < c.len()
        invariant
            t <= c.len(),
            forall|u: int| 0 <= u < t ==> (#[trigger] c@[u]).head_spec() != head@,
        decreases c.len() - t,
    {
        if c[t].head.gitref == *head {
            return true;
        }
        t = t + 1;
    }
    false
}

/// The facts about the collected pull requests that hold throughout discovery.
pub open spec fn collected(
    idx: Seq<PullRequest>,
    start: PullRequest,
    c: Seq<PullRequest>,
    pos: Seq<int>,
) -> bool {
    &&& c.len() >= 1
    &&& same_pr(c[0], start)
    &&& pos.len() + 1 == c.len()
    &&& pos.no_duplicates()
    &&& forall|k: int| 0 <= k < pos.len() ==> 0 <= #[trigger] pos[k] < idx.len()
    &&& forall|k: int| 0 <= k < pos.len() ==> same_pr(c[k + 1], idx[#[trigger] pos[k]])
    &&& forall|a: int, b: int|
        0 <= a < c.len() && 0 <= b < c.len() && a != b ==> (#[trigger] c[a]).head_spec() != (
        #[trigger] c[b]).head_spec()
    &&& forall|k: int| 1 <= k < c.len() ==> exists|t: int| 0 <= t < k && linked(#[trigger] c[k], c[t])
}

proof fn lemma_collected_push(
    idx: Seq<PullRequest>,
    start: PullRequest,
    c: Seq<PullRequest>,
    pos: Seq<int>,
    q: PullRequest,
    j: int,
    t: int,
)
    requires
        collected(idx, start, c, pos),
        0 <= j < idx.len(),
        same_pr(q, idx[j]),
        !has_head(c, q.head_spec()),
        0 <= t < c.len(),
        linked(q, c[t]),
    ensures
        collected(idx, start, c.push(q), pos.push(j)),
        c.len() <= idx.len(),
{
    let c2 = c.push(q);
    let p2 = pos.push(j);
    if pos.contains(j) {
        let k = choose|k: int| 0 <= k < pos.len() && pos[k] == j;
        assert(c[k + 1].head_spec() == q.head_spec());
    }
    lemma_push_distinct(pos, j);
    assert forall|a: int, b: int|
        0 <= a < c2.len() && 0 <= b < c2.len() && a != b implies (#[trigger] c2[a]).head_spec()
        != (#[trigger] c2[b]).head_spec() by {
        if a == c.len() {
            assert(c2[b] == c[b]);
        } else if b == c.len() {
            assert(c2[a] == c[a]);
        } else {
            assert(c2[a] == c[a] && c2[b] == c[b]);
        }
    }
    assert forall|k: int| 1 <= k < c2.len() implies exists|u: int| 0 <= u < k && linked(#[trigger] c2[k], c2[u]) by {
        if k == c.len() {
            assert(linked(c2[k], c2[t]));
        } else {
            let u = choose|u: int| 0 <= u < k && linked(c[k], c[u]);
            assert(linked(c2[k], c2[u]));
        }
    }
    assert forall|k: int| 0 <= k < p2.len() implies same_pr(c2[k + 1], idx[#[trigger] p2[k]]) by {
        if k < pos.len() {
            assert(p2[k] == pos[k]);
        }
    }
    lemma_distinct_in_range_bound(p2, idx.len() as int);
}

/// Collects the stack around `starting_pr` from the index and orders it bottom to top.
///
/// It walks up through the pull requests that the bases name until trunk, a branch with no
/// pull request, or one already collected; then down through every pull request that targets
/// a collected head. Each head branch is collected once, so both walks end, also where the
/// branches form a cycle.
pub fn discover_stack_from_index(index: &PrIndex, starting_pr: PullRequest, trunk: &str) -> (r: Vec<
    PullRequest,
>)
    ensures
        exists|c: Seq<PullRequest>|
            stack_of(index@, starting_pr, trunk@, c) && same_prs(r@, sorted_spec(c, trunk@)),
        r.len() <= index@.len() + 1,
        exists|i: int| 0 <= i < r.len() && same_pr(#[trigger] r@[i], starting_pr),
        forall|a: int, b: int|
            0 <= a < r.len() && 0 <= b < r.len() && a != b ==> (#[trigger] r@[a]).head_spec() != (
            #[trigger] r@[b]).head_spec(),
{
    let trunk_s = owned(trunk);
    let ghost idx = index@;
    let ghost start = starting_pr;
    let mut cur: String = starting_pr.base.gitref.clone();
    let mut c: Vec<PullRequest> = Vec::new();
    c.push(starting_pr);
    let ghost mut pos: Seq<int> = Seq::empty();
    proof {
        assert(c@[0] == start);
    }
    // Upward: follow the base branches.
    loop
        invariant
            trunk_s@ == trunk@,
            idx == index@,
            collected(idx, start, c@, pos),
            c.len() <= idx.len() + 1,
            cur@ == c@[c.len() - 1].base_spec(),
            forall|k: int| 0 <= k < c.len() - 1 ==> (#[trigger] c@[k]).base_spec() == c@[k + 1].head_spec(),
        ensures
            collected(idx, start, c@, pos),
            c.len() <= idx.len() + 1,
            forall|k: int|
                0 <= k < c.len() && (#[trigger] c@[k]).base_spec() != trunk@ && has_head(idx, c@[k].base_spec())
                    ==> has_head(c@, c@[k].base_spec()),
        decreases idx.len() + 1 - c.len(),
    {
        let ghost last = c.len() - 1;
        if cur == trunk_s || contains_head(&c, &cur) {
            proof {
                assert forall|k: int|
                    0 <= k < c.len() && (#[trigger] c@[k]).base_spec() != trunk@ && has_head(idx, c@[k].base_spec())
                        implies has_head(c@, c@[k].base_spec()) by {
                    if k < last {
                        assert(c@[k + 1].head_spec() == c@[k].base_spec());
                    }
                }
            }
            break;
        }
        match index.position_by_head(&cur) {
            None => {
                proof {
                    assert forall|k: int|
                        0 <= k < c.len() && (#[trigger] c@[k]).base_spec() != trunk@ && has_head(idx, c@[k].base_spec())
                            implies has_head(c@, c@[k].base_spec()) by {
                        if k < last {
                            assert(c@[k + 1].head_spec() == c@[k].base_spec());
                        }
                    }
                }
                break;
            },
            Some(j) => {
                let q = index.prs[j].duplicate();
                proof {
                    assert(linked(q, c@[last]));
                    lemma_collected_push(idx, start, c@, pos, q, j as int, last);
                    pos = pos.push(j as int);
                }
                cur = index.prs[j].base.gitref.clone();
                c.push(q);
            },
        }
    }
    // Downward: collect every pull request that targets a collected head.
    let mut k: usize = 0;
    while k < c.len()
        invariant
            idx == index@,
            collected(idx, start, c@, pos),
            c.len() <= idx.len() + 1,
            k <= c.len(),
            forall|u: int|
                0 <= u < c.len() && (#[trigger] c@[u]).base_spec() != trunk@ && has_head(idx, c@[u].base_spec())
                    ==> has_head(c@, c@[u].base_spec()),
            forall|u: int, j: int|
                0 <= u < k && 0 <= j < idx.len() && (#[trigger] idx[j]).base_spec() == (
                #[trigger] c@[u]).head_spec() ==> has_head(c@, idx[j].head_spec()),
        decreases idx.len() + 1 - k,
    {
        let h = c[k].head.gitref.clone();
        let mut j: usize = 0;
        while j < index.prs.len()
            invariant
                idx == index@,
                collected(idx, start, c@, pos),
                c.len() <= idx.len() + 1,
                k < c.len(),
                h@ == c@[k as int].head_spec(),
                j <= idx.len(),
                forall|u: int|
                    0 <= u < c.len() && (#[trigger] c@[u]).base_spec() != trunk@ && has_head(idx, c@[u].base_spec())
                        ==> has_head(c@, c@[u].base_spec()),
                forall|u: int, i: int|
                    0 <= u < k && 0 <= i < idx.len() && (#[trigger] idx[i]).base_spec() == (
                    #[trigger] c@[u]).head_spec() ==> has_head(c@, idx[i].head_spec()),
                forall|i: int|
                    0 <= i < j && (#[trigger] idx[i]).base_spec() == h@ ==> has_head(c@, idx[i].head_spec()),
            decreases idx.len() - j,
        {
            if index.prs[j].base.gitref == h && !contains_head(&c, &index.prs[j].head.gitref) {
                let q = index.prs[j].duplicate();
                let ghost old_c = c@;
                proof {
                    assert(linked(q, c@[k as int]));
                    lemma_collected_push(idx, start, c@, pos, q, j as int, k as int);
                    pos = pos.push(j as int);
                }
                c.push(q);
                proof {
                    assert forall|x: Seq<char>| has_head(old_c, x) implies has_head(c@, x) by {
                        let t = choose|t: int| 0 <= t < old_c.len() && (#[trigger] old_c[t]).head_spec() == x;
                        assert(c@[t] == old_c[t]);
                    }
                    assert(c@[old_c.len() as int] == q);
                    assert(has_head(c@, q.head_spec()));
                    assert forall|u: int|
                        0 <= u < c.len() && (#[trigger] c@[u]).base_spec() != trunk@ && has_head(idx, c@[u].base_spec())
                            implies has_head(c@, c@[u].base_spec()) by {
                        if u < old_c.len() {
                            assert(c@[u] == old_c[u]);
                            assert(has_head(old_c, old_c[u].base_spec()));
                        } else {
                            assert(c@[u].base_spec() == c@[k as int].head_spec());
                            assert(c@[k as int] == old_c[k as int]);
                        }
                    }
                    assert forall|u: int, i: int|
                        0 <= u < k && 0 <= i < idx.len() && (#[trigger] idx[i]).base_spec() == (
                        #[trigger] c@[u]).head_spec() implies has_head(c@, idx[i].head_spec()) by {
                        assert(c@[u] == old_c[u]);
                        assert(has_head(old_c, idx[i].head_spec()));
                    }
                    assert forall|i: int|
                        0 <= i < j && (#[trigger] idx[i]).base_spec() == h@ implies has_head(c@, idx[i].head_spec()) by {
                        assert(has_head(old_c, idx[i].head_spec()));
                    }
                }
            }
            j = j + 1;
        }
        k = k + 1;
    }
    let ghost cs = c@;
    let r = sort_stack(c, trunk);
    proof {
        assert forall|u: int| 1 <= u < cs.len() implies in_index(idx, #[trigger] cs[u]) by {
            assert(0 <= pos[u - 1] < idx.len());
            assert(same_pr(cs[(u - 1) + 1], idx[pos[u - 1]]));
        }
        assert(stack_of(idx, start, trunk@, cs));
        lemma_greedy_permutation(cs, trunk@, Seq::empty(), trunk@);
        let o = sort_order(cs, trunk@);
        assert forall|a: int, b: int|
            0 <= a < r.len() && 0 <= b < r.len() && a != b implies (#[trigger] r@[a]).head_spec() != (
            #[trigger] r@[b]).head_spec() by {
            assert(same_pr(r@[a], cs[o[a]]));
            assert(same_pr(r@[b], cs[o[b]]));
            assert(o[a] != o[b]);
        }
        lemma_permutation_covers(o, cs.len() as int, 0);
        let i = choose|i: int| 0 <= i < o.len() && o[i] == 0;
        assert(same_pr(r@[i], cs[0]));
    }
    r
}

/// A well-formed linear chain on `trunk`: the first pull request targets trunk, each later one
/// targets the head of the one before it, and the head branches are distinct and none is trunk.
pub open spec fn linear_chain(chain: Seq<PullRequest>, trunk: Seq<char>) -> bool {
    &&& chain.len() >= 1
    &&& chain[0].base_spec() == trunk
    &&& forall|k: int| 1 <= k < chain.len() ==> (#[trigger] chain[k]).base_spec() == chain[k - 1].head_spec()
    &&& forall|a: int, b: int|
        0 <= a < chain.len() && 0 <= b < chain.len() && a != b ==> (#[trigger] chain[a]).head_spec() != (
        #[trigger] chain[b]).head_spec()
    &&& forall|k: int| 0 <= k < chain.len() ==> (#[trigger] chain[k]).head_spec() != trunk
}

proof fn lemma_chain_base_unique(chain: Seq<PullRequest>, trunk: Seq<char>, k: int, q: int)
    requires
        linear_chain(chain, trunk),
        0 <= k < chain.len(),
        0 <= q < chain.len(),
        chain[q].base_spec() == (if k == 0 { trunk } else { chain[k - 1].head_spec() }),
    ensures
        q == k,
{
    if q != k {
        if q == 0 {
            assert(chain[k - 1].head_spec() != trunk);
        } else if k == 0 {
            assert(chain[q].base_spec() == chain[q - 1].head_spec());
            assert(chain[q - 1].head_spec() != trunk);
        } else {
            assert(chain[q].base_spec() == chain[q - 1].head_spec());
            assert(chain[q - 1].head_spec() != chain[k - 1].head_spec());
        }
    }
}

/// The chain position of a collected pull request with the same data.
spec fn chain_pos(c: Seq<PullRequest>, chain: Seq<PullRequest>, j: int) -> int {
    choose|q: int| 0 <= q < chain.len() && same_pr(c[j], chain[q])
}

/// The collected position of the pull request with the head of `chain[k]`.
spec fn collected_pos(c: Seq<PullRequest>, chain: Seq<PullRequest>, k: int) -> int {
    choose|j: int| 0 <= j < c.len() && c[j].head_spec() == chain[k].head_spec()
}

proof fn lemma_chain_greedy(
    c: Seq<PullRequest>,
    chain: Seq<PullRequest>,
    trunk: Seq<char>,
    pos: Seq<int>,
    k: int,
)
    requires
        linear_chain(chain, trunk),
        c.len() == chain.len(),
        pos.len() == chain.len(),
        0 <= k <= chain.len(),
        pos.no_duplicates(),
        forall|t: int| 0 <= t < pos.len() ==> 0 <= #[trigger] pos[t] < c.len(),
        forall|t: int| 0 <= t < pos.len() ==> same_pr(c[#[trigger] pos[t]], chain[t]),
        forall|j: int| 0 <= j < c.len() ==> #[trigger] pos.contains(j),
    ensures
        greedy(c, trunk, pos.subrange(0, k), if k == 0 { trunk } else { chain[k - 1].head_spec() }) == pos,
    decreases chain.len() - k,
{
    let placed = pos.subrange(0, k);
    let cur = if k == 0 { trunk } else { chain[k - 1].head_spec() };
    if k == chain.len() {
        assert(placed =~= pos);
    } else {
        let p = pos[k];
        assert(!placed.contains(p)) by {
            if placed.contains(p) {
                let t = choose|t: int| 0 <= t < placed.len() && placed[t] == p;
                assert(pos[t] == pos[k]);
            }
        }
        if k > 0 {
            assert(chain[k].base_spec() == chain[k - 1].head_spec());
        }
        assert(direct_ok(c, placed, cur, p));
        assert forall|j: int| #[trigger] direct_ok(c, placed, cur, j) implies before(c, p, j) by {
            assert(pos.contains(j));
            let t = choose|t: int| 0 <= t < pos.len() && pos[t] == j;
            assert(same_pr(c[pos[t]], chain[t]));
            lemma_chain_base_unique(chain, trunk, k, t);
        }
        lemma_direct_unique(c, placed, cur, p);
        assert(placed.push(p) =~= pos.subrange(0, k + 1));
        lemma_chain_greedy(c, chain, trunk, pos, k + 1);
    }
}

/// Discovery completeness: for a well-formed linear chain, the stack that discovery collects
/// from any of its pull requests, once ordered, is the whole chain, bottom to top.
pub proof fn lemma_discovery_complete(chain: Seq<PullRequest>, trunk: Seq<char>, i: int, c: Seq<PullRequest>)
    requires
        linear_chain(chain, trunk),
        0 <= i < chain.len(),
        stack_of(chain, chain[i], trunk, c),
    ensures
        same_prs(sorted_spec(c, trunk), chain),
{
    let n = chain.len() as int;
    // Every collected pull request is one of the chain.
    assert forall|j: int| 0 <= j < c.len() implies in_index(chain, #[trigger] c[j]) by {
        if j == 0 {
            assert(same_pr(c[0], chain[i]));
        } else {
            assert(in_index(chain, c[j]));
        }
    }
    // Every head of the chain is collected: upward from `i`, then downward.
    assert forall|k: int| 0 <= k <= i implies has_head(c, (#[trigger] chain[i - k]).head_spec()) by {
        lemma_chain_up(chain, trunk, i, c, k);
    }
    assert forall|k: int| i <= k < n implies has_head(c, (#[trigger] chain[k]).head_spec()) by {
        lemma_chain_down(chain, trunk, i, c, k);
    }
    assert forall|k: int| 0 <= k < n implies has_head(c, (#[trigger] chain[k]).head_spec()) by {
        if k <= i {
            assert(chain[i - (i - k)] == chain[k]);
        }
    }
    let pos = Seq::new(n as nat, |k: int| collected_pos(c, chain, k));
    assert forall|t: int| 0 <= t < pos.len() implies 0 <= #[trigger] pos[t] < c.len() && c[pos[t]].head_spec() == chain[t].head_spec() by {
        assert(has_head(c, chain[t].head_spec()));
    }
    assert(pos.no_duplicates()) by {
        assert forall|a: int, b: int| 0 <= a < pos.len() && 0 <= b < pos.len() && a != b implies pos[a] != pos[b] by {
            assert(chain[a].head_spec() != chain[b].head_spec());
        }
    }
    assert forall|t: int| 0 <= t < pos.len() implies same_pr(c[#[trigger] pos[t]], chain[t]) by {
        let j = pos[t];
        let q = choose|q: int| 0 <= q < n && same_pr(c[j], chain[q]);
        if q != t {
            assert(chain[q].head_spec() != chain[t].head_spec());
        }
    }
    // The collected positions are exactly those of the chain.
    let qs = Seq::new(c.len(), |j: int| chain_pos(c, chain, j));
    assert forall|j: int| 0 <= j < qs.len() implies 0 <= #[trigger] qs[j] < n && same_pr(c[j], chain[qs[j]]) by {
        assert(in_index(chain, c[j]));
    }
    assert(qs.no_duplicates()) by {
        assert forall|a: int, b: int| 0 <= a < qs.len() && 0 <= b < qs.len() && a != b implies qs[a] != qs[b] by {
            assert(c[a].head_spec() != c[b].head_spec());
        }
    }
    lemma_distinct_in_range_bound(qs, n);
    lemma_distinct_in_range_bound(pos, c.len() as int);
    assert forall|j: int| 0 <= j < c.len() implies #[trigger] pos.contains(j) by {
        assert(is_permutation_of_range(pos, c.len() as int));
        lemma_permutation_covers(pos, c.len() as int, j);
    }
    lemma_chain_greedy(c, chain, trunk, pos, 0);
    assert(pos.subrange(0, 0) =~= Seq::<int>::empty());
    assert(sort_order(c, trunk) == pos);
}

proof fn lemma_chain_up(chain: Seq<PullRequest>, trunk: Seq<char>, i: int, c: Seq<PullRequest>, k: int)
    requires
        linear_chain(chain, trunk),
        0 <= i < chain.len(),
        stack_of(chain, chain[i], trunk, c),
        0 <= k <= i,
    ensures
        has_head(c, chain[i - k].head_spec()),
    decreases k,
{
    if k == 0 {
        assert(c[0].head_spec() == chain[i].head_spec());
    } else {
        lemma_chain_up(chain, trunk, i, c, k - 1);
        let m = i - (k - 1);
        let j = choose|j: int| 0 <= j < c.len() && (#[trigger] c[j]).head_spec() == chain[m].head_spec();
        assert(chain[m].base_spec() == chain[m - 1].head_spec());
        let q = if j == 0 { i } else { choose|q: int| 0 <= q < chain.len() && same_pr(c[j], chain[q]) };
        if j > 0 {
            assert(in_index(chain, c[j]));
        }
        assert(same_pr(c[j], chain[q]));
        if q != m {
            assert(chain[q].head_spec() != chain[m].head_spec());
        }
        assert(chain[m - 1].head_spec() != trunk);
        assert(has_head(chain, chain[m - 1].head_spec()));
        assert(c[j].base_spec() == chain[m - 1].head_spec());
    }
}

proof fn lemma_chain_down(chain: Seq<PullRequest>, trunk: Seq<char>, i: int, c: Seq<PullRequest>, k: int)
    requires
        linear_chain(chain, trunk),
        0 <= i < chain.len(),
        stack_of(chain, chain[i], trunk, c),
        i <= k < chain.len(),
    ensures
        has_head(c, chain[k].head_spec()),
    decreases k - i,
{
    if k == i {
        assert(c[0].head_spec() == chain[i].head_spec());
    } else {
        lemma_chain_down(chain, trunk, i, c, k - 1);
        let j = choose|j: int| 0 <= j < c.len() && (#[trigger] c[j]).head_spec() == chain[k - 1].head_spec();
        assert(chain[k].base_spec() == chain[k - 1].head_spec());
        assert(chain[k].base_spec() == c[j].head_spec());
    }
}

// ---------------------------------------------------------------------------------------------
// Grouping every open pull request into stacks
// ---------------------------------------------------------------------------------------------

/// Some member of some group has the number `x`.
pub open spec fn in_groups(gs: Seq<Seq<PullRequest>>, x: usize) -> bool {
    exists|s: int, i: int| 0 <= s < gs.len() && 0 <= i < gs[s].len() && (#[trigger] gs[s][i]).number == x
}

/// Some member of `g` has the number `x`.
pub open spec fn in_group(g: Seq<PullRequest>, x: usize) -> bool {
    exists|i: int| 0 <= i < g.len() && (#[trigger] g[i]).number == x
}

/// No number occurs twice across all groups.
pub open spec fn numbers_distinct(gs: Seq<Seq<PullRequest>>) -> bool {
    forall|s1: int, i1: int, s2: int, i2: int|
        0 <= s1 < gs.len() && 0 <= i1 < gs[s1].len() && 0 <= s2 < gs.len() && 0 <= i2 < gs[s2].len()
            && (s1 != s2 || i1 != i2) ==> (#[trigger] gs[s1][i1]).number != (#[trigger] gs[s2][i2]).number
}

/// A group grown from a root: the first member targets trunk, every later one targets the head
/// of an earlier one, and all come from `prs`.
pub open spec fn group_ok(prs: Seq<PullRequest>, trunk: Seq<char>, g: Seq<PullRequest>) -> bool {
    &&& g.len() >= 1
    &&& g[0].base_spec() == trunk
    &&& forall|k: int| 0 <= k < g.len() ==> in_index(prs, #[trigger] g[k])
    &&& forall|k: int|
        1 <= k < g.len() ==> exists|t: int| 0 <= t < k && (#[trigger] g[k]).base_spec() == g[t].head_spec()
}

/// The groups that grouping collects from `prs`, before ordering: each grown from a root, no
/// number twice, every pull request that targets trunk or the head of a member is in one.
pub open spec fn groups_of(prs: Seq<PullRequest>, trunk: Seq<char>, gs: Seq<Seq<PullRequest>>) -> bool {
    &&& forall|s: int| 0 <= s < gs.len() ==> group_ok(prs, trunk, #[trigger] gs[s])
    &&& numbers_distinct(gs)
    &&& forall|j: int| 0 <= j < prs.len() && (#[trigger] prs[j]).base_spec() == trunk ==> in_groups(gs, prs[j].number)
    &&& forall|s: int, i: int, j: int|
        0 <= s < gs.len() && 0 <= i < gs[s].len() && 0 <= j < prs.len() && (#[trigger] prs[j]).base_spec()
            == (#[trigger] gs[s][i]).head_spec() ==> in_groups(gs, prs[j].number)
}

/// Group `x` goes before group `y`: it is larger, or as large and earlier.
pub open spec fn larger_first(gs: Seq<Seq<PullRequest>>, x: int, y: int) -> bool {
    gs[x].len() > gs[y].len() || (gs[x].len() == gs[y].len() && x <= y)
}

fn contains_number(v: &Vec<usize>, x: usize) -> (r: bool)
    ensures
        r == v@.contains(x),
{
    let mut i: usize = 0;
    while i < v.len()
        invariant
            i <= v.len(),
            forall|k: int| 0 <= k < i ==> v@[k] != x,
        decreases v.len() - i,
    {
        if v[i] == x {
            return true;
        }
        i = i + 1;
    }
    false
}

fn copy_stack(v: &Vec<PullRequest>) -> (r: Vec<PullRequest>)
    ensures
        same_prs(r@, v@),
{
    let mut r: Vec<PullRequest> = Vec::new();
    let mut i: usize = 0;
    while i < v.len()
        invariant
            i <= v.len(),
            r.len() == i,
            forall|k: int| 0 <= k < i ==> same_pr(#[trigger] r@[k], v@[k]),
        decreases v.len() - i,
    {
        r.push(v[i].duplicate());
        i = i + 1;
    }
    r
}

/// The stacks, larger first; stacks of one size keep their order.
fn order_by_size(stacks: &Vec<Vec<PullRequest>>, Ghost(gs): Ghost<Seq<Seq<PullRequest>>>) -> (r: Vec<Vec<PullRequest>>)
    requires
        stacks.len() == gs.len(),
        forall|s: int| 0 <= s < gs.len() ==> (#[trigger] stacks@[s]).len() == gs[s].len(),
    ensures
        exists|perm: Seq<int>|
            {
                &&& is_permutation_of_range(perm, gs.len() as int)
                &&& r.len() == gs.len()
                &&& forall|a: int| 0 <= a < r.len() ==> same_prs((#[trigger] r@[a])@, stacks@[perm[a]]@)
                &&& forall|a: int, b: int| 0 <= a < b < r.len() ==> #[trigger] larger_first(gs, perm[a], perm[b])
            },
{
    let m = stacks.len();
    let mut taken: Vec<bool> = Vec::new();
    while taken.len() < m
        invariant
            taken.len() <= m,
            forall|i: int| 0 <= i < taken.len() ==> !#[trigger] taken@[i],
        decreases m - taken.len(),
    {
        taken.push(false);
    }
    let mut r: Vec<Vec<PullRequest>> = Vec::new();
    let ghost mut perm: Seq<int> = Seq::empty();
    while r.len() < m
        invariant
            m == stacks.len() == gs.len(),
            forall|s: int| 0 <= s < gs.len() ==> (#[trigger] stacks@[s]).len() == gs[s].len(),
            r.len() == perm.len(),
            perm.len() <= m,
            taken.len() == m,
            perm.no_duplicates(),
            forall|k: int| 0 <= k < perm.len() ==> 0 <= #[trigger] perm[k] < m,
            forall|i: int| 0 <= i < m ==> (#[trigger] taken@[i] <==> perm.contains(i)),
            forall|a: int| 0 <= a < r.len() ==> same_prs((#[trigger] r@[a])@, stacks@[perm[a]]@),
            forall|a: int, y: int|
                0 <= a < perm.len() && 0 <= y < m && !perm.subrange(0, a).contains(y) ==> #[trigger] larger_first(gs, perm[a], y),
        decreases m - r.len(),
    {
        let mut best: usize = 0;
        let mut found = false;
        let mut j: usize = 0;
        while j < m
            invariant
                m == stacks.len() == gs.len(),
                forall|s: int| 0 <= s < gs.len() ==> (#[trigger] stacks@[s]).len() == gs[s].len(),
                taken.len() == m,
                j <= m,
                found ==> best < j && !taken@[best as int],
                found ==> forall|y: int| 0 <= y < j && !taken@[y] ==> larger_first(gs, best as int, y),
                !found ==> forall|y: int| 0 <= y < j ==> taken@[y],
            decreases m - j,
        {
            if !taken[j] && (!found || stacks[j].len() > stacks[best].len()) {
                best = j;
                found = true;
            }
            j = j + 1;
        }
        if !found {
            proof {
                lemma_distinct_in_range_bound(perm, m as int);
                assert forall|i: int| 0 <= i < m implies perm.contains(i) by {
                    assert(taken@[i]);
                }
                lemma_covering_len(perm, m as int);
            }
            assert(false);
        }
        let ghost old_perm = perm;
        proof {
            lemma_push_distinct(perm, best as int);
            perm = perm.push(best as int);
        }
        taken.set(best, true);
        r.push(copy_stack(&stacks[best]));
        proof {
            assert forall|i: int| 0 <= i < m implies (#[trigger] taken@[i] <==> perm.contains(i)) by {
                if i == best {
                    assert(perm[old_perm.len() as int] == i);
                } else {
                    if perm.contains(i) {
                        let k = choose|k: int| 0 <= k < perm.len() && perm[k] == i;
                        assert(old_perm[k] == i);
                    }
                    if old_perm.contains(i) {
                        let k = choose|k: int| 0 <= k < old_perm.len() && old_perm[k] == i;
                        assert(perm[k] == i);
                    }
                }
            }
            assert forall|a: int, y: int|
                0 <= a < perm.len() && 0 <= y < m && !perm.subrange(0, a).contains(y) implies #[trigger] larger_first(gs, perm[a], y) by {
                if a < old_perm.len() {
                    assert(perm.subrange(0, a) =~= old_perm.subrange(0, a));
                } else {
                    assert(perm.subrange(0, a) =~= old_perm);
                    assert(!taken@[y] || y == best || !old_perm.contains(y));
                }
            }
        }
    }
    proof {
        lemma_distinct_in_range_bound(perm, m as int);
        assert forall|a: int, b: int| 0 <= a < b < r.len() implies #[trigger] larger_first(gs, perm[a], perm[b]) by {
            if perm.subrange(0, a).contains(perm[b]) {
                let k = choose|k: int| 0 <= k < a && perm.subrange(0, a)[k] == perm[b];
                assert(perm[k] == perm[b]);
            }
        }
        assert(is_permutation_of_range(perm, gs.len() as int));
    }
    r
}

proof fn lemma_in_groups_push(gs: Seq<Seq<PullRequest>>, g: Seq<PullRequest>, x: usize)
    ensures
        in_groups(gs.push(g), x) <==> in_groups(gs, x) || in_group(g, x),
{
    let gs2 = gs.push(g);
    if in_groups(gs2, x) {
        let (s, i) = choose|s: int, i: int| 0 <= s < gs2.len() && 0 <= i < gs2[s].len() && (#[trigger] gs2[s][i]).number == x;
        if s < gs.len() {
            assert(gs[s][i].number == x);
        } else {
            assert(g[i].number == x);
        }
    }
    if in_groups(gs, x) {
        let (s, i) = choose|s: int, i: int| 0 <= s < gs.len() && 0 <= i < gs[s].len() && (#[trigger] gs[s][i]).number == x;
        assert(gs2[s][i].number == x);
    }
    if in_group(g, x) {
        let i = choose|i: int| 0 <= i < g.len() && (#[trigger] g[i]).number == x;
        assert(gs2[gs.len() as int][i].number == x);
    }
}

proof fn lemma_in_group_push(g: Seq<PullRequest>, q: PullRequest, x: usize)
    ensures
        in_group(g.push(q), x) <==> in_group(g, x) || q.number == x,
{
    let g2 = g.push(q);
    if in_group(g2, x) {
        let i = choose|i: int| 0 <= i < g2.len() && (#[trigger] g2[i]).number == x;
        if i < g.len() {
            assert(g[i].number == x);
        }
    }
    if in_group(g, x) {
        let i = choose|i: int| 0 <= i < g.len() && (#[trigger] g[i]).number == x;
        assert(g2[i].number == x);
    }
    if q.number == x {
        assert(g2[g.len() as int].number == x);
    }
}

proof fn lemma_distinct_push_member(gs: Seq<Seq<PullRequest>>, g: Seq<PullRequest>, q: PullRequest)
    requires
        numbers_distinct(gs.push(g)),
        !in_groups(gs, q.number),
        !in_group(g, q.number),
    ensures
        numbers_distinct(gs.push(g.push(q))),
{
    let a = gs.push(g);
    let b = gs.push(g.push(q));
    let m = gs.len() as int;
    assert forall|s1: int, i1: int, s2: int, i2: int|
        0 <= s1 < b.len() && 0 <= i1 < b[s1].len() && 0 <= s2 < b.len() && 0 <= i2 < b[s2].len()
            && (s1 != s2 || i1 != i2) implies (#[trigger] b[s1][i1]).number != (#[trigger] b[s2][i2]).number by {
        let top = g.len() as int;
        if s1 == m && i1 == top {
            if s2 < m {
                assert(b[s2][i2] == gs[s2][i2]);
            } else {
                assert(b[s2][i2] == g[i2]);
            }
        } else if s2 == m && i2 == top {
            if s1 < m {
                assert(b[s1][i1] == gs[s1][i1]);
            } else {
                assert(b[s1][i1] == g[i1]);
            }
        } else {
            assert(b[s1][i1] == a[s1][i1]);
            assert(b[s2][i2] == a[s2][i2]);
        }
    }
}

proof fn lemma_distinct_push_group(gs: Seq<Seq<PullRequest>>)
    ensures
        numbers_distinct(gs) <==> numbers_distinct(gs.push(Seq::empty())),
{
    let b = gs.push(Seq::<PullRequest>::empty());
    if numbers_distinct(gs) {
        assert forall|s1: int, i1: int, s2: int, i2: int|
            0 <= s1 < b.len() && 0 <= i1 < b[s1].len() && 0 <= s2 < b.len() && 0 <= i2 < b[s2].len()
                && (s1 != s2 || i1 != i2) implies (#[trigger] b[s1][i1]).number != (#[trigger] b[s2][i2]).number by {
            assert(b[s1][i1] == gs[s1][i1]);
            assert(b[s2][i2] == gs[s2][i2]);
        }
    }
    if numbers_distinct(b) {
        assert forall|s1: int, i1: int, s2: int, i2: int|
            0 <= s1 < gs.len() && 0 <= i1 < gs[s1].len() && 0 <= s2 < gs.len() && 0 <= i2 < gs[s2].len()
                && (s1 != s2 || i1 != i2) implies (#[trigger] gs[s1][i1]).number != (#[trigger] gs[s2][i2]).number by {
            assert(b[s1][i1] == gs[s1][i1]);
            assert(b[s2][i2] == gs[s2][i2]);
        }
    }
}

/// Partitions the pull requests into stacks, larger stacks first.
///
/// Each pull request that targets trunk roots a stack, unless an earlier stack took its number;
/// the stack then takes every pull request that targets one of its heads and whose number no
/// stack has taken yet, and is ordered bottom to top. Pull requests that no root reaches are
/// left out.
#[verifier::spinoff_prover]
#[verifier::rlimit(40)]
pub fn group_into_stacks(prs: Vec<PullRequest>, trunk: &str) -> (r: Vec<Vec<PullRequest>>)
    ensures
        exists|gs: Seq<Seq<PullRequest>>, perm: Seq<int>|
            {
                &&& groups_of(prs@, trunk@, gs)
                &&& is_permutation_of_range(perm, gs.len() as int)
                &&& r.len() == gs.len()
                &&& forall|a: int| 0 <= a < r.len() ==> same_prs((#[trigger] r@[a])@, sorted_spec(gs[perm[a]], trunk@))
                &&& forall|a: int, b: int| 0 <= a < b < r.len() ==> #[trigger] larger_first(gs, perm[a], perm[b])
            },
{
    let n = prs.len();
    let trunk_s = owned(trunk);
    let mut assigned: Vec<usize> = Vec::new();
    let mut stacks: Vec<Vec<PullRequest>> = Vec::new();
    let ghost mut gs: Seq<Seq<PullRequest>> = Seq::empty();
    let mut i: usize = 0;
    while i < n
        invariant
            n == prs.len(),
            trunk_s@ == trunk@,
            i <= n,
            forall|s: int| 0 <= s < gs.len() ==> group_ok(prs@, trunk@, #[trigger] gs[s]),
            numbers_distinct(gs),
            forall|x: usize| assigned@.contains(x) <==> in_groups(gs, x),
            forall|j: int| 0 <= j < i && (#[trigger] prs@[j]).base_spec() == trunk@ ==> in_groups(gs, prs@[j].number),
            forall|s: int, t: int, j: int|
                0 <= s < gs.len() && 0 <= t < gs[s].len() && 0 <= j < n && (#[trigger] prs@[j]).base_spec()
                    == (#[trigger] gs[s][t]).head_spec() ==> in_groups(gs, prs@[j].number),
            stacks.len() == gs.len(),
            forall|s: int| 0 <= s < gs.len() ==> same_prs((#[trigger] stacks@[s])@, sorted_spec(gs[s], trunk@)),
            forall|s: int| 0 <= s < gs.len() ==> (#[trigger] stacks@[s]).len() == gs[s].len(),
        decreases n - i,
    {
        if prs[i].base.gitref == trunk_s && !contains_number(&assigned, prs[i].number) {
            let mut g: Vec<PullRequest> = Vec::new();
            let first = prs[i].duplicate();
            proof {
                lemma_in_groups_push(gs, Seq::empty(), first.number);
                lemma_in_group_push(Seq::empty(), first, first.number);
                lemma_distinct_push_group(gs);
                lemma_distinct_push_member(gs, Seq::empty(), first);
                assert(Seq::<PullRequest>::empty().push(first) =~= seq![first]);
            }
            g.push(first);
            let ghost a0 = assigned@;
            assigned.push(prs[i].number);
            let ghost mut pos: Seq<int> = seq![i as int];
            proof {
                assert forall|x: usize| assigned@.contains(x) <==> in_groups(gs.push(g@), x) by {
                    lemma_in_groups_push(gs, g@, x);
                    lemma_in_group_push(Seq::empty(), first, x);
                    assert(g@ =~= Seq::<PullRequest>::empty().push(first));
                    if assigned@.contains(x) && x != prs@[i as int].number {
                        let k = choose|k: int| 0 <= k < assigned@.len() && assigned@[k] == x;
                        assert(a0[k] == x);
                    }
                    if x == prs@[i as int].number {
                        assert(assigned@[assigned@.len() - 1] == x);
                    } else if in_groups(gs, x) {
                        assert(a0.contains(x));
                        let k = choose|k: int| 0 <= k < a0.len() && a0[k] == x;
                        assert(assigned@[k] == x);
                    }
                }
                assert(in_index(prs@, g@[0])) by {
                    assert(same_pr(g@[0], prs@[i as int]));
                }
            }
            let mut k: usize = 0;
            while k < g.len()
                invariant
                    n == prs.len(),
                    trunk_s@ == trunk@,
                    i < n,
                    forall|s: int| 0 <= s < gs.len() ==> group_ok(prs@, trunk@, #[trigger] gs[s]),
                    numbers_distinct(gs.push(g@)),
                    forall|x: usize| assigned@.contains(x) <==> in_groups(gs.push(g@), x),
                    g.len() >= 1,
                    g@[0].base_spec() == trunk@,
                    g@[0].number == prs@[i as int].number,
                    forall|t: int| 0 <= t < g.len() ==> in_index(prs@, #[trigger] g@[t]),
                    forall|t: int|
                        1 <= t < g.len() ==> exists|u: int| 0 <= u < t && (#[trigger] g@[t]).base_spec() == g@[u].head_spec(),
                    pos.len() == g.len(),
                    pos.no_duplicates(),
                    forall|t: int| 0 <= t < pos.len() ==> 0 <= #[trigger] pos[t] < n,
                    forall|t: int| 0 <= t < pos.len() ==> same_pr(g@[t], prs@[#[trigger] pos[t]]),
                    g.len() <= n,
                    k <= g.len(),
                    forall|t: int, j: int|
                        0 <= t < k && 0 <= j < n && (#[trigger] prs@[j]).base_spec() == (#[trigger] g@[t]).head_spec()
                            ==> assigned@.contains(prs@[j].number),
                decreases n + 1 - k,
            {
                let h = g[k].head.gitref.clone();
                let mut j: usize = 0;
                while j < n
                    invariant
                        n == prs.len(),
                        trunk_s@ == trunk@,
                        i < n,
                        forall|s: int| 0 <= s < gs.len() ==> group_ok(prs@, trunk@, #[trigger] gs[s]),
                        numbers_distinct(gs.push(g@)),
                        forall|x: usize| assigned@.contains(x) <==> in_groups(gs.push(g@), x),
                        g.len() >= 1,
                        g@[0].base_spec() == trunk@,
                        g@[0].number == prs@[i as int].number,
                        forall|t: int| 0 <= t < g.len() ==> in_index(prs@, #[trigger] g@[t]),
                        forall|t: int|
                            1 <= t < g.len() ==> exists|u: int| 0 <= u < t && (#[trigger] g@[t]).base_spec() == g@[u].head_spec(),
                        pos.len() == g.len(),
                        pos.no_duplicates(),
                        forall|t: int| 0 <= t < pos.len() ==> 0 <= #[trigger] pos[t] < n,
                        forall|t: int| 0 <= t < pos.len() ==> same_pr(g@[t], prs@[#[trigger] pos[t]]),
                        g.len() <= n,
                        k < g.len(),
                        h@ == g@[k as int].head_spec(),
                        j <= n,
                        forall|t: int, j2: int|
                            0 <= t < k && 0 <= j2 < n && (#[trigger] prs@[j2]).base_spec() == (#[trigger] g@[t]).head_spec()
                                ==> assigned@.contains(prs@[j2].number),
                        forall|j2: int| 0 <= j2 < j && (#[trigger] prs@[j2]).base_spec() == h@ ==> assigned@.contains(prs@[j2].number),
                    decreases n - j,
                {
                    if prs[j].base.gitref == h && !contains_number(&assigned, prs[j].number) {
                        let q = prs[j].duplicate();
                        let ghost old_g = g@;
                        let ghost old_assigned = assigned@;
                        proof {
                            lemma_in_groups_push(gs, g@, q.number);
                            lemma_distinct_push_member(gs, g@, q);
                            if pos.contains(j as int) {
                                let t = choose|t: int| 0 <= t < pos.len() && pos[t] == j as int;
                                assert(in_group(g@, q.number)) by {
                                    assert(g@[t].number == q.number);
                                }
                            }
                            lemma_push_distinct(pos, j as int);
                            pos = pos.push(j as int);
                            lemma_distinct_in_range_bound(pos, n as int);
                        }
                        g.push(q);
                        assigned.push(prs[j].number);
                        proof {
                            assert forall|x: usize| assigned@.contains(x) <==> in_groups(gs.push(g@), x) by {
                                lemma_in_groups_push(gs, g@, x);
                                lemma_in_groups_push(gs, old_g, x);
                                lemma_in_group_push(old_g, q, x);
                                if assigned@.contains(x) && x != q.number {
                                    let t = choose|t: int| 0 <= t < assigned@.len() && assigned@[t] == x;
                                    assert(old_assigned[t] == x);
                                }
                                if x == q.number {
                                    assert(assigned@[assigned@.len() - 1] == x);
                                } else if old_assigned.contains(x) {
                                    let t = choose|t: int| 0 <= t < old_assigned.len() && old_assigned[t] == x;
                                    assert(assigned@[t] == x);
                                }
                            }
                            assert forall|t: int| 0 <= t < g.len() implies in_index(prs@, #[trigger] g@[t]) by {
                                if t < old_g.len() {
                                    assert(g@[t] == old_g[t]);
                                } else {
                                    assert(same_pr(g@[t], prs@[j as int]));
                                }
                            }
                            assert forall|t: int|
                                1 <= t < g.len() implies exists|u: int| 0 <= u < t && (#[trigger] g@[t]).base_spec() == g@[u].head_spec() by {
                                if t < old_g.len() {
                                    let u = choose|u: int| 0 <= u < t && old_g[t].base_spec() == old_g[u].head_spec();
                                    assert(g@[u] == old_g[u]);
                                } else {
                                    assert(g@[k as int] == old_g[k as int]);
                                }
                            }
                            assert forall|t: int| 0 <= t < pos.len() implies same_pr(g@[t], prs@[#[trigger] pos[t]]) by {
                                if t < old_g.len() {
                                    assert(g@[t] == old_g[t]);
                                }
                            }
                            assert forall|t: int, j2: int|
                                0 <= t < k && 0 <= j2 < n && (#[trigger] prs@[j2]).base_spec() == (#[trigger] g@[t]).head_spec()
                                    implies assigned@.contains(prs@[j2].number) by {
                                assert(g@[t] == old_g[t]);
                                assert(old_assigned.contains(prs@[j2].number));
                                let u = choose|u: int| 0 <= u < old_assigned.len() && old_assigned[u] == prs@[j2].number;
                                assert(assigned@[u] == prs@[j2].number);
                            }
                            assert forall|j2: int| 0 <= j2 < j + 1 && (#[trigger] prs@[j2]).base_spec() == h@ implies assigned@.contains(prs@[j2].number) by {
                                if j2 < j {
                                    assert(old_assigned.contains(prs@[j2].number));
                                    let u = choose|u: int| 0 <= u < old_assigned.len() && old_assigned[u] == prs@[j2].number;
                                    assert(assigned@[u] == prs@[j2].number);
                                } else {
                                    assert(assigned@[assigned@.len() - 1] == prs@[j2].number);
                                }
                            }
                        }
                    }
                    j = j + 1;
                }
                k = k + 1;
            }
            let ghost gg = g@;
            let sorted = sort_stack(g, trunk);
            stacks.push(sorted);
            proof {
                let gs2 = gs.push(gg);
                assert forall|x: usize| in_groups(gs, x) implies in_groups(gs2, x) by {
                    lemma_in_groups_push(gs, gg, x);
                }
                assert(in_groups(gs2, prs@[i as int].number)) by {
                    lemma_in_groups_push(gs, gg, prs@[i as int].number);
                    assert(gg[0].number == prs@[i as int].number);
                }
                gs = gs2;
                assert forall|s: int| 0 <= s < gs.len() implies same_prs((#[trigger] stacks@[s])@, sorted_spec(gs[s], trunk@)) by {
                }
            }
        } else {
            proof {
                if prs@[i as int].base_spec() == trunk@ {
                    assert(assigned@.contains(prs@[i as int].number));
                }
            }
        }
        i = i + 1;
    }
    let r = order_by_size(&stacks, Ghost(gs));
    proof {
        let perm = choose|perm: Seq<int>|
            {
                &&& is_permutation_of_range(perm, gs.len() as int)
                &&& r.len() == gs.len()
                &&& forall|a: int| 0 <= a < r.len() ==> same_prs((#[trigger] r@[a])@, stacks@[perm[a]]@)
                &&& forall|a: int, b: int| 0 <= a < b < r.len() ==> #[trigger] larger_first(gs, perm[a], perm[b])
            };
        assert forall|a: int| 0 <= a < r.len() implies same_prs((#[trigger] r@[a])@, sorted_spec(gs[perm[a]], trunk@)) by {
            assert(0 <= perm[a] < gs.len());
            assert(same_prs(stacks@[perm[a]]@, sorted_spec(gs[perm[a]], trunk@)));
        }
        assert(groups_of(prs@, trunk@, gs));
    }
    r
}

} // verus!
