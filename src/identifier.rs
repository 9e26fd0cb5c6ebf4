//! Trunk recognition and the one-line summaries of stacks offered for selection.
use vstd::prelude::*;

use crate::pull_request::PullRequest;
use crate::text::{chars_of, decimal, decimal_spec, owned, push_str, same_text, slice_chars, string_of, trim_spec};

verus! {

/// A stack as offered in a selection list.
#[derive(Debug, Clone)]
pub struct StackSummary {
    /// The head branch of the bottom pull request.
    pub root_branch: String,
    /// How many pull requests the stack holds.
    pub pr_count: usize,
    /// Their numbers, bottom to top.
    pub pr_numbers: Vec<usize>,
    /// The start of the bottom pull request's title.
    pub title_snippet: String,
}

/// The number of bytes that `c` takes in UTF-8.
pub open spec fn utf8_width(c: char) -> nat {
    if (c as u32) < 0x80 {
        1
    } else if (c as u32) < 0x800 {
        2
    } else if (c as u32) < 0x10000 {
        3
    } else {
        4
    }
}

/// The length of `s` in UTF-8 bytes.
pub open spec fn byte_len(s: Seq<char>) -> nat
    decreases s.len(),
{
    if s.len() == 0 {
        0
    } else {
        utf8_width(s[0]) + byte_len(s.drop_first())
    }
}

/// How many leading characters of `s` fit in `limit` bytes.
pub open spec fn chars_within(s: Seq<char>, limit: nat) -> nat
    decreases s.len(),
{
    if s.len() == 0 || utf8_width(s[0]) > limit {
        0
    } else {
        1 + chars_within(s.drop_first(), (limit - utf8_width(s[0])) as nat)
    }
}

/// The title cut to 40 bytes: where it is longer, the characters that fit in its first 37
/// bytes, followed by "...".
pub open spec fn snippet_spec(title: Seq<char>) -> Seq<char> {
    if byte_len(title) > 40 {
        title.subrange(0, chars_within(title, 37) as int) + "..."@
    } else {
        title
    }
}

fn width(c: char) -> (r: usize)
    ensures
        r == utf8_width(c),
{
    if (c as u32) < 0x80 {
        1
    } else if (c as u32) < 0x800 {
        2
    } else if (c as u32) < 0x10000 {
        3
    } else {
        4
    }
}

/// Whether `t` takes more than `limit` bytes in UTF-8.
fn longer_than(t: &Vec<char>, limit: usize) -> (r: bool)
    ensures
        r == (byte_len(t@) > limit),
{
    let mut acc: usize = 0;
    let mut i: usize = 0;
    assert(t@.subrange(0, t@.len() as int) =~= t@);
    while i < t.len()
        invariant
            i <= t.len(),
            acc <= limit,
            byte_len(t@) == acc + byte_len(t@.subrange(i as int, t@.len() as int)),
        decreases t.len() - i,
    {
        assert(t@.subrange(i as int, t@.len() as int).drop_first() =~= t@.subrange(i + 1, t@.len() as int));
        let w = width(t[i]);
        if w > limit - acc {
            return true;
        }
        acc = acc + w;
        i = i + 1;
    }
    false
}

/// How many leading characters of `t` fit in `limit` bytes.
fn count_within(t: &Vec<char>, limit: usize) -> (r: usize)
    ensures
        r == chars_within(t@, limit as nat),
        r <= t.len(),
{
    let mut rem: usize = limit;
    let mut k: usize = 0;
    assert(t@.subrange(0, t@.len() as int) =~= t@);
    while k < t.len() && width(t[k]) <= rem
        invariant
            k <= t.len(),
            chars_within(t@, limit as nat) == k + chars_within(t@.subrange(k as int, t@.len() as int), rem as nat),
        decreases t.len() - k,
    {
        assert(t@.subrange(k as int, t@.len() as int).drop_first() =~= t@.subrange(k + 1, t@.len() as int));
        rem = rem - width(t[k]);
        k = k + 1;
    }
    k
}

/// "#n" for each number, joined by ", ".
pub open spec fn numbers_text(ns: Seq<usize>) -> Seq<char>
    decreases ns.len(),
{
    if ns.len() == 0 {
        Seq::empty()
    } else if ns.len() == 1 {
        "#"@ + decimal_spec(ns[0] as nat)
    } else {
        numbers_text(ns.drop_last()) + ", #"@ + decimal_spec(ns.last() as nat)
    }
}

impl StackSummary {
    /// Summarizes a stack given bottom to top.
    pub fn from_prs(prs: &[PullRequest], _trunk: &str) -> (r: Self)
        ensures
            r.root_branch@ == if prs@.len() > 0 { prs@[0].head_spec() } else { Seq::<char>::empty() },
            r.pr_count == prs@.len(),
            r.pr_numbers@.len() == prs@.len(),
            forall|i: int| 0 <= i < prs@.len() ==> r.pr_numbers@[i] == (#[trigger] prs@[i]).number,
            r.title_snippet@ == if prs@.len() > 0 {
                snippet_spec(trim_spec(prs@[0].title@))
            } else {
                Seq::<char>::empty()
            },
    {
        let mut pr_numbers: Vec<usize> = Vec::new();
        let mut i: usize = 0;
        while i < prs.len()
            invariant
                i <= prs.len(),
                pr_numbers@.len() == i,
                forall|k: int| 0 <= k < i ==> pr_numbers@[k] == (#[trigger] prs@[k]).number,
            decreases prs.len() - i,
        {
            pr_numbers.push(prs[i].number);
            i = i + 1;
        }
        if prs.len() == 0 {
            return StackSummary {
                root_branch: String::new(),
                pr_count: 0,
                pr_numbers,
                title_snippet: String::new(),
            };
        }
        let title = prs[0].raw_title();
        let chars = chars_of(title);
        let title_snippet = if longer_than(&chars, 40) {
            let k = count_within(&chars, 37);
            let mut t = string_of(slice_chars(&chars, 0, k).as_slice());
            push_str(&mut t, "...");
            t
        } else {
            owned(title)
        };
        StackSummary {
            root_branch: owned(prs[0].head()),
            pr_count: prs.len(),
            pr_numbers,
            title_snippet,
        }
    }

    /// "root (n PRs): #a, #b", with "PR" for a single one.
    pub fn display(&self) -> (r: String)
        ensures
            r@ == self.root_branch@ + " ("@ + decimal_spec(self.pr_count as nat) + " PR"@ + (if self.pr_count
                == 1 {
                ""@
            } else {
                "s"@
            }) + "): "@ + numbers_text(self.pr_numbers@),
    {
        let mut out = self.root_branch.clone();
        push_str(&mut out, " (");
        push_str(&mut out, decimal(self.pr_count).as_str());
        push_str(&mut out, " PR");
        if self.pr_count == 1 {
            push_str(&mut out, "");
        } else {
            push_str(&mut out, "s");
        }
        push_str(&mut out, "): ");
        let ghost head = out@;
        let ns = &self.pr_numbers;
        let mut i: usize = 0;
        while i < ns.len()
            invariant
                i <= ns.len(),
                out@ == head + numbers_text(ns@.subrange(0, i as int)),
            decreases ns.len() - i,
        {
            let ghost before = out@;
            if i > 0 {
                push_str(&mut out, ", #");
            } else {
                push_str(&mut out, "#");
            }
            push_str(&mut out, decimal(ns[i]).as_str());
            proof {
                let sub = ns@.subrange(0, i + 1);
                assert(sub.drop_last() =~= ns@.subrange(0, i as int));
                if i > 0 {
                    assert(out@ =~= before + (", #"@ + decimal_spec(ns@[i as int] as nat)));
                } else {
                    assert(out@ =~= before + ("#"@ + decimal_spec(ns@[i as int] as nat)));
                    assert(ns@.subrange(0, 0) =~= Seq::<usize>::empty());
                }
            }
            i = i + 1;
        }
        assert(ns@.subrange(0, ns.len() as int) =~= ns@);
        out
    }
}

/// The branch names taken for trunk when none is configured.
pub open spec fn common_trunk(b: Seq<char>) -> bool {
    b == "main"@ || b == "master"@ || b == "develop"@ || b == "dev"@ || b == "trunk"@
}

/// Whether `branch` is the configured trunk or one of the common trunk names.
pub fn is_trunk_branch(branch: &str, configured_trunk: Option<&str>) -> (r: bool)
    ensures
        r == ((configured_trunk is Some && branch@ == configured_trunk->0@) || common_trunk(branch@)),
{
    if let Some(trunk) = configured_trunk {
        if same_text(branch, trunk) {
            return true;
        }
    }
    same_text(branch, "main") || same_text(branch, "master") || same_text(branch, "develop") || same_text(
        branch,
        "dev",
    ) || same_text(branch, "trunk")
}

/// What to do when run on trunk.
#[derive(Debug, Clone, PartialEq)]
pub enum TrunkAction {
    /// An identifier was entered.
    EnterIdentifier(String),
    /// The stack at this position of the list was chosen.
    SelectStack(usize),
    Cancel,
}

} // verus!
