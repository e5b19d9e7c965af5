//! Read-only repository check: the report it produces, and the branch-tip part of the check.
//! Walking the object store is the caller's.

use crate::assoc::{table_find, table_has};
use crate::chains::{ChainStore, Version};
use crate::commit::{find_commit, commit_index};
use crate::delta::version_index;
use crate::gc::{chain_of, find_version_in, Marked};
use crate::repo::{Commit, Repo};
use crate::restore::views;
use crate::text::{lemma_lex_asymmetric, lemma_lex_irreflexive, lemma_lex_transitive, lemma_text_total, str_eq, str_less, text_less};
use vstd::prelude::*;
use vstd::relations::{sorted_by, total_ordering};

verus! {

/// One thing found broken.
pub struct Problem {
    /// `missingObject` | `brokenChain` | `danglingTip` | `badLogLine` | `badPack` | `corruptContent`
    pub kind: String,
    pub detail: String,
}

/// What a check found.
pub struct CheckReport {
    pub commits_checked: usize,
    /// Live stream versions whose backing object was looked for.
    pub objects_checked: usize,
    /// Whether a scrub was requested for this run.
    pub scrub_performed: bool,
    /// Live versions re-hashed (only non-zero when scrubbing).
    pub versions_scrubbed: usize,
    pub problems: Vec<Problem>,
}

impl CheckReport {
    /// Whether nothing was found broken.
    pub fn ok(&self) -> (r: bool)
        ensures
            r == (self.problems@.len() == 0),
    {
        self.problems.len() == 0
    }
}

/// A problem of `kind` with `detail`.
pub fn problem(kind: &str, detail: String) -> (p: Problem)
    ensures
        p.kind@ == kind@,
        p.detail == detail,
{
    Problem { kind: String::from_str(kind), detail }
}

/// The detail of a branch whose tip names no commit.
pub open spec fn unknown_tip_detail(name: Seq<char>, tip: Seq<char>) -> Seq<char> {
    "branch '"@ + name + "' points at unknown version "@ + tip
}

/// The detail of a current branch that is not in the branch list.
pub open spec fn missing_current_detail(name: Seq<char>) -> Seq<char> {
    "current branch '"@ + name + "' does not exist"@
}

/// The details of the branches in `bs` whose non-empty tip names no commit of `cs`, in order.
pub open spec fn dangling_details(cs: Seq<Commit>, bs: Seq<(String, String)>) -> Seq<Seq<char>>
    decreases bs.len(),
{
    if bs.len() == 0 {
        Seq::empty()
    } else {
        let d = dangling_details(cs, bs.drop_last());
        let e = bs.last();
        if e.1@.len() > 0 && commit_index(cs, e.1@) is None {
            d.push(unknown_tip_detail(e.0@, e.1@))
        } else {
            d
        }
    }
}

/// The details of every branch-tip problem of a repository.
pub open spec fn tip_problem_details(repo: Repo) -> Seq<Seq<char>> {
    let d = dangling_details(repo.commits@, repo.branches.branches@);
    if table_has(repo.branches.branches@, repo.branches.current@) {
        d
    } else {
        d.push(missing_current_detail(repo.branches.current@))
    }
}

/// The branch-tip problems of a repository, each of kind `danglingTip`: one per branch (in
/// list order) whose non-empty tip names no commit, then one when the current branch is not in
/// the list.
pub fn tip_problems(repo: &Repo) -> (r: Vec<Problem>)
    requires
        repo.wf(),
    ensures
        r@.len() == tip_problem_details(*repo).len(),
        forall|k: int|
            0 <= k < r@.len() ==> (#[trigger] r@[k]).kind@ == "danglingTip"@ && r@[k].detail@
                == tip_problem_details(*repo)[k],
{
    let ghost bs = repo.branches.branches@;
    let ghost cs = repo.commits@;
    proof {
        reveal_strlit("danglingTip");
        reveal_strlit("branch '");
        reveal_strlit("' points at unknown version ");
        reveal_strlit("current branch '");
        reveal_strlit("' does not exist");
    }
    let mut out: Vec<Problem> = Vec::new();
    let mut i: usize = 0;
    while i < repo.branches.branches.len()
        invariant
            bs == repo.branches.branches@,
            cs == repo.commits@,
            i <= bs.len(),
            out@.len() == dangling_details(cs, bs.take(i as int)).len(),
            forall|k: int|
                0 <= k < out@.len() ==> (#[trigger] out@[k]).kind@ == "danglingTip"@ && out@[k].detail@
                    == dangling_details(cs, bs.take(i as int))[k],
        decreases bs.len() - i,
    {
        let name = &repo.branches.branches[i].0;
        let tip = &repo.branches.branches[i].1;
        let ghost before = out@;
        proof {
            assert(bs.take(i + 1).drop_last() =~= bs.take(i as int));
            assert(bs.take(i + 1).last() == bs[i as int]);
        }
        if !tip.as_str().is_empty() && find_commit(&repo.commits, tip.as_str()).is_none() {
            let mut d = String::from_str("branch '");
            d.append(name.as_str());
            d.append("' points at unknown version ");
            d.append(tip.as_str());
            out.push(problem("danglingTip", d));
        }
        proof {
            let dd = dangling_details(cs, bs.take(i + 1));
            assert forall|k: int| 0 <= k < out@.len() implies (#[trigger] out@[k]).kind@ == "danglingTip"@
                && out@[k].detail@ == dd[k] by {
                if k < before.len() {
                    assert(out@[k] == before[k]);
                }
            }
        }
        i += 1;
    }
    proof {
        assert(bs.take(bs.len() as int) =~= bs);
    }
    let ghost before = out@;
    if crate::assoc::table_find(&repo.branches.branches, repo.branches.current.as_str()).is_none() {
        let mut d = String::from_str("current branch '");
        d.append(repo.branches.current.as_str());
        d.append("' does not exist");
        out.push(problem("danglingTip", d));
        proof {
            assert forall|k: int| 0 <= k < out@.len() implies (#[trigger] out@[k]).kind@ == "danglingTip"@
                && out@[k].detail@ == tip_problem_details(*repo)[k] by {
                if k < before.len() {
                    assert(out@[k] == before[k]);
                }
            }
        }
    }
    out
}

/// Every marked `(stream key, content hash)`, key by key.
pub open spec fn marked_pairs(m: Seq<(String, Vec<String>)>) -> Seq<(Seq<char>, Seq<char>)>
    decreases m.len(),
{
    if m.len() == 0 {
        Seq::empty()
    } else {
        marked_pairs(m.drop_last()) + m.last().1@.map_values(|h: String| (m.last().0@, h@))
    }
}

/// What is wrong with marked version `h` of stream `k`: no chain holds it (a broken chain), or
/// its object file is not among `existing` (a missing object); nothing otherwise.
pub open spec fn mark_problem(chains: Seq<(String, Vec<Version>)>, existing: Seq<Seq<char>>, k: Seq<char>, h: Seq<char>) -> Option<
    (Seq<char>, Seq<char>),
> {
    match version_index(chain_of(chains, k), h) {
        None => Some(("brokenChain"@, "no stored version for "@ + k + "@"@ + h)),
        Some(i) => {
            let o = chain_of(chains, k)[i].name();
            if existing.contains(o) {
                None
            } else {
                Some(("missingObject"@, o + " (needed by "@ + k + ")"@))
            }
        },
    }
}

/// The problems of marked versions, in order.
pub open spec fn mark_problems(chains: Seq<(String, Vec<Version>)>, existing: Seq<Seq<char>>, pairs: Seq<(Seq<char>, Seq<char>)>) -> Seq<
    (Seq<char>, Seq<char>),
>
    decreases pairs.len(),
{
    if pairs.len() == 0 {
        Seq::empty()
    } else {
        let rest = mark_problems(chains, existing, pairs.drop_last());
        match mark_problem(chains, existing, pairs.last().0, pairs.last().1) {
            Some(p) => rest.push(p),
            None => rest,
        }
    }
}

/// How many marked versions a chain holds (so that their object was looked for).
pub open spec fn held_count(chains: Seq<(String, Vec<Version>)>, pairs: Seq<(Seq<char>, Seq<char>)>) -> nat
    decreases pairs.len(),
{
    if pairs.len() == 0 {
        0
    } else {
        held_count(chains, pairs.drop_last()) + if version_index(chain_of(chains, pairs.last().0), pairs.last().1) is Some {
            1nat
        } else {
            0nat
        }
    }
}

/// Problems as plain values: `(kind, detail)`.
pub open spec fn problem_views(ps: Seq<Problem>) -> Seq<(Seq<char>, Seq<char>)> {
    ps.map_values(|p: Problem| (p.kind@, p.detail@))
}

fn version_problem(store: &ChainStore, existing: &Vec<String>, k: &str, h: &str) -> (r: (Option<Problem>, bool))
    requires
        store.wf(),
    ensures
        match mark_problem(store.chains.0@, views(existing@), k@, h@) {
            Some(p) => r.0 matches Some(q) && (q.kind@, q.detail@) == p,
            None => r.0 is None,
        },
        r.1 == version_index(chain_of(store.chains.0@, k@), h@) is Some,
{
    proof {
        reveal_strlit("brokenChain");
        reveal_strlit("no stored version for ");
        reveal_strlit("@");
        reveal_strlit("missingObject");
        reveal_strlit(" (needed by ");
        reveal_strlit(")");
    }
    let found = match table_find(&store.chains.0, k) {
        None => None,
        Some(i) => match find_version_in(&store.chains.0[i].1, h) {
            None => None,
            Some(j) => Some(store.chains.0[i].1[j].object_name()),
        },
    };
    match found {
        None => {
            let mut d = String::from_str("no stored version for ");
            d.append(k);
            d.append("@");
            d.append(h);
            (Some(problem("brokenChain", d)), false)
        },
        Some(o) => {
            let present = crate::commit::contains_text(existing, o.as_str());
            proof {
                crate::merge::lemma_views_contains(existing@, o@);
            }
            if present {
                (None, true)
            } else {
                let mut d = o;
                d.append(" (needed by ");
                d.append(k);
                d.append(")");
                (Some(problem("missingObject", d)), true)
            }
        },
    }
}

/// The problems of the marked versions, in mark order (see [`mark_problem`]), and how many of
/// them a chain holds, each of which had its object looked for among `existing`.
pub fn marked_problems(store: &ChainStore, marked: &Marked, existing: &Vec<String>) -> (r: (Vec<Problem>, usize))
    requires
        store.wf(),
    ensures
        problem_views(r.0@) == mark_problems(store.chains.0@, views(existing@), marked_pairs(marked@)),
        r.1 as nat == if held_count(store.chains.0@, marked_pairs(marked@)) > usize::MAX {
            usize::MAX as nat
        } else {
            held_count(store.chains.0@, marked_pairs(marked@))
        },
{
    let ghost chains = store.chains.0@;
    let ghost ex = views(existing@);
    let mut out: Vec<Problem> = Vec::new();
    let mut held: usize = 0;
    let mut i: usize = 0;
    while i < marked.len()
        invariant
            store.wf(),
            chains == store.chains.0@,
            ex == views(existing@),
            i <= marked@.len(),
            problem_views(out@) == mark_problems(chains, ex, marked_pairs(marked@.take(i as int))),
            held as nat == if held_count(chains, marked_pairs(marked@.take(i as int))) > usize::MAX {
                usize::MAX as nat
            } else {
                held_count(chains, marked_pairs(marked@.take(i as int)))
            },
        decreases marked@.len() - i,
    {
        let ghost prefix = marked_pairs(marked@.take(i as int));
        proof {
            assert(marked@.take(i + 1).drop_last() =~= marked@.take(i as int));
            assert(marked@.take(i + 1).last() == marked@[i as int]);
        }
        let k = marked[i].0.as_str();
        let hs = &marked[i].1;
        let mut j: usize = 0;
        let ghost row = hs@.map_values(|h: String| (k@, h@));
        while j < hs.len()
            invariant
                store.wf(),
                chains == store.chains.0@,
                ex == views(existing@),
                j <= hs@.len(),
                row == hs@.map_values(|h: String| (k@, h@)),
                problem_views(out@) == mark_problems(chains, ex, prefix + row.take(j as int)),
                held as nat == if held_count(chains, prefix + row.take(j as int)) > usize::MAX {
                    usize::MAX as nat
                } else {
                    held_count(chains, prefix + row.take(j as int))
                },
            decreases hs@.len() - j,
        {
            proof {
                assert((prefix + row.take(j + 1)).drop_last() =~= prefix + row.take(j as int));
                assert((prefix + row.take(j + 1)).last() == (k@, hs@[j as int]@));
            }
            let (p, h_ok) = version_problem(store, existing, k, hs[j].as_str());
            let ghost before = out@;
            match p {
                Some(q) => {
                    out.push(q);
                    proof {
                        assert(problem_views(out@) =~= problem_views(before).push((out@[before.len() as int].kind@, out@[before.len() as int].detail@)));
                    }
                },
                None => {},
            }
            if h_ok && held < usize::MAX {
                held = held + 1;
            }
            j = j + 1;
        }
        proof {
            assert(row.take(hs@.len() as int) =~= row);
            assert(marked_pairs(marked@.take(i + 1)) =~= prefix + row);
        }
        i = i + 1;
    }
    proof {
        assert(marked@.take(marked@.len() as int) =~= marked@);
    }
    (out, held)
}

/// The order problems are reported in: by kind, then detail, each by its UTF-8 bytes.
pub open spec fn problem_order() -> spec_fn((Seq<char>, Seq<char>), (Seq<char>, Seq<char>)) -> bool {
    |a: (Seq<char>, Seq<char>), b: (Seq<char>, Seq<char>)| text_less(a.0, b.0) || (a.0 == b.0 && !text_less(b.1, a.1))
}

proof fn lemma_problem_order_total()
    ensures
        total_ordering(problem_order()),
{
    let r = problem_order();
    let enc = |s: Seq<char>| vstd::utf8::encode_utf8(s);
    assert forall|x: (Seq<char>, Seq<char>)| #[trigger] r(x, x) by {
        lemma_lex_irreflexive(enc(x.1));
    }
    assert forall|x: (Seq<char>, Seq<char>), y: (Seq<char>, Seq<char>)| #[trigger] r(x, y) && #[trigger] r(y, x) implies x == y by {
        if text_less(x.0, y.0) {
            lemma_lex_asymmetric(enc(x.0), enc(y.0));
        } else if text_less(y.0, x.0) {
            lemma_lex_asymmetric(enc(y.0), enc(x.0));
        } else {
            lemma_text_total(x.1, y.1);
        }
    }
    assert forall|x: (Seq<char>, Seq<char>), y: (Seq<char>, Seq<char>), z: (Seq<char>, Seq<char>)| #[trigger] r(x, y) && #[trigger] r(y, z) implies r(x, z) by {
        if text_less(x.0, y.0) && text_less(y.0, z.0) {
            lemma_lex_transitive(enc(x.0), enc(y.0), enc(z.0));
        } else if x.0 == y.0 && y.0 == z.0 {
            if text_less(z.1, x.1) {
                lemma_text_total(x.1, y.1);
                if text_less(x.1, y.1) {
                    lemma_lex_transitive(enc(z.1), enc(x.1), enc(y.1));
                }
            }
        }
    }
    assert forall|x: (Seq<char>, Seq<char>), y: (Seq<char>, Seq<char>)| #[trigger] r(x, y) || #[trigger] r(y, x) by {
        lemma_text_total(x.0, y.0);
        if x.0 == y.0 && text_less(y.1, x.1) {
            lemma_lex_asymmetric(enc(y.1), enc(x.1));
        }
    }
}

fn problem_le(a: &Problem, b: &Problem) -> (r: bool)
    ensures
        r == (problem_order())((a.kind@, a.detail@), (b.kind@, b.detail@)),
{
    if str_less(a.kind.as_str(), b.kind.as_str()) {
        true
    } else if str_eq(a.kind.as_str(), b.kind.as_str()) {
        !str_less(b.detail.as_str(), a.detail.as_str())
    } else {
        false
    }
}

/// Problems in report order: by kind, then detail.
pub fn sort_problems(ps: Vec<Problem>) -> (r: Vec<Problem>)
    ensures
        problem_views(r@) == problem_views(ps@).sort_by(problem_order()),
{
    let ghost pv = problem_views(ps@);
    let n = ps.len();
    let mut rest = ps;
    let mut out: Vec<Problem> = Vec::new();
    let mut i: usize = 0;
    proof {
        assert(problem_views(out@) =~= pv.take(0));
    }
    while i < n
        invariant
            n == pv.len(),
            i <= n,
            rest@.len() == n - i,
            forall|k: int| 0 <= k < rest@.len() ==> (rest@[k].kind@, rest@[k].detail@) == pv[i + k],
            sorted_by(problem_views(out@), problem_order()),
            problem_views(out@).to_multiset() == pv.take(i as int).to_multiset(),
        decreases n - i,
    {
        let x = rest.remove(0);
        let ghost xv = (x.kind@, x.detail@);
        proof {
            assert(xv == pv[i as int]);
        }
        let ghost old_v = problem_views(out@);
        let mut p: usize = 0;
        while p < out.len() && problem_le(&out[p], &x)
            invariant
                p <= out@.len(),
                problem_views(out@) == old_v,
                xv == (x.kind@, x.detail@),
                forall|k: int| 0 <= k < p ==> (problem_order())(old_v[k], xv),
            decreases out@.len() - p,
        {
            p = p + 1;
        }
        out.insert(p, x);
        proof {
            let r = problem_order();
            lemma_problem_order_total();
            let nv = problem_views(out@);
            assert(nv =~= old_v.insert(p as int, xv));
            vstd::seq_lib::to_multiset_insert(old_v, p as int, xv);
            assert(pv.take(i + 1) =~= pv.take(i as int).push(xv));
            vstd::seq_lib::to_multiset_build(pv.take(i as int), xv);
            assert forall|a: int, b: int| 0 <= a < b < nv.len() implies #[trigger] r(nv[a], nv[b]) by {
                if b < p {
                } else if b == p {
                    assert(nv[a] == old_v[a]);
                } else if a < p {
                    assert(nv[a] == old_v[a] && nv[b] == old_v[b - 1]);
                    assert(r(old_v[a], old_v[b - 1]));
                } else if a == p {
                    assert(nv[b] == old_v[b - 1]);
                    assert(!r(old_v[p as int], xv));
                    assert(r(xv, old_v[p as int]));
                    if p < b - 1 {
                        assert(r(old_v[p as int], old_v[b - 1]));
                    }
                } else {
                    assert(nv[a] == old_v[a - 1] && nv[b] == old_v[b - 1]);
                }
            }
            assert forall|k: int| 0 <= k < rest@.len() implies (rest@[k].kind@, rest@[k].detail@) == pv[i + 1 + k] by {}
        }
        i = i + 1;
    }
    proof {
        assert(pv.take(n as int) =~= pv);
        lemma_problem_order_total();
        pv.lemma_sort_by_ensures(problem_order());
        vstd::seq_lib::lemma_sorted_unique(problem_views(out@), pv.sort_by(problem_order()), problem_order());
    }
    out
}

} // verus!
