//! The commit history as a graph: which commit an id names, the tree of files a commit
//! stands for (a fold of each commit's changes along the first-parent chain), and the set of
//! commits reachable from a tip.

use crate::assoc::{keys_sorted, table_del, table_find, table_get, table_insert, table_put, table_remove};
use crate::error::KvcError;
use crate::repo::{blake3_digest, now_iso, short_hash, Branches, Commit, CommittedFile, Repo, TrackedFile};
use crate::text::{ascii_chars, hex_ascii, str_eq};
use vstd::prelude::*;
use vstd::string::StringExecFns;
use vstd::utf8::encode_utf8;

verus! {

/// A tree: path to committed entry, in path order.
pub type Tree = Vec<(String, CommittedFile)>;

/// The index of the commit that `id` names: the last one carrying that id.
pub open spec fn commit_index(cs: Seq<Commit>, id: Seq<char>) -> Option<int>
    decreases cs.len(),
{
    if cs.len() == 0 {
        None
    } else if cs.last().id@ == id {
        Some(cs.len() - 1)
    } else {
        commit_index(cs.drop_last(), id)
    }
}

/// The first-parent chain from commit `i` (itself first, the root last), following at most
/// `fuel` parent links; `None` when a first parent names no commit or the links run on past
/// `fuel` (they then loop).
pub open spec fn chain_from(cs: Seq<Commit>, i: int, fuel: nat) -> Option<Seq<int>>
    decreases fuel,
{
    if cs[i].parents@.len() == 0 {
        Some(seq![i])
    } else if fuel == 0 {
        None
    } else {
        match commit_index(cs, cs[i].parents@[0]@) {
            None => None,
            Some(p) => match chain_from(cs, p, (fuel - 1) as nat) {
                None => None,
                Some(rest) => Some(seq![i] + rest),
            },
        }
    }
}

/// The first-parent chain of the commit named `id`. A chain of distinct commits has at most
/// as many links as there are commits, so running out of links means the chain loops.
pub open spec fn first_parent_chain(cs: Seq<Commit>, id: Seq<char>) -> Option<Seq<int>> {
    match commit_index(cs, id) {
        None => None,
        Some(i) => chain_from(cs, i, cs.len()),
    }
}

/// Whether an entry records a deletion.
pub open spec fn is_deletion(f: CommittedFile) -> bool {
    f.status@ == seq!['D']
}

/// One recorded change applied to a tree: a deletion removes the path, anything else stores
/// the entry under its path.
pub open spec fn apply_file(t: Seq<(String, CommittedFile)>, f: CommittedFile) -> Seq<
    (String, CommittedFile),
> {
    if is_deletion(f) {
        table_del(t, f.path@)
    } else {
        table_put(t, f.path, f)
    }
}

/// A commit's recorded changes applied in order.
pub open spec fn apply_files(t: Seq<(String, CommittedFile)>, files: Seq<CommittedFile>) -> Seq<
    (String, CommittedFile),
>
    decreases files.len(),
{
    if files.len() == 0 {
        t
    } else {
        apply_file(apply_files(t, files.drop_last()), files.last())
    }
}

/// The tree at the head of a chain: the changes of every commit on it, root first.
pub open spec fn chain_tree(cs: Seq<Commit>, chain: Seq<int>) -> Seq<(String, CommittedFile)>
    decreases chain.len(),
{
    if chain.len() == 0 {
        seq![]
    } else {
        apply_files(chain_tree(cs, chain.skip(1)), cs[chain[0]].files@)
    }
}

/// The tree as of commit `id`, `None` when the id or a first parent names no commit.
pub open spec fn tree_spec(cs: Seq<Commit>, id: Seq<char>) -> Option<Seq<(String, CommittedFile)>> {
    match first_parent_chain(cs, id) {
        None => None,
        Some(chain) => Some(chain_tree(cs, chain)),
    }
}

/// An exact copy of a committed entry.
pub fn copy_file(f: &CommittedFile) -> (r: CommittedFile)
    ensures
        r == *f,
{
    CommittedFile {
        path: f.path.clone(),
        status: f.status.clone(),
        content: match &f.content {
            Some(c) => Some(c.clone()),
            None => None,
        },
        is_kra: f.is_kra,
        file_hash: match &f.file_hash {
            Some(h) => Some(h.clone()),
            None => None,
        },
        original_size: f.original_size,
    }
}

/// Position of the commit that `id` names.
pub fn find_commit(commits: &Vec<Commit>, id: &str) -> (r: Option<usize>)
    ensures
        match r {
            Some(i) => commit_index(commits@, id@) == Some(i as int) && i < commits.len(),
            None => commit_index(commits@, id@) is None,
        },
{
    let mut i: usize = commits.len();
    assert(commits@.take(i as int) =~= commits@);
    while i > 0
        invariant
            i <= commits.len(),
            commit_index(commits@, id@) == commit_index(commits@.take(i as int), id@),
        decreases i,
    {
        let ghost pre = commits@.take(i as int);
        assert(pre.drop_last() =~= commits@.take(i - 1));
        if str_eq(commits[i - 1].id.as_str(), id) {
            return Some(i - 1);
        }
        i = i - 1;
    }
    None
}

/// Whether an entry records a deletion.
pub fn deletes(f: &CommittedFile) -> (r: bool)
    ensures
        r == is_deletion(*f),
{
    let s = f.status.as_str();
    proof {
        reveal_strlit("D");
        assert("D"@ =~= seq!['D']);
    }
    str_eq(s, "D")
}

/// Apply one commit's recorded changes to a tree.
pub fn apply_changes(tree: &mut Tree, files: &Vec<CommittedFile>)
    requires
        keys_sorted(old(tree)@),
    ensures
        keys_sorted(final(tree)@),
        final(tree)@ == apply_files(old(tree)@, files@),
{
    let mut j: usize = 0;
    assert(files@.take(0) =~= Seq::<CommittedFile>::empty());
    while j < files.len()
        invariant
            j <= files.len(),
            keys_sorted(tree@),
            tree@ == apply_files(old(tree)@, files@.take(j as int)),
        decreases files.len() - j,
    {
        let f = &files[j];
        assert(files@.take(j + 1).drop_last() =~= files@.take(j as int));
        assert(files@.take(j + 1).last() == *f);
        if deletes(f) {
            let _ = table_remove(tree, f.path.as_str());
        } else {
            table_insert(tree, f.path.clone(), copy_file(f));
        }
        j = j + 1;
    }
    assert(files@.take(files.len() as int) =~= files@);
}


/// The chain found so far followed by the rest of the walk.
pub open spec fn chain_then(done: Seq<int>, rest: Option<Seq<int>>) -> Option<Seq<int>> {
    match rest {
        None => None,
        Some(r) => Some(done + r),
    }
}

/// Effective tree (path to committed entry, in path order) as of `commit_id`: the changes of
/// every commit on its first-parent chain, applied root first. `None` when the id or a first
/// parent names no commit, or when the first parents loop.
pub fn tree_at_commit(commits: &Vec<Commit>, commit_id: &str) -> (r: Option<Tree>)
    ensures
        r matches Some(t) ==> keys_sorted(t@),
        match tree_spec(commits@, commit_id@) {
            None => r is None,
            Some(t) => r matches Some(tree) && tree@ == t,
        },
{
    let ghost cs = commits@;
    let mut cur = match find_commit(commits, commit_id) {
        Some(i) => i,
        None => return None,
    };
    let mut chain: Vec<usize> = Vec::new();
    let mut fuel: usize = commits.len();
    assert(chain@.map_values(|x: usize| x as int) =~= Seq::<int>::empty());
    assert(first_parent_chain(cs, commit_id@) == chain_then(
        Seq::<int>::empty(),
        chain_from(cs, cur as int, fuel as nat),
    )) by {
        match chain_from(cs, cur as int, fuel as nat) {
            Some(r) => {
                assert(Seq::<int>::empty() + r =~= r);
            },
            None => {},
        }
    }
    loop
        invariant_except_break
            cs == commits@,
            cur < commits.len(),
            fuel <= commits.len(),
            forall|k: int| 0 <= k < chain@.len() ==> #[trigger] chain@[k] < commits.len(),
            first_parent_chain(cs, commit_id@) == chain_then(
                chain@.map_values(|x: usize| x as int),
                chain_from(cs, cur as int, fuel as nat),
            ),
        ensures
            forall|k: int| 0 <= k < chain@.len() ==> #[trigger] chain@[k] < commits.len(),
            first_parent_chain(cs, commit_id@) == Some(chain@.map_values(|x: usize| x as int)),
        decreases fuel,
    {
        let ghost before = chain@.map_values(|x: usize| x as int);
        let ghost rest = chain_from(cs, cur as int, fuel as nat);
        chain.push(cur);
        assert(chain@.map_values(|x: usize| x as int) =~= before.push(cur as int));
        if commits[cur].parents.len() == 0 {
            assert(rest == Some(seq![cur as int]));
            assert(before.push(cur as int) =~= before + seq![cur as int]);
            break;
        }
        if fuel == 0 {
            assert(rest is None);
            return None;
        }
        let pid = commits[cur].parents[0].as_str();
        assert(pid@ == cs[cur as int].parents@[0]@);
        let next = match find_commit(commits, pid) {
            Some(p) => p,
            None => {
                assert(rest is None);
                return None;
            },
        };
        proof {
            match chain_from(cs, next as int, (fuel - 1) as nat) {
                Some(r) => {
                    assert(rest == Some(seq![cur as int] + r));
                    assert(before + (seq![cur as int] + r) =~= before.push(cur as int) + r);
                },
                None => {
                    assert(rest is None);
                },
            }
        }
        cur = next;
        fuel = fuel - 1;
    }
    let ghost ch = chain@.map_values(|x: usize| x as int);
    let mut tree: Tree = Vec::new();
    let mut k: usize = chain.len();
    assert(ch.skip(ch.len() as int) =~= Seq::<int>::empty());
    while k > 0
        invariant
            cs == commits@,
            k <= chain.len(),
            ch == chain@.map_values(|x: usize| x as int),
            forall|m: int| 0 <= m < chain@.len() ==> #[trigger] chain@[m] < commits.len(),
            keys_sorted(tree@),
            tree@ == chain_tree(cs, ch.skip(k as int)),
        decreases k,
    {
        let idx = chain[k - 1];
        assert(ch.skip(k - 1).skip(1) =~= ch.skip(k as int));
        assert(ch[k - 1] == idx as int);
        assert(ch.skip(k - 1)[0] == idx as int);
        assert(chain_tree(cs, ch.skip(k - 1)) == apply_files(
            chain_tree(cs, ch.skip(k as int)),
            cs[idx as int].files@,
        ));
        apply_changes(&mut tree, &commits[idx].files);
        k = k - 1;
    }
    assert(ch.skip(0) =~= ch);
    Some(tree)
}


/// The commit an id names carries that id.
pub proof fn lemma_commit_index(cs: Seq<Commit>, id: Seq<char>)
    ensures
        commit_index(cs, id) matches Some(i) ==> 0 <= i < cs.len() && cs[i].id@ == id,
    decreases cs.len(),
{
    if cs.len() > 0 && cs.last().id@ != id {
        lemma_commit_index(cs.drop_last(), id);
    }
}

proof fn lemma_chain_fuel(cs: Seq<Commit>, i: int, f: nat, g: nat)
    requires
        f <= g,
        chain_from(cs, i, f) is Some,
    ensures
        chain_from(cs, i, g) == chain_from(cs, i, f),
    decreases f,
{
    if cs[i].parents@.len() > 0 {
        let p = commit_index(cs, cs[i].parents@[0]@)->0;
        lemma_chain_fuel(cs, p, (f - 1) as nat, (g - 1) as nat);
    }
}

/// The tree of a commit is its first parent's tree with the commit's own recorded changes
/// applied; a commit without parents applies its changes to the empty tree.
pub proof fn lemma_tree_fold(cs: Seq<Commit>, id: Seq<char>)
    requires
        tree_spec(cs, id) is Some,
    ensures
        ({
            let c = cs[commit_index(cs, id)->0];
            if c.parents@.len() == 0 {
                tree_spec(cs, id) == Some(apply_files(seq![], c.files@))
            } else {
                tree_spec(cs, c.parents@[0]@) matches Some(pt) && tree_spec(cs, id) == Some(
                    apply_files(pt, c.files@),
                )
            }
        }),
{
    lemma_commit_index(cs, id);
    let i = commit_index(cs, id)->0;
    let chain = first_parent_chain(cs, id)->0;
    if cs[i].parents@.len() == 0 {
        assert(chain =~= seq![i]);
        assert(chain.skip(1) =~= Seq::<int>::empty());
        assert(chain[0] == i);
        assert(chain_tree(cs, chain.skip(1)) =~= Seq::<(String, CommittedFile)>::empty());
        assert(chain_tree(cs, chain) == apply_files(chain_tree(cs, chain.skip(1)), cs[i].files@));
    } else {
        lemma_commit_index(cs, cs[i].parents@[0]@);
        let p = commit_index(cs, cs[i].parents@[0]@)->0;
        let rest = chain_from(cs, p, (cs.len() - 1) as nat)->0;
        lemma_chain_fuel(cs, p, (cs.len() - 1) as nat, cs.len());
        assert(chain == seq![i] + rest);
        assert(chain.skip(1) =~= rest);
        assert(chain[0] == i);
        assert(chain_tree(cs, chain) == apply_files(chain_tree(cs, rest), cs[i].files@));
    }
}


/// Whether no commit of `cs` carries `id`.
pub open spec fn fresh_id(cs: Seq<Commit>, id: Seq<char>) -> bool {
    forall|i: int| 0 <= i < cs.len() ==> (#[trigger] cs[i]).id@ != id
}

proof fn lemma_chain_push(cs: Seq<Commit>, c: Commit, p: int, f: nat)
    requires
        0 <= p < cs.len(),
        chain_from(cs, p, f) is Some,
        fresh_id(cs, c.id@),
    ensures
        chain_from(cs.push(c), p, f) == chain_from(cs, p, f),
        forall|j: int| 0 <= j < chain_from(cs, p, f)->0.len() ==> 0 <= #[trigger] chain_from(cs, p, f)->0[j] < cs.len(),
    decreases f,
{
    let cs2 = cs.push(c);
    assert(cs2[p] == cs[p]);
    if cs[p].parents@.len() > 0 {
        let x = cs[p].parents@[0]@;
        lemma_commit_index(cs, x);
        let q = commit_index(cs, x)->0;
        assert(cs2.drop_last() =~= cs);
        assert(cs2.last().id@ != x);
        assert(commit_index(cs2, x) == commit_index(cs, x));
        lemma_chain_push(cs, c, q, (f - 1) as nat);
    }
}

proof fn lemma_chain_tree_push(cs: Seq<Commit>, c: Commit, chain: Seq<int>)
    requires
        forall|j: int| 0 <= j < chain.len() ==> 0 <= #[trigger] chain[j] < cs.len(),
    ensures
        chain_tree(cs.push(c), chain) == chain_tree(cs, chain),
    decreases chain.len(),
{
    if chain.len() > 0 {
        assert forall|j: int| 0 <= j < chain.skip(1).len() implies 0 <= #[trigger] chain.skip(1)[j] < cs.len() by {
            assert(chain.skip(1)[j] == chain[j + 1]);
        }
        lemma_chain_tree_push(cs, c, chain.skip(1));
        assert(cs.push(c)[chain[0]] == cs[chain[0]]);
    }
}

/// Recording a commit with a fresh id on top of a parent whose tree is known: the tree at the
/// new commit is its first parent's tree with the commit's own changes applied.
pub proof fn lemma_tree_after_push(cs: Seq<Commit>, c: Commit)
    requires
        c.parents@.len() > 0,
        tree_spec(cs, c.parents@[0]@) is Some,
        fresh_id(cs, c.id@),
    ensures
        tree_spec(cs.push(c), c.id@) == Some(apply_files(tree_spec(cs, c.parents@[0]@)->0, c.files@)),
{
    let cs2 = cs.push(c);
    let n = cs.len() as int;
    assert(commit_index(cs2, c.id@) == Some(n));
    let x = c.parents@[0]@;
    lemma_commit_index(cs, x);
    let q = commit_index(cs, x)->0;
    assert(cs2.drop_last() =~= cs);
    assert(cs[q].id@ == x);
    assert(commit_index(cs2, x) == Some(q));
    let chain = chain_from(cs, q, cs.len())->0;
    lemma_chain_push(cs, c, q, cs.len());
    lemma_chain_tree_push(cs, c, chain);
    assert(cs2[n] == c);
    let full = chain_from(cs2, n, cs2.len())->0;
    assert(full == seq![n] + chain);
    assert(full.skip(1) =~= chain);
    assert(full[0] == n);
}

/// The parent ids of the commit that `id` names (none when it names no commit).
pub open spec fn parents_of(cs: Seq<Commit>, id: Seq<char>) -> Seq<Seq<char>> {
    match commit_index(cs, id) {
        Some(i) => cs[i].parents@.map_values(|p: String| p@),
        None => seq![],
    }
}

/// `y` is reachable from `x` in at most `n` parent steps.
pub open spec fn reach_in(cs: Seq<Commit>, x: Seq<char>, y: Seq<char>, n: nat) -> bool
    decreases n,
{
    x == y || (n > 0 && exists|k: int|
        0 <= k < parents_of(cs, x).len() && reach_in(
            cs,
            #[trigger] parents_of(cs, x)[k],
            y,
            (n - 1) as nat,
        ))
}

/// `y` is `x` or reachable from it over the full parent relation.
pub open spec fn reachable(cs: Seq<Commit>, x: Seq<char>, y: Seq<char>) -> bool {
    exists|n: nat| reach_in(cs, x, y, n)
}

/// Every parent id recorded anywhere in `cs`.
pub open spec fn all_parent_ids(cs: Seq<Commit>) -> Seq<Seq<char>>
    decreases cs.len(),
{
    if cs.len() == 0 {
        seq![]
    } else {
        all_parent_ids(cs.drop_last()) + cs.last().parents@.map_values(|p: String| p@)
    }
}

proof fn lemma_parent_in_all(cs: Seq<Commit>, i: int, k: int)
    requires
        0 <= i < cs.len(),
        0 <= k < cs[i].parents@.len(),
    ensures
        all_parent_ids(cs).contains(cs[i].parents@[k]@),
    decreases cs.len(),
{
    let ps = cs.last().parents@.map_values(|p: String| p@);
    if i == cs.len() - 1 {
        assert((all_parent_ids(cs.drop_last()) + ps)[all_parent_ids(cs.drop_last()).len() + k]
            == ps[k]);
    } else {
        lemma_parent_in_all(cs.drop_last(), i, k);
        let j = choose|j: int|
            0 <= j < all_parent_ids(cs.drop_last()).len() && all_parent_ids(cs.drop_last())[j]
                == cs[i].parents@[k]@;
        assert((all_parent_ids(cs.drop_last()) + ps)[j] == all_parent_ids(cs.drop_last())[j]);
    }
}

/// Whether some text of `v` equals `s`.
pub fn contains_text(v: &Vec<String>, s: &str) -> (r: bool)
    ensures
        r == exists|i: int| 0 <= i < v@.len() && (#[trigger] v@[i])@ == s@,
{
    let mut i: usize = 0;
    while i < v.len()
        invariant
            i <= v.len(),
            forall|j: int| 0 <= j < i ==> (#[trigger] v@[j])@ != s@,
        decreases v.len() - i,
    {
        if str_eq(v[i].as_str(), s) {
            return true;
        }
        i = i + 1;
    }
    false
}

/// The texts of `v` as a set.
pub open spec fn text_set(v: Seq<String>) -> Set<Seq<char>> {
    Set::new(|t: Seq<char>| exists|i: int| 0 <= i < v.len() && (#[trigger] v[i])@ == t)
}

proof fn lemma_closed_reach(cs: Seq<Commit>, s: Set<Seq<char>>, x: Seq<char>, y: Seq<char>, n: nat)
    requires
        s.contains(x),
        forall|a: Seq<char>, k: int|
            s.contains(a) && 0 <= k < parents_of(cs, a).len() ==> s.contains(
                #[trigger] parents_of(cs, a)[k],
            ),
        reach_in(cs, x, y, n),
    ensures
        s.contains(y),
    decreases n,
{
    if x != y {
        let k = choose|k: int|
            0 <= k < parents_of(cs, x).len() && reach_in(
                cs,
                #[trigger] parents_of(cs, x)[k],
                y,
                (n - 1) as nat,
            );
        lemma_closed_reach(cs, s, parents_of(cs, x)[k], y, (n - 1) as nat);
    }
}

proof fn lemma_reach_step(cs: Seq<Commit>, tip: Seq<char>, x: Seq<char>, k: int)
    requires
        reachable(cs, tip, x),
        0 <= k < parents_of(cs, x).len(),
    ensures
        reachable(cs, tip, parents_of(cs, x)[k]),
{
    let n = choose|n: nat| reach_in(cs, tip, x, n);
    lemma_reach_extend(cs, tip, x, n, k);
}

proof fn lemma_reach_extend(cs: Seq<Commit>, a: Seq<char>, x: Seq<char>, n: nat, k: int)
    requires
        reach_in(cs, a, x, n),
        0 <= k < parents_of(cs, x).len(),
    ensures
        reach_in(cs, a, parents_of(cs, x)[k], n + 1),
    decreases n,
{
    let y = parents_of(cs, x)[k];
    if a == x {
        assert(reach_in(cs, y, y, n));
    } else {
        let j = choose|j: int|
            0 <= j < parents_of(cs, a).len() && reach_in(
                cs,
                #[trigger] parents_of(cs, a)[j],
                x,
                (n - 1) as nat,
            );
        lemma_reach_extend(cs, parents_of(cs, a)[j], x, (n - 1) as nat, k);
        assert(reach_in(cs, parents_of(cs, a)[j], y, n));
    }
}


/// Append copies of `items` to `v`.
pub fn push_copies(v: &mut Vec<String>, items: &Vec<String>)
    ensures
        final(v)@ == old(v)@ + items@,
{
    let mut k: usize = 0;
    while k < items.len()
        invariant
            k <= items.len(),
            v@ == old(v)@ + items@.take(k as int),
        decreases items.len() - k,
    {
        v.push(items[k].clone());
        assert(items@.take(k + 1) =~= items@.take(k as int).push(items@[k as int]));
        k = k + 1;
    }
    assert(items@.take(items.len() as int) =~= items@);
}

proof fn lemma_text_set_push(v: Seq<String>, x: String, t: Seq<char>)
    ensures
        text_set(v.push(x)).contains(t) == (text_set(v).contains(t) || x@ == t),
{
    if text_set(v.push(x)).contains(t) && x@ != t {
        let i = choose|i: int| 0 <= i < v.push(x).len() && (#[trigger] v.push(x)[i])@ == t;
        assert(v.push(x)[i] == v[i]);
    }
    if text_set(v).contains(t) {
        let i = choose|i: int| 0 <= i < v.len() && (#[trigger] v[i])@ == t;
        assert(v.push(x)[i] == v[i]);
    }
    if x@ == t {
        assert(v.push(x)[v.len() as int] == x);
    }
}

proof fn lemma_text_set_concat(v: Seq<String>, w: Seq<String>, t: Seq<char>)
    ensures
        text_set(v + w).contains(t) == (text_set(v).contains(t) || text_set(w).contains(t)),
{
    if text_set(v + w).contains(t) {
        let i = choose|i: int| 0 <= i < (v + w).len() && (#[trigger] (v + w)[i])@ == t;
        if i >= v.len() {
            assert((v + w)[i] == w[i - v.len()]);
        }
    }
    if text_set(v).contains(t) {
        let i = choose|i: int| 0 <= i < v.len() && (#[trigger] v[i])@ == t;
        assert((v + w)[i] == v[i]);
    }
    if text_set(w).contains(t) {
        let i = choose|i: int| 0 <= i < w.len() && (#[trigger] w[i])@ == t;
        assert((v + w)[v.len() + i] == w[i]);
    }
}

/// Every commit id reachable from `tip` (itself included) over the full parent set, each once.
pub fn ancestors(commits: &Vec<Commit>, tip: &str) -> (r: Vec<String>)
    ensures
        forall|i: int, j: int| 0 <= i < j < r@.len() ==> (#[trigger] r@[i])@ != (#[trigger] r@[j])@,
        forall|y: Seq<char>| #[trigger] text_set(r@).contains(y) <==> reachable(commits@, tip@, y),
{
    let ghost cs = commits@;
    let ghost all = seq![tip@] + all_parent_ids(cs);
    let ghost universe = all.to_set();
    proof {
        vstd::seq_lib::seq_to_set_is_finite(all);
        assert(all[0] == tip@);
        assert(reach_in(cs, tip@, tip@, 0));
    }
    let mut seen: Vec<String> = Vec::new();
    let mut queue: Vec<String> = Vec::new();
    queue.push(tip.to_owned());
    proof {
        lemma_text_set_push(Seq::<String>::empty(), queue@[0], tip@);
        assert(Seq::<String>::empty().push(queue@[0]) == queue@);
    }
    while queue.len() > 0
        invariant
            cs == commits@,
            all == seq![tip@] + all_parent_ids(cs),
            universe == all.to_set(),
            universe.finite(),
            forall|i: int, j: int|
                0 <= i < j < seen@.len() ==> (#[trigger] seen@[i])@ != (#[trigger] seen@[j])@,
            forall|i: int|
                0 <= i < seen@.len() ==> universe.contains((#[trigger] seen@[i])@) && reachable(
                    cs,
                    tip@,
                    seen@[i]@,
                ),
            forall|i: int|
                0 <= i < queue@.len() ==> universe.contains((#[trigger] queue@[i])@) && reachable(
                    cs,
                    tip@,
                    queue@[i]@,
                ),
            text_set(seen@).contains(tip@) || text_set(queue@).contains(tip@),
            forall|a: Seq<char>, k: int|
                text_set(seen@).contains(a) && 0 <= k < parents_of(cs, a).len() ==> (text_set(
                    seen@,
                ).contains(#[trigger] parents_of(cs, a)[k]) || text_set(queue@).contains(
                    parents_of(cs, a)[k],
                )),
            seen@.len() <= universe.len(),
        decreases universe.len() - seen@.len(), queue@.len(),
    {
        let ghost q0 = queue@;
        let ghost s0 = seen@;
        let id = match queue.pop() {
            Some(x) => x,
            None => String::new(),
        };
        let ghost q1 = queue@;
        assert(q0 == q1.push(id));
        proof {
            assert(q0[q1.len() as int] == id);
            assert forall|t: Seq<char>| #![trigger text_set(q0).contains(t)] text_set(q0).contains(t) == (text_set(q1).contains(t) || id@ == t) by {
                lemma_text_set_push(q1, id, t);
            }
        }
        if contains_text(&seen, id.as_str()) {
            continue;
        }
        seen.push(id.clone());
        proof {
            assert forall|t: Seq<char>| #![trigger text_set(seen@).contains(t)] text_set(seen@).contains(t) == (text_set(s0).contains(t) || id@ == t) by {
                lemma_text_set_push(s0, id, t);
            }
        }
        match find_commit(commits, id.as_str()) {
            Some(i) => {
                push_copies(&mut queue, &commits[i].parents);
            },
            None => {},
        }
        proof {
            lemma_commit_index(cs, id@);
            let ps = parents_of(cs, id@);
            let added = queue@.subrange(q1.len() as int, queue@.len() as int);
            assert(queue@ =~= q1 + added);
            assert(added.len() == ps.len());
            assert forall|k: int| 0 <= k < ps.len() implies (#[trigger] added[k])@ == ps[k] by {
                let i = commit_index(cs, id@)->0;
                assert(added[k] == cs[i].parents@[k]);
            }
            assert forall|t: Seq<char>| #![trigger text_set(queue@).contains(t)] text_set(queue@).contains(t) == (text_set(q1).contains(t) || text_set(added).contains(t)) by {
                lemma_text_set_concat(q1, added, t);
            }
            // seen ids are distinct
            assert forall|i: int, j: int| 0 <= i < j < seen@.len() implies (#[trigger] seen@[i])@ != (#[trigger] seen@[j])@ by {
                if j == s0.len() {
                    assert(seen@[i] == s0[i]);
                    assert(text_set(s0).contains(s0[i]@));
                } else {
                    assert(seen@[i] == s0[i] && seen@[j] == s0[j]);
                }
            }
            // the queued parents are reachable and in the universe
            assert forall|k: int| 0 <= k < added.len() implies universe.contains((#[trigger] added[k])@) && reachable(cs, tip@, added[k]@) by {
                let i = commit_index(cs, id@)->0;
                lemma_parent_in_all(cs, i, k);
                let j = choose|j: int| 0 <= j < all_parent_ids(cs).len() && all_parent_ids(cs)[j] == cs[i].parents@[k]@;
                assert(all[j + 1] == all_parent_ids(cs)[j]);
                lemma_reach_step(cs, tip@, id@, k);
            }
            assert forall|i: int| 0 <= i < queue@.len() implies universe.contains((#[trigger] queue@[i])@) && reachable(cs, tip@, queue@[i]@) by {
                if i < q1.len() {
                    assert(queue@[i] == q0[i]);
                } else {
                    assert(queue@[i] == added[i - q1.len()]);
                }
            }
            assert forall|i: int| 0 <= i < seen@.len() implies universe.contains((#[trigger] seen@[i])@) && reachable(cs, tip@, seen@[i]@) by {
                if i < s0.len() {
                    assert(seen@[i] == s0[i]);
                }
            }
            // closure
            assert forall|a: Seq<char>, k: int| text_set(seen@).contains(a) && 0 <= k < parents_of(cs, a).len() implies (text_set(seen@).contains(#[trigger] parents_of(cs, a)[k]) || text_set(queue@).contains(parents_of(cs, a)[k])) by {
                if a == id@ {
                    assert(added[k]@ == ps[k]);
                    assert(text_set(added).contains(ps[k]));
                }
            }
            // the seen ids still fit in the universe
            let sv = seen@.map_values(|x: String| x@);
            assert(sv.no_duplicates()) by {
                assert forall|i: int, j: int| 0 <= i < sv.len() && 0 <= j < sv.len() && i != j implies sv[i] != sv[j] by {
                    if i < j {
                        assert(seen@[i]@ != seen@[j]@);
                    } else {
                        assert(seen@[j]@ != seen@[i]@);
                    }
                }
            }
            sv.unique_seq_to_set();
            assert(sv.to_set().subset_of(universe)) by {
                assert forall|t: Seq<char>| sv.to_set().contains(t) implies universe.contains(t) by {
                    let i = choose|i: int| 0 <= i < sv.len() && sv[i] == t;
                    assert(universe.contains(seen@[i]@));
                }
            }
            vstd::set_lib::lemma_len_subset(sv.to_set(), universe);
        }
    }
    proof {
        assert forall|y: Seq<char>| #[trigger] text_set(seen@).contains(y) <==> reachable(cs, tip@, y) by {
            if reachable(cs, tip@, y) {
                let n = choose|n: nat| reach_in(cs, tip@, y, n);
                lemma_closed_reach(cs, text_set(seen@), tip@, y, n);
            }
            if text_set(seen@).contains(y) {
                let i = choose|i: int| 0 <= i < seen@.len() && (#[trigger] seen@[i])@ == y;
                assert(reachable(cs, tip@, seen@[i]@));
            }
        }
    }
    seen
}


/// Texts joined with `sep` between them.
pub open spec fn join_texts(ps: Seq<Seq<char>>, sep: char) -> Seq<char>
    decreases ps.len(),
{
    if ps.len() == 0 {
        seq![]
    } else if ps.len() == 1 {
        ps[0]
    } else {
        join_texts(ps.drop_last(), sep) + seq![sep] + ps.last()
    }
}

/// One `path:content` line per file (`-` for no content).
pub open spec fn file_lines(files: Seq<CommittedFile>) -> Seq<char>
    decreases files.len(),
{
    if files.len() == 0 {
        seq![]
    } else {
        let f = files.last();
        file_lines(files.drop_last()) + f.path@ + seq![':'] + match f.content {
            Some(c) => c@,
            None => seq!['-'],
        } + seq!['\n']
    }
}

/// The text a commit id is hashed from: timestamp, message and comma-joined parents on a line
/// each, then a line per file.
pub open spec fn commit_seed(
    timestamp: Seq<char>,
    message: Seq<char>,
    parents: Seq<String>,
    files: Seq<CommittedFile>,
) -> Seq<char> {
    timestamp + seq!['\n'] + message + seq!['\n'] + join_texts(
        parents.map_values(|p: String| p@),
        ',',
    ) + seq!['\n'] + file_lines(files)
}

/// The first twelve hex digits of the BLAKE3 of a text's UTF-8.
pub open spec fn short_id(seed: Seq<char>) -> Seq<char> {
    ascii_chars(hex_ascii(blake3_digest(encode_utf8(seed)))).take(12)
}

/// Append the comma-joined `parents`.
fn append_joined(seed: &mut String, parents: &Vec<String>)
    ensures
        final(seed)@ == old(seed)@ + join_texts(parents@.map_values(|p: String| p@), ','),
{
    proof {
        reveal_strlit(",");
        assert(","@ =~= seq![',']);
    }
    let mut i: usize = 0;
    assert(parents@.take(0).map_values(|p: String| p@) =~= Seq::<Seq<char>>::empty());
    while i < parents.len()
        invariant
            i <= parents.len(),
            ","@ == seq![','],
            seed@ == old(seed)@ + join_texts(parents@.take(i as int).map_values(|p: String| p@), ','),
        decreases parents.len() - i,
    {
        let ghost before = parents@.take(i as int).map_values(|p: String| p@);
        let ghost after = parents@.take(i + 1).map_values(|p: String| p@);
        assert(after.drop_last() =~= before);
        assert(after.last() == parents@[i as int]@);
        if i > 0 {
            seed.append(",");
        } else {
            assert(after =~= seq![parents@[0]@]);
        }
        seed.append(parents[i].as_str());
        i = i + 1;
    }
    assert(parents@.take(parents.len() as int) =~= parents@);
}

/// Append one `path:content` line per file.
pub fn append_file_lines(seed: &mut String, files: &Vec<CommittedFile>)
    ensures
        final(seed)@ == old(seed)@ + file_lines(files@),
{
    proof {
        reveal_strlit(":");
        reveal_strlit("-");
        reveal_strlit("\n");
        assert(":"@ =~= seq![':']);
        assert("-"@ =~= seq!['-']);
        assert("\n"@ =~= seq!['\n']);
    }
    let mut i: usize = 0;
    assert(files@.take(0) =~= Seq::<CommittedFile>::empty());
    while i < files.len()
        invariant
            i <= files.len(),
            ":"@ == seq![':'],
            "-"@ == seq!['-'],
            "\n"@ == seq!['\n'],
            seed@ == old(seed)@ + file_lines(files@.take(i as int)),
        decreases files.len() - i,
    {
        let f = &files[i];
        assert(files@.take(i + 1).drop_last() =~= files@.take(i as int));
        assert(files@.take(i + 1).last() == *f);
        seed.append(f.path.as_str());
        seed.append(":");
        match &f.content {
            Some(c) => seed.append(c.as_str()),
            None => seed.append("-"),
        }
        seed.append("\n");
        i = i + 1;
    }
    assert(files@.take(files.len() as int) =~= files@);
}

/// A commit's id: the first twelve hex digits of the BLAKE3 of its seed.
pub fn commit_id(timestamp: &str, message: &str, parents: &Vec<String>, files: &Vec<CommittedFile>) -> (r: String)
    ensures
        r@ == short_id(commit_seed(timestamp@, message@, parents@, files@)),
{
    proof {
        reveal_strlit("\n");
        assert("\n"@ =~= seq!['\n']);
    }
    let mut seed = String::new();
    seed.append(timestamp);
    seed.append("\n");
    seed.append(message);
    seed.append("\n");
    append_joined(&mut seed, parents);
    seed.append("\n");
    append_file_lines(&mut seed, files);
    assert(seed@ =~= commit_seed(timestamp@, message@, parents@, files@));
    short_hash(seed.as_str().as_bytes(), 6)
}

/// The tree of the current tip; empty when the branch has no commits or its tip's history
/// cannot be followed.
pub open spec fn current_tree_spec(repo: Repo) -> Seq<(String, CommittedFile)> {
    match repo.branches.tip_of_spec(repo.branches.current@) {
        None => seq![],
        Some(tip) => match tree_spec(repo.commits@, tip) {
            Some(tree) => tree,
            None => seq![],
        },
    }
}

/// Tree of the current branch tip (empty for a branch with no commits, or whose tip's
/// history cannot be followed).
pub fn current_tree(repo: &Repo) -> (t: Tree)
    requires
        repo.wf(),
    ensures
        keys_sorted(t@),
        t@ == current_tree_spec(*repo),
{
    match repo.branches.tip() {
        Some(tip) => match tree_at_commit(&repo.commits, tip) {
            Some(t) => t,
            None => Vec::new(),
        },
        None => Vec::new(),
    }
}


/// The position of the first commit carrying `id`.
pub open spec fn first_index(cs: Seq<Commit>, id: Seq<char>) -> Option<int>
    decreases cs.len(),
{
    if cs.len() == 0 {
        None
    } else if cs[0].id@ == id {
        Some(0)
    } else {
        match first_index(cs.skip(1), id) {
            Some(i) => Some(i + 1),
            None => None,
        }
    }
}

/// Position of the first commit carrying `id`.
pub fn find_first_commit(commits: &Vec<Commit>, id: &str) -> (r: Option<usize>)
    ensures
        match r {
            Some(i) => first_index(commits@, id@) == Some(i as int) && i < commits.len()
                && commits@[i as int].id@ == id@,
            None => first_index(commits@, id@) is None,
        },
{
    let mut i: usize = 0;
    assert(commits@.skip(0) =~= commits@);
    while i < commits.len()
        invariant
            i <= commits.len(),
            forall|j: int| 0 <= j < i ==> (#[trigger] commits@[j]).id@ != id@,
            first_index(commits@, id@) == match first_index(commits@.skip(i as int), id@) {
                Some(k) => Some(k + i),
                None => None,
            },
        decreases commits.len() - i,
    {
        assert(commits@.skip(i as int)[0] == commits@[i as int]);
        if str_eq(commits[i].id.as_str(), id) {
            return Some(i);
        }
        assert(commits@.skip(i as int).skip(1) =~= commits@.skip(i + 1));
        i = i + 1;
    }
    None
}

/// 0-based rank of `id` among the commits reachable from `tip`, counting in log order from
/// position `from`: the reachable commits before its first reachable occurrence.
pub open spec fn reachable_rank(cs: Seq<Commit>, tip: Seq<char>, id: Seq<char>, from: int) -> Option<
    nat,
>
    decreases cs.len() - from,
{
    if from < 0 || from >= cs.len() {
        None
    } else if reachable(cs, tip, cs[from].id@) {
        if cs[from].id@ == id {
            Some(0)
        } else {
            match reachable_rank(cs, tip, id, from + 1) {
                Some(r) => Some(r + 1),
                None => None,
            }
        }
    } else {
        reachable_rank(cs, tip, id, from + 1)
    }
}

/// How a commit is named to the user: "Version N" for the N-th commit (1-based) reachable from
/// the current tip, in log order; otherwise "version <id>".
pub open spec fn version_label_spec(repo: Repo, id: Seq<char>) -> Seq<char> {
    match repo.branches.tip_of_spec(repo.branches.current@) {
        Some(tip) => match reachable_rank(repo.commits@, tip, id, 0) {
            Some(r) => "Version "@ + ascii_chars(crate::text::dec_nat(r + 1)),
            None => "version "@ + id,
        },
        None => "version "@ + id,
    }
}

/// The decimal text of `n`.
pub fn dec_string(n: u64) -> (s: String)
    ensures
        s@ == ascii_chars(crate::text::dec_nat(n as nat)),
{
    let mut digits: Vec<u8> = Vec::new();
    crate::text::push_dec_u64(&mut digits, n);
    proof {
        crate::text::lemma_dec_nat_digits(n as nat);
        assert(digits@ =~= crate::text::dec_nat(n as nat));
    }
    crate::text::ascii_string(digits.as_slice())
}

/// "Version N" for the N-th commit (1-based, in log order) reachable from the current tip,
/// falling back to "version <id>" for a commit not reachable from it.
pub fn version_label(repo: &Repo, commit_id: &str) -> (s: String)
    requires
        repo.wf(),
    ensures
        s@ == version_label_spec(*repo, commit_id@),
{
    if let Some(tip) = repo.branches.tip() {
        let reach = ancestors(&repo.commits, tip);
        let ghost cs = repo.commits@;
        let mut pos: usize = 0;
        let mut i: usize = 0;
        while i < repo.commits.len()
            invariant
                cs == repo.commits@,
                repo.branches.tip_of_spec(repo.branches.current@) == Some(tip@),
                i <= cs.len(),
                pos <= i,
                forall|y: Seq<char>| #[trigger] text_set(reach@).contains(y) <==> reachable(cs, tip@, y),
                reachable_rank(cs, tip@, commit_id@, 0) == match reachable_rank(cs, tip@, commit_id@, i as int) {
                    Some(r) => Some((r + pos) as nat),
                    None => None::<nat>,
                },
            decreases cs.len() - i,
        {
            let c = &repo.commits[i];
            let hit = contains_text(&reach, c.id.as_str());
            assert(hit == text_set(reach@).contains(c.id@));
            if hit {
                if str_eq(c.id.as_str(), commit_id) {
                    let mut s = String::from_str("Version ");
                    let d = dec_string((pos + 1) as u64);
                    s.append(d.as_str());
                    return s;
                }
                pos = pos + 1;
            }
            i = i + 1;
        }
    }
    let mut s = String::from_str("version ");
    s.append(commit_id);
    s
}


/// Whether some commit names `id` among its parents.
pub open spec fn has_child(cs: Seq<Commit>, id: Seq<char>) -> bool {
    exists|i: int, k: int|
        0 <= i < cs.len() && 0 <= k < cs[i].parents@.len() && (#[trigger] cs[i].parents@[k])@ == id
}

/// Whether a branch other than the current one has tip `id`.
pub open spec fn other_branch_at(b: Branches, id: Seq<char>) -> bool {
    exists|i: int|
        0 <= i < b.branches@.len() && (#[trigger] b.branches@[i]).0@ != b.current@
            && b.branches@[i].1@ == id
}

/// The entry a path touched by an undone commit returns to: the new tip's entry for it, when
/// that has content.
pub open spec fn restore_of(tt: Seq<(String, CommittedFile)>, f: CommittedFile) -> Option<
    CommittedFile,
> {
    match table_get(tt, f.path@) {
        Some(pf) => if pf.content is Some {
            Some(pf)
        } else {
            None
        },
        None => None,
    }
}

/// The working-file hash an entry tells without rebuilding the file: its recorded
/// `file_hash`, else, for a file other than a `.kra`, its content hash.
pub open spec fn known_hash(pf: CommittedFile) -> Option<String> {
    match pf.file_hash {
        Some(h) => Some(h),
        None => if !pf.is_kra {
            pf.content
        } else {
            None
        },
    }
}

/// The index after dropping every touched path that has nothing to return to.
pub open spec fn undo_removals(
    idx: Seq<(String, TrackedFile)>,
    tt: Seq<(String, CommittedFile)>,
    files: Seq<CommittedFile>,
) -> Seq<(String, TrackedFile)>
    decreases files.len(),
{
    if files.len() == 0 {
        idx
    } else {
        let prev = undo_removals(idx, tt, files.drop_last());
        if restore_of(tt, files.last()) is None {
            table_del(prev, files.last().path@)
        } else {
            prev
        }
    }
}

/// The index after re-recording every touched path whose returning entry tells its hash
/// (size and mtime unknown, so zero: the next scan re-hashes).
pub open spec fn undo_restores(
    idx: Seq<(String, TrackedFile)>,
    tt: Seq<(String, CommittedFile)>,
    files: Seq<CommittedFile>,
) -> Seq<(String, TrackedFile)>
    decreases files.len(),
{
    if files.len() == 0 {
        idx
    } else {
        let prev = undo_restores(idx, tt, files.drop_last());
        match restore_of(tt, files.last()) {
            Some(pf) => match known_hash(pf) {
                Some(h) => table_put(
                    prev,
                    pf.path,
                    TrackedFile { hash: h, is_kra: pf.is_kra, size: 0, mtime: 0 },
                ),
                None => prev,
            },
            None => prev,
        }
    }
}

/// The returning entries whose hash can only be had by rebuilding the file.
pub open spec fn undo_rehash(tt: Seq<(String, CommittedFile)>, files: Seq<CommittedFile>) -> Seq<
    CommittedFile,
>
    decreases files.len(),
{
    if files.len() == 0 {
        seq![]
    } else {
        let prev = undo_rehash(tt, files.drop_last());
        match restore_of(tt, files.last()) {
            Some(pf) => if known_hash(pf) is None {
                prev.push(pf)
            } else {
                prev
            },
            None => prev,
        }
    }
}

/// What an undo leaves: the new head commit, and the entries whose index hash the caller
/// must record after rebuilding the file (old `.kra` records that carry no file hash).
pub struct Undone {
    pub head: Option<Commit>,
    pub rehash: Vec<CommittedFile>,
}

/// An exact copy of a list of texts.
pub fn copy_texts(v: &Vec<String>) -> (r: Vec<String>)
    ensures
        r@ == v@,
{
    let mut r: Vec<String> = Vec::new();
    let mut i: usize = 0;
    while i < v.len()
        invariant
            i <= v.len(),
            r@ == v@.take(i as int),
        decreases v.len() - i,
    {
        r.push(v[i].clone());
        assert(v@.take(i + 1) =~= v@.take(i as int).push(v@[i as int]));
        i = i + 1;
    }
    assert(v@.take(v.len() as int) =~= v@);
    r
}

/// An exact copy of a list of committed entries.
pub fn copy_files(v: &Vec<CommittedFile>) -> (r: Vec<CommittedFile>)
    ensures
        r@ == v@,
{
    let mut r: Vec<CommittedFile> = Vec::new();
    let mut i: usize = 0;
    while i < v.len()
        invariant
            i <= v.len(),
            r@ == v@.take(i as int),
        decreases v.len() - i,
    {
        r.push(copy_file(&v[i]));
        assert(v@.take(i + 1) =~= v@.take(i as int).push(v@[i as int]));
        i = i + 1;
    }
    assert(v@.take(v.len() as int) =~= v@);
    r
}

/// Two commit records hold the same values.
pub open spec fn same_commit(a: Commit, b: Commit) -> bool {
    &&& a.id == b.id
    &&& a.hash == b.hash
    &&& a.message == b.message
    &&& a.author == b.author
    &&& a.timestamp == b.timestamp
    &&& a.parents@ == b.parents@
    &&& a.branch == b.branch
    &&& a.files@ == b.files@
    &&& a.restored_from == b.restored_from
}

/// An exact copy of a commit record.
pub fn copy_commit(c: &Commit) -> (r: Commit)
    ensures
        same_commit(r, *c),
{
    Commit {
        id: c.id.clone(),
        hash: c.hash.clone(),
        message: c.message.clone(),
        author: c.author.clone(),
        timestamp: c.timestamp.clone(),
        parents: copy_texts(&c.parents),
        branch: c.branch.clone(),
        files: copy_files(&c.files),
        restored_from: match &c.restored_from {
            Some(x) => Some(x.clone()),
            None => None,
        },
    }
}

/// Whether some commit names `id` among its parents.
fn any_child(commits: &Vec<Commit>, id: &str) -> (r: bool)
    ensures
        r == has_child(commits@, id@),
{
    let mut i: usize = 0;
    while i < commits.len()
        invariant
            i <= commits.len(),
            forall|a: int, k: int|
                0 <= a < i && 0 <= k < commits@[a].parents@.len() ==> (
                #[trigger] commits@[a].parents@[k])@ != id@,
        decreases commits.len() - i,
    {
        if contains_text(&commits[i].parents, id) {
            return true;
        }
        i = i + 1;
    }
    false
}

/// Whether a branch other than the current one has tip `id`.
fn branch_other_at(b: &Branches, id: &str) -> (r: bool)
    ensures
        r == other_branch_at(*b, id@),
{
    let mut i: usize = 0;
    while i < b.branches.len()
        invariant
            i <= b.branches.len(),
            forall|a: int|
                0 <= a < i ==> !((#[trigger] b.branches@[a]).0@ != b.current@ && b.branches@[a].1@
                    == id@),
        decreases b.branches.len() - i,
    {
        if !str_eq(b.branches[i].0.as_str(), b.current.as_str()) && str_eq(
            b.branches[i].1.as_str(),
            id,
        ) {
            return true;
        }
        i = i + 1;
    }
    false
}

/// The entry `f`'s path returns to, from the new tip's tree.
fn find_restore(tt: &Tree, f: &CommittedFile) -> (r: Option<usize>)
    requires
        keys_sorted(tt@),
    ensures
        match r {
            Some(i) => i < tt@.len() && restore_of(tt@, *f) == Some(tt@[i as int].1),
            None => restore_of(tt@, *f) is None,
        },
{
    match table_find(tt, f.path.as_str()) {
        Some(i) => if tt[i].1.content.is_some() {
            Some(i)
        } else {
            None
        },
        None => None,
    }
}


/// The new tip after undoing `last`: its first parent, or none.
pub open spec fn parent_or_empty(last: Commit) -> Seq<char> {
    if last.parents@.len() > 0 {
        last.parents@[0]@
    } else {
        seq![]
    }
}

/// Undo the most recent commit of the current branch, keeping the working files as they are:
/// the commit leaves the history, the branch steps back to its first parent, and the index
/// entries of the paths it touched return to the new tip's tree. Refused when another commit
/// builds on it or another branch points at it. Entries whose hash needs the file rebuilt are
/// handed back for the caller to record.
pub fn undo_last_commit(repo: &mut Repo) -> (r: Result<Undone, KvcError>)
    requires
        old(repo).wf(),
    ensures
        final(repo).wf(),
        match old(repo).branches.tip_of_spec(old(repo).branches.current@) {
            None => *final(repo) == *old(repo) && (r matches Ok(u) && u.head is None
                && u.rehash@.len() == 0),
            Some(tip) => match first_index(old(repo).commits@, tip) {
                None => *final(repo) == *old(repo) && (r matches Err(KvcError::NoCommit(m))
                    && m@ == tip),
                Some(pos) => if has_child(old(repo).commits@, tip) {
                    *final(repo) == *old(repo) && (r matches Err(KvcError::CannotUndo(m))
                        && m@ == "later versions build on this one"@)
                } else if other_branch_at(old(repo).branches, tip) {
                    *final(repo) == *old(repo) && (r matches Err(KvcError::CannotUndo(m))
                        && m@ == "another branch points at this version"@)
                } else {
                    let last = old(repo).commits@[pos];
                    let tt = current_tree_spec(*final(repo));
                    &&& final(repo).commits@ == old(repo).commits@.remove(pos)
                    &&& final(repo).commits_rewrite
                    &&& final(repo).commits_persisted == old(repo).commits_persisted
                    &&& final(repo).config_dirty == old(repo).config_dirty
                    &&& final(repo).root == old(repo).root
                    &&& final(repo).config == old(repo).config
                    &&& final(repo).stashes == old(repo).stashes
                    &&& final(repo).branches.current == old(repo).branches.current
                    &&& final(repo).branches.branch_map() == old(
                        repo,
                    ).branches.branch_map().insert(
                        old(repo).branches.current@,
                        parent_or_empty(last),
                    )
                    &&& final(repo).index.files@ == undo_restores(
                        undo_removals(old(repo).index.files@, tt, last.files@),
                        tt,
                        last.files@,
                    )
                    &&& r matches Ok(u) && u.rehash@ == undo_rehash(tt, last.files@) && match
                        final(repo).branches.tip_of_spec(final(repo).branches.current@) {
                        None => u.head is None,
                        Some(t) => match first_index(final(repo).commits@, t) {
                            None => u.head is None,
                            Some(i) => u.head matches Some(h) && same_commit(
                                h,
                                final(repo).commits@[i],
                            ),
                        },
                    }
                },
            },
        },
{
    let tip_id: String = match repo.branches.tip() {
        Some(t) => t.to_owned(),
        None => return Ok(Undone { head: None, rehash: Vec::new() }),
    };
    let pos = match find_first_commit(&repo.commits, tip_id.as_str()) {
        Some(p) => p,
        None => return Err(KvcError::NoCommit(tip_id)),
    };
    if any_child(&repo.commits, tip_id.as_str()) {
        return Err(KvcError::CannotUndo(String::from_str("later versions build on this one")));
    }
    if branch_other_at(&repo.branches, tip_id.as_str()) {
        return Err(
            KvcError::CannotUndo(String::from_str("another branch points at this version")),
        );
    }
    let last = repo.commits.remove(pos);
    repo.commits_rewrite = true;
    if last.parents.len() > 0 {
        repo.branches.set_tip(last.parents[0].as_str());
    } else {
        repo.branches.set_tip("");
        proof {
            reveal_strlit("");
            assert(""@ =~= Seq::<char>::empty());
        }
    }
    let tip_tree = current_tree(repo);
    let ghost r1 = *repo;
    let ghost idx0 = repo.index.files@;
    let mut j: usize = 0;
    assert(last.files@.take(0) =~= Seq::<CommittedFile>::empty());
    while j < last.files.len()
        invariant
            j <= last.files.len(),
            repo.branches == r1.branches,
            repo.commits == r1.commits,
            repo.root == r1.root,
            repo.config == r1.config,
            repo.stashes == r1.stashes,
            repo.commits_rewrite == r1.commits_rewrite,
            repo.commits_persisted == r1.commits_persisted,
            repo.config_dirty == r1.config_dirty,
            repo.chains == r1.chains,
            r1.branches.wf(),
            r1.chains.wf(),
            keys_sorted(tip_tree@),
            keys_sorted(repo.index.files@),
            repo.index.files@ == undo_removals(idx0, tip_tree@, last.files@.take(j as int)),
        decreases last.files.len() - j,
    {
        let f = &last.files[j];
        assert(last.files@.take(j + 1).drop_last() =~= last.files@.take(j as int));
        assert(last.files@.take(j + 1).last() == *f);
        if find_restore(&tip_tree, f).is_none() {
            let _ = table_remove(&mut repo.index.files, f.path.as_str());
        }
        j = j + 1;
    }
    assert(last.files@.take(last.files.len() as int) =~= last.files@);
    let ghost idx1 = repo.index.files@;
    let mut rehash: Vec<CommittedFile> = Vec::new();
    let mut j: usize = 0;
    assert(last.files@.take(0) =~= Seq::<CommittedFile>::empty());
    while j < last.files.len()
        invariant
            j <= last.files.len(),
            repo.branches == r1.branches,
            repo.commits == r1.commits,
            repo.root == r1.root,
            repo.config == r1.config,
            repo.stashes == r1.stashes,
            repo.chains == r1.chains,
            r1.chains.wf(),
            repo.commits_rewrite == r1.commits_rewrite,
            repo.commits_persisted == r1.commits_persisted,
            repo.config_dirty == r1.config_dirty,
            r1.branches.wf(),
            keys_sorted(tip_tree@),
            keys_sorted(repo.index.files@),
            repo.index.files@ == undo_restores(idx1, tip_tree@, last.files@.take(j as int)),
            rehash@ == undo_rehash(tip_tree@, last.files@.take(j as int)),
        decreases last.files.len() - j,
    {
        let f = &last.files[j];
        assert(last.files@.take(j + 1).drop_last() =~= last.files@.take(j as int));
        assert(last.files@.take(j + 1).last() == *f);
        match find_restore(&tip_tree, f) {
            Some(k) => {
                let pf = &tip_tree[k].1;
                match &pf.file_hash {
                    Some(h) => {
                        table_insert(
                            &mut repo.index.files,
                            pf.path.clone(),
                            TrackedFile { hash: h.clone(), is_kra: pf.is_kra, size: 0, mtime: 0 },
                        );
                    },
                    None => {
                        if !pf.is_kra {
                            match &pf.content {
                                Some(c) => {
                                    table_insert(
                                        &mut repo.index.files,
                                        pf.path.clone(),
                                        TrackedFile {
                                            hash: c.clone(),
                                            is_kra: pf.is_kra,
                                            size: 0,
                                            mtime: 0,
                                        },
                                    );
                                },
                                None => {},
                            }
                        } else {
                            rehash.push(copy_file(pf));
                        }
                    },
                }
            },
            None => {},
        }
        j = j + 1;
    }
    assert(last.files@.take(last.files.len() as int) =~= last.files@);
    let head = match repo.branches.tip() {
        Some(t) => match find_first_commit(&repo.commits, t) {
            Some(i) => Some(copy_commit(&repo.commits[i])),
            None => None,
        },
        None => None,
    };
    Ok(Undone { head, rehash })
}

/// A working-tree change whose content has already been stored.
pub struct StoredChange {
    pub rel: String,
    /// `U` untracked, `M` modified, `D` deleted (as the scan reported it).
    pub status: String,
    /// Hash of the working file (empty for a deletion).
    pub hash: String,
    pub size: u64,
    pub mtime: u64,
    /// Stream hash of the stored content; `None` for a deletion.
    pub content: Option<String>,
    pub is_kra: bool,
    /// The content was synthesized from part of the document rather than taken from disk.
    pub partial: bool,
}

/// Whether a change is a deletion.
pub open spec fn is_deleted(c: StoredChange) -> bool {
    c.status@ == seq!['D']
}

/// The index after recording `cs` in order: a deletion drops its path; anything else records
/// the file's hash, kind, size and mtime (zeros for a partial commit, so the next scan re-reads
/// the file).
pub open spec fn index_after(t: Seq<(String, TrackedFile)>, cs: Seq<StoredChange>) -> Seq<(String, TrackedFile)>
    decreases cs.len(),
{
    if cs.len() == 0 {
        t
    } else {
        let t2 = index_after(t, cs.drop_last());
        let c = cs.last();
        if is_deleted(c) {
            table_del(t2, c.rel@)
        } else {
            table_put(
                t2,
                c.rel,
                TrackedFile {
                    hash: c.hash,
                    is_kra: c.is_kra,
                    size: if c.partial { 0 } else { c.size },
                    mtime: if c.partial { 0 } else { c.mtime },
                },
            )
        }
    }
}

/// The commit record of one stored change.
pub open spec fn record_of(c: StoredChange, f: CommittedFile) -> bool {
    &&& f.path@ == c.rel@
    &&& f.status@ == if is_deleted(c) { seq!['D'] } else if c.status@ == seq!['U'] { seq!['A'] } else { seq!['M'] }
    &&& (if is_deleted(c) { f.content is None } else { f.content == c.content })
    &&& f.is_kra == (!is_deleted(c) && c.is_kra)
    &&& (if is_deleted(c) { f.file_hash is None } else { f.file_hash matches Some(h) && h@ == c.hash@ })
    &&& f.original_size == if is_deleted(c) { 0 } else { c.size }
}

fn status_record(c: &StoredChange) -> (s: String)
    ensures
        s@ == if is_deleted(*c) { seq!['D'] } else if c.status@ == seq!['U'] { seq!['A'] } else { seq!['M'] },
{
    proof {
        reveal_strlit("D");
        reveal_strlit("U");
        reveal_strlit("A");
        reveal_strlit("M");
        assert("D"@ =~= seq!['D']);
        assert("U"@ =~= seq!['U']);
        assert("A"@ =~= seq!['A']);
        assert("M"@ =~= seq!['M']);
    }
    if str_eq(c.status.as_str(), "D") {
        String::from_str("D")
    } else if str_eq(c.status.as_str(), "U") {
        String::from_str("A")
    } else {
        String::from_str("M")
    }
}

/// Record a commit of already-stored working-tree changes on the current branch: the index
/// takes each change in order, the commit lists one record per change (untracked files are
/// added, deletions carry no content), its parent is the current tip (none on an empty branch),
/// its id is hashed from its timestamp, message, parents and records, and the branch tip moves
/// to it. With no changes it is refused as `Nothing` and nothing changes.
pub fn commit_snapshot(repo: &mut Repo, message: &str, author: &str, changes: Vec<StoredChange>) -> (r: Result<Commit, KvcError>)
    requires
        old(repo).wf(),
    ensures
        final(repo).wf(),
        changes@.len() == 0 ==> *final(repo) == *old(repo) && r matches Err(KvcError::Nothing),
        changes@.len() > 0 ==> (r matches Ok(commit) && {
            let cs = old(repo).commits@;
            &&& commit.files@.len() == changes@.len()
            &&& forall|i: int| 0 <= i < changes@.len() ==> record_of(changes@[i], #[trigger] commit.files@[i])
            &&& commit.parents@.map_values(|p: String| p@) == match old(repo).branches.tip_of_spec(old(repo).branches.current@) {
                Some(t) => seq![t],
                None => Seq::<Seq<char>>::empty(),
            }
            &&& commit.message@ == message@
            &&& commit.author@ == author@
            &&& commit.branch@ == old(repo).branches.current@
            &&& commit.restored_from is None
            &&& commit.id@ == short_id(commit_seed(commit.timestamp@, commit.message@, commit.parents@, commit.files@))
            &&& commit.hash == commit.id
            &&& final(repo).commits@.len() == cs.len() + 1
            &&& final(repo).commits@.take(cs.len() as int) == cs
            &&& same_commit(final(repo).commits@.last(), commit)
            &&& final(repo).branches.current == old(repo).branches.current
            &&& final(repo).branches.branch_map() == old(repo).branches.branch_map().insert(old(repo).branches.current@, commit.id@)
            &&& final(repo).index.files@ == index_after(old(repo).index.files@, changes@)
            &&& final(repo).root == old(repo).root
            &&& final(repo).config == old(repo).config
            &&& final(repo).chains == old(repo).chains
            &&& final(repo).stashes == old(repo).stashes
        }),
{
    if changes.len() == 0 {
        return Err(KvcError::Nothing);
    }
    let ghost ch0 = changes@;
    let ghost idx0 = repo.index.files@;
    let mut changes = changes;
    let mut files: Vec<CommittedFile> = Vec::new();
    let n = changes.len();
    let mut i: usize = 0;
    while i < n
        invariant
            n == ch0.len(),
            i <= n,
            changes@.len() == n - i,
            forall|k: int| 0 <= k < changes@.len() ==> changes@[k] == ch0[i + k],
            keys_sorted(repo.index.files@),
            repo.index.files@ == index_after(idx0, ch0.take(i as int)),
            files@.len() == i,
            forall|k: int| 0 <= k < i ==> record_of(ch0[k], #[trigger] files@[k]),
            repo.branches == old(repo).branches,
            repo.commits == old(repo).commits,
            repo.root == old(repo).root,
            repo.config == old(repo).config,
            repo.chains == old(repo).chains,
            repo.stashes == old(repo).stashes,
            repo.commits_persisted == old(repo).commits_persisted,
            repo.commits_rewrite == old(repo).commits_rewrite,
            repo.config_dirty == old(repo).config_dirty,
            old(repo).wf(),
        decreases n - i,
    {
        let c = changes.remove(0);
        proof {
            assert(c == ch0[i as int]);
            assert(ch0.take(i + 1).drop_last() =~= ch0.take(i as int));
            assert(ch0.take(i + 1).last() == c);
        }
        let status = status_record(&c);
        let ghost before = files@;
        proof {
            reveal_strlit("D");
            assert("D"@ =~= seq!['D']);
        }
        if str_eq(c.status.as_str(), "D") {
            let _ = table_remove(&mut repo.index.files, c.rel.as_str());
            files.push(CommittedFile {
                path: c.rel,
                status,
                content: None,
                is_kra: false,
                file_hash: None,
                original_size: 0,
            });
        } else {
            let (size, mtime) = if c.partial { (0u64, 0u64) } else { (c.size, c.mtime) };
            let path = c.rel.clone();
            let fh = c.hash.clone();
            files.push(CommittedFile {
                path,
                status,
                content: c.content,
                is_kra: c.is_kra,
                file_hash: Some(fh),
                original_size: c.size,
            });
            table_insert(
                &mut repo.index.files,
                c.rel,
                TrackedFile { hash: c.hash, is_kra: c.is_kra, size, mtime },
            );
        }
        proof {
            assert forall|k: int| 0 <= k < i + 1 implies record_of(ch0[k], #[trigger] files@[k]) by {
                if k < i {
                    assert(files@[k] == before[k]);
                }
            }
        }
        i += 1;
    }
    proof {
        assert(ch0.take(n as int) =~= ch0);
    }
    let timestamp = now_iso();
    let mut parents: Vec<String> = Vec::new();
    match repo.branches.tip() {
        Some(t) => {
            parents.push(t.to_owned());
            assert(parents@.map_values(|p: String| p@) =~= seq![t@]);
        },
        None => {
            assert(parents@.map_values(|p: String| p@) =~= Seq::<Seq<char>>::empty());
        },
    }
    let id = commit_id(timestamp.as_str(), message, &parents, &files);
    let commit = Commit {
        id: id.clone(),
        hash: id.clone(),
        message: message.to_owned(),
        author: author.to_owned(),
        timestamp,
        parents,
        branch: repo.branches.current.clone(),
        files,
        restored_from: None,
    };
    let ghost cs = repo.commits@;
    repo.commits.push(copy_commit(&commit));
    assert(repo.commits@.take(cs.len() as int) =~= cs);
    repo.branches.set_tip(id.as_str());
    Ok(commit)
}

/// Where the bytes of `relpath` as recorded in commit `commit_id` are stored: whether it is a
/// Krita document, and the stream hash of its content. `NoCommit` when no commit has that id;
/// `NotTracked` when the commit records no such file, or records its deletion.
pub fn file_at_commit(repo: &Repo, relpath: &str, commit_id: &str) -> (r: Result<(bool, String), KvcError>)
    ensures
        match first_index(repo.commits@, commit_id@) {
            None => r matches Err(KvcError::NoCommit(m)) && m@ == commit_id@,
            Some(ci) => {
                let files = repo.commits@[ci].files@;
                match file_index(files, relpath@) {
                    None => r matches Err(KvcError::NotTracked(m)) && m@ == relpath@,
                    Some(fi) => match files[fi].content {
                        None => r matches Err(KvcError::NotTracked(m)) && m@ == relpath@ + " (deleted in this commit)"@,
                        Some(c) => r matches Ok(v) && v.0 == files[fi].is_kra && v.1@ == c@,
                    },
                }
            },
        },
{
    let ci = match find_first_commit(&repo.commits, commit_id) {
        Some(i) => i,
        None => return Err(KvcError::NoCommit(String::from_str(commit_id))),
    };
    let files = &repo.commits[ci].files;
    let mut i: usize = 0;
    proof {
        assert(files@.skip(0) =~= files@);
    }
    while i < files.len()
        invariant
            i <= files.len(),
            ci < repo.commits@.len(),
            first_index(repo.commits@, commit_id@) == Some(ci as int),
            files@ == repo.commits@[ci as int].files@,
            file_index(files@, relpath@) == match file_index(files@.skip(i as int), relpath@) {
                Some(k) => Some(k + i),
                None => None,
            },
        decreases files.len() - i,
    {
        proof {
            assert(files@.skip(i as int).skip(1) =~= files@.skip(i + 1));
            assert(files@.skip(i as int)[0] == files@[i as int]);
        }
        if str_eq(files[i].path.as_str(), relpath) {
            let f = &files[i];
            proof {
                assert(file_index(files@.skip(i as int), relpath@) == Some(0int));
                assert(file_index(files@, relpath@) == Some(i as int));
                assert(files@ == repo.commits@[ci as int].files@);
                assert(first_index(repo.commits@, commit_id@) == Some(ci as int));
            }
            return match &f.content {
                Some(c) => Ok((f.is_kra, c.clone())),
                None => {
                    proof {
                        reveal_strlit(" (deleted in this commit)");
                    }
                    let mut m = String::from_str(relpath);
                    m.append(" (deleted in this commit)");
                    Err(KvcError::NotTracked(m))
                },
            };
        }
        i += 1;
    }
    proof {
        assert(files@.skip(i as int).len() == 0);
    }
    Err(KvcError::NotTracked(String::from_str(relpath)))
}

/// Where the first record of `path` sits in a commit's files.
pub open spec fn file_index(files: Seq<CommittedFile>, path: Seq<char>) -> Option<int>
    decreases files.len(),
{
    if files.len() == 0 {
        None
    } else if files[0].path@ == path {
        Some(0)
    } else {
        match file_index(files.skip(1), path) {
            Some(k) => Some(k + 1),
            None => None,
        }
    }
}

} // verus!
