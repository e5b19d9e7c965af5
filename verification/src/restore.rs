//! Bringing work back: which scanned changes a commit or a discard takes, what bringing a stash
//! back refuses, and what a rollback rewrites, removes and records. Reading and writing the
//! files is the caller's; every decision is made here.

use crate::assoc::{
    keys_sorted, lemma_del_sorted, lemma_filter_sorted, lemma_put_sorted, lemma_table_get_at, lemma_table_get_del,
    lemma_table_get_put, lemma_table_get_some, table_find, table_get, table_remove,
};
use crate::branch::content_at;
use crate::commit::{
    apply_file, apply_files, commit_seed, contains_text, copy_commit, is_deletion, copy_file, same_commit, short_id, text_set, version_label,
    version_label_spec, Tree,
};
use crate::error::KvcError;
use crate::repo::{now_iso, Commit, CommittedFile, FileView, Index, Repo, Stash, TrackedFile};
use crate::scan::ScanChange;
use crate::stash::{find_stash, stash_index};
use crate::text::{lemma_lex_asymmetric, lemma_lex_irreflexive, lemma_lex_transitive, lemma_text_total, str_less, text_less};
use vstd::prelude::*;
use vstd::relations::{sorted_by, total_ordering};

verus! {

/// The order paths are listed in: by their UTF-8 bytes, ties allowed.
pub open spec fn text_order() -> spec_fn(Seq<char>, Seq<char>) -> bool {
    |a: Seq<char>, b: Seq<char>| !text_less(b, a)
}

/// The texts of `s`.
pub open spec fn views(s: Seq<String>) -> Seq<Seq<char>> {
    s.map_values(|x: String| x@)
}

proof fn lemma_text_order_total()
    ensures
        total_ordering(text_order()),
{
    let r = text_order();
    assert forall|x: Seq<char>| #[trigger] r(x, x) by {
        lemma_lex_irreflexive(vstd::utf8::encode_utf8(x));
    }
    assert forall|x: Seq<char>, y: Seq<char>| #[trigger] r(x, y) && #[trigger] r(y, x) implies x == y by {
        lemma_text_total(x, y);
    }
    assert forall|x: Seq<char>, y: Seq<char>, z: Seq<char>| #[trigger] r(x, y) && #[trigger] r(y, z) implies r(x, z) by {
        if text_less(z, x) {
            lemma_text_total(x, y);
            if text_less(x, y) {
                lemma_lex_transitive(vstd::utf8::encode_utf8(z), vstd::utf8::encode_utf8(x), vstd::utf8::encode_utf8(y));
            }
        }
    }
    assert forall|x: Seq<char>, y: Seq<char>| #[trigger] r(x, y) || #[trigger] r(y, x) by {
        if text_less(y, x) {
            lemma_lex_asymmetric(vstd::utf8::encode_utf8(y), vstd::utf8::encode_utf8(x));
        }
    }
}

fn insert_sorted(out: &mut Vec<String>, x: String)
    requires
        sorted_by(views(old(out)@), text_order()),
    ensures
        sorted_by(views(final(out)@), text_order()),
        views(final(out)@).to_multiset() == views(old(out)@).to_multiset().insert(x@),
{
    let ghost old_v = views(out@);
    let mut p: usize = 0;
    while p < out.len() && !str_less(x.as_str(), out[p].as_str())
        invariant
            p <= out@.len(),
            views(out@) == old_v,
            forall|k: int| 0 <= k < p ==> !text_less(x@, (#[trigger] out@[k])@),
        decreases out@.len() - p,
    {
        p = p + 1;
    }
    let ghost xv = x@;
    out.insert(p, x);
    proof {
        let r = text_order();
        let nv = views(out@);
        assert(nv =~= old_v.insert(p as int, xv));
        vstd::seq_lib::to_multiset_insert(old_v, p as int, xv);
        assert forall|i: int, j: int| 0 <= i < j < nv.len() implies #[trigger] r(nv[i], nv[j]) by {
            if j < p {
            } else if j == p {
                assert(nv[i] == old_v[i]);
            } else if i < p {
                assert(nv[i] == old_v[i] && nv[j] == old_v[j - 1]);
            } else if i == p {
                assert(nv[j] == old_v[j - 1]);
                assert(text_less(xv, old_v[p as int]));
                assert(r(old_v[p as int], old_v[j - 1]) || p == j - 1);
                if text_less(old_v[j - 1], xv) {
                    lemma_lex_transitive(
                        vstd::utf8::encode_utf8(old_v[j - 1]),
                        vstd::utf8::encode_utf8(xv),
                        vstd::utf8::encode_utf8(old_v[p as int]),
                    );
                    if p < j - 1 {
                        assert(r(old_v[p as int], old_v[j - 1]));
                    } else {
                        lemma_lex_irreflexive(vstd::utf8::encode_utf8(old_v[p as int]));
                    }
                }
            } else {
                assert(nv[i] == old_v[i - 1] && nv[j] == old_v[j - 1]);
            }
        }
    }
}

/// The texts of `v` in path order.
pub fn sort_texts(v: &Vec<String>) -> (r: Vec<String>)
    ensures
        views(r@) == views(v@).sort_by(text_order()),
{
    let mut out: Vec<String> = Vec::new();
    let mut i: usize = 0;
    proof {
        assert(views(out@) =~= views(v@.take(0)));
    }
    while i < v.len()
        invariant
            i <= v@.len(),
            sorted_by(views(out@), text_order()),
            views(out@).to_multiset() == views(v@.take(i as int)).to_multiset(),
        decreases v@.len() - i,
    {
        let x = v[i].clone();
        insert_sorted(&mut out, x);
        proof {
            assert(views(v@.take(i + 1)) =~= views(v@.take(i as int)).push(v@[i as int]@));
            vstd::seq_lib::to_multiset_build(views(v@.take(i as int)), v@[i as int]@);
        }
        i = i + 1;
    }
    proof {
        assert(v@.take(v@.len() as int) =~= v@);
        lemma_text_order_total();
        views(v@).lemma_sort_by_ensures(text_order());
        vstd::seq_lib::lemma_sorted_unique(views(out@), views(v@).sort_by(text_order()), text_order());
    }
    out
}

/// The texts of `ps` joined with `sep` between neighbours.
pub open spec fn join_with(ps: Seq<Seq<char>>, sep: Seq<char>) -> Seq<char>
    decreases ps.len(),
{
    if ps.len() == 0 {
        Seq::empty()
    } else if ps.len() == 1 {
        ps[0]
    } else {
        join_with(ps.drop_last(), sep) + sep + ps.last()
    }
}

/// The texts of `v` joined with `sep` between neighbours.
pub fn join_texts(v: &Vec<String>, sep: &str) -> (r: String)
    ensures
        r@ == join_with(views(v@), sep@),
{
    let mut out = String::new();
    let mut i: usize = 0;
    while i < v.len()
        invariant
            i <= v@.len(),
            out@ == join_with(views(v@.take(i as int)), sep@),
        decreases v@.len() - i,
    {
        proof {
            assert(views(v@.take(i + 1)).drop_last() =~= views(v@.take(i as int)));
        }
        if i > 0 {
            out.append(sep);
        }
        out.append(v[i].as_str());
        i = i + 1;
    }
    proof {
        assert(v@.take(v@.len() as int) =~= v@);
    }
    out
}

/// The changes a commit or a discard takes: those whose path is in `only`, in scan order; all of
/// them when there is no `only`.
pub open spec fn selected(changes: Seq<ScanChange>, only: Option<Seq<String>>) -> Seq<ScanChange> {
    match only {
        None => changes,
        Some(o) => changes.filter(|c: ScanChange| text_set(o).contains(c.rel@)),
    }
}

/// Keep the changes whose path is in `only` (all of them when there is no `only`), in order.
pub fn select_changes(changes: Vec<ScanChange>, only: Option<&Vec<String>>) -> (r: Vec<ScanChange>)
    ensures
        r@ == selected(
            changes@,
            match only {
                Some(o) => Some(o@),
                None => None,
            },
        ),
{
    match only {
        None => changes,
        Some(o) => {
            let ghost cs = changes@;
            let ghost pred = |c: ScanChange| text_set(o@).contains(c.rel@);
            let n = changes.len();
            let mut rest = changes;
            let mut kept: Vec<ScanChange> = Vec::new();
            let mut i: usize = 0;
            while i < n
                invariant
                    n == cs.len(),
                    pred == (|c: ScanChange| text_set(o@).contains(c.rel@)),
                    i <= n,
                    rest@.len() == n - i,
                    forall|k: int| 0 <= k < rest@.len() ==> rest@[k] == cs[i + k],
                    kept@ == cs.take(i as int).filter(pred),
                decreases n - i,
            {
                let c = rest.remove(0);
                proof {
                    assert(c == cs[i as int]);
                    assert(cs.take(i + 1).drop_last() =~= cs.take(i as int));
                    reveal(Seq::filter);
                }
                if contains_text(o, c.rel.as_str()) {
                    proof {
                        assert(pred(cs[i as int]));
                        assert(cs.take(i + 1).filter(pred) == cs.take(i as int).filter(pred).push(cs[i as int]));
                    }
                    kept.push(c);
                } else {
                    proof {
                        assert(!text_set(o@).contains(cs[i as int].rel@));
                    }
                }
                i = i + 1;
            }
            proof {
                assert(cs.take(n as int) =~= cs);
            }
            kept
        },
    }
}

/// The paths of a stash's records that are dirty in the working tree, in record order.
pub open spec fn clash_paths(files: Seq<CommittedFile>, dirty: Seq<String>) -> Seq<Seq<char>> {
    files.filter(|f: CommittedFile| text_set(dirty).contains(f.path@)).map_values(|f: CommittedFile| f.path@)
}

fn clashes(files: &Vec<CommittedFile>, dirty: &Vec<String>) -> (r: Vec<String>)
    ensures
        views(r@) == clash_paths(files@, dirty@),
{
    let ghost pred = |f: CommittedFile| text_set(dirty@).contains(f.path@);
    let mut out: Vec<String> = Vec::new();
    let mut i: usize = 0;
    proof {
        reveal(Seq::filter);
        assert(views(out@) =~= files@.take(0).filter(pred).map_values(|f: CommittedFile| f.path@));
    }
    while i < files.len()
        invariant
            i <= files@.len(),
            pred == (|f: CommittedFile| text_set(dirty@).contains(f.path@)),
            views(out@) == files@.take(i as int).filter(pred).map_values(|f: CommittedFile| f.path@),
        decreases files@.len() - i,
    {
        proof {
            assert(files@.take(i + 1).drop_last() =~= files@.take(i as int));
            reveal(Seq::filter);
        }
        if contains_text(dirty, files[i].path.as_str()) {
            let ghost before = out@;
            out.push(files[i].path.clone());
            proof {
                assert(pred(files@[i as int]));
                assert(files@.take(i + 1).filter(pred) == files@.take(i as int).filter(pred).push(files@[i as int]));
                assert(views(out@) =~= views(before).push(files@[i as int].path@));
                assert(views(out@) =~= files@.take(i + 1).filter(pred).map_values(|f: CommittedFile| f.path@));
            }
        } else {
            proof {
                assert(!text_set(dirty@).contains(files@[i as int].path@));
            }
        }
        i = i + 1;
    }
    proof {
        assert(files@.take(files@.len() as int) =~= files@);
    }
    out
}

/// Bring stash `id` back off the shelf. Unknown ids are refused as `NoStash`; when any of its
/// records' paths is dirty in the working tree (`dirty`), nothing changes and the refusal
/// `StashConflict` names those paths in path order, comma-separated. Otherwise the stash leaves
/// the shelf and is handed back for the caller to write its files out.
pub fn pop(repo: &mut Repo, id: &str, dirty: &Vec<String>) -> (r: Result<Stash, KvcError>)
    ensures
        match stash_index(old(repo).stashes.stashes@, id@) {
            None => *final(repo) == *old(repo) && (r matches Err(KvcError::NoStash(m)) && m@ == id@),
            Some(i) => {
                let found = clash_paths(old(repo).stashes.stashes@[i].files@, dirty@);
                if found.len() > 0 {
                    *final(repo) == *old(repo) && (r matches Err(KvcError::StashConflict(m)) && m@
                        == join_with(found.sort_by(text_order()), ", "@))
                } else {
                    &&& r == Ok::<Stash, KvcError>(old(repo).stashes.stashes@[i])
                    &&& final(repo).stashes.stashes@ == old(repo).stashes.stashes@.remove(i)
                    &&& final(repo).root == old(repo).root
                    &&& final(repo).config == old(repo).config
                    &&& final(repo).index == old(repo).index
                    &&& final(repo).chains == old(repo).chains
                    &&& final(repo).commits == old(repo).commits
                    &&& final(repo).branches == old(repo).branches
                    &&& final(repo).commits_persisted == old(repo).commits_persisted
                    &&& final(repo).commits_rewrite == old(repo).commits_rewrite
                    &&& final(repo).config_dirty == old(repo).config_dirty
                }
            },
        },
{
    match find_stash(&repo.stashes.stashes, id) {
        None => Err(KvcError::NoStash(id.to_owned())),
        Some(i) => {
            let found = clashes(&repo.stashes.stashes[i].files, dirty);
            if found.len() > 0 {
                let sorted = sort_texts(&found);
                Err(KvcError::StashConflict(join_texts(&sorted, ", ")))
            } else {
                Ok(repo.stashes.stashes.remove(i))
            }
        },
    }
}

/// Whether `current` already holds, at path `p`, the content `f` records.
pub open spec fn holds_same(current: Seq<(String, CommittedFile)>, p: Seq<char>, f: CommittedFile) -> bool {
    table_get(current, p) matches Some(c) && c@.content == f@.content
}

/// The entries of `target` that bringing the working tree from `current` to `target` rewrites:
/// those whose content `current` does not already hold, in order. Unchanged files are neither
/// read nor rewritten.
pub open spec fn to_rewrite(current: Seq<(String, CommittedFile)>, target: Seq<(String, CommittedFile)>) -> Seq<
    (String, CommittedFile),
> {
    target.filter(|e: (String, CommittedFile)| !holds_same(current, e.0@, e.1))
}

/// The entries of `current` that `target` does not hold, in order: bringing the working tree to
/// `target` deletes them.
pub open spec fn to_delete(current: Seq<(String, CommittedFile)>, target: Seq<(String, CommittedFile)>) -> Seq<
    (String, CommittedFile),
> {
    current.filter(|e: (String, CommittedFile)| table_get(target, e.0@) is None)
}

fn same_opt_text(a: &Option<String>, b: &Option<String>) -> (r: bool)
    ensures
        r == (a.deep_view() == b.deep_view()),
{
    match (a, b) {
        (Some(x), Some(y)) => crate::text::str_eq(x.as_str(), y.as_str()),
        (None, None) => true,
        _ => false,
    }
}

fn copy_entry(e: &(String, CommittedFile)) -> (r: (String, CommittedFile))
    ensures
        r == *e,
{
    (e.0.clone(), copy_file(&e.1))
}

/// The entries of `target` whose content `current` does not already hold.
pub fn rewrites(current: &Tree, target: &Tree) -> (r: Tree)
    requires
        keys_sorted(current@),
    ensures
        r@ == to_rewrite(current@, target@),
{
    let ghost pred = |e: (String, CommittedFile)| !holds_same(current@, e.0@, e.1);
    let mut out: Tree = Vec::new();
    let mut i: usize = 0;
    while i < target.len()
        invariant
            keys_sorted(current@),
            pred == (|e: (String, CommittedFile)| !holds_same(current@, e.0@, e.1)),
            i <= target@.len(),
            out@ == target@.take(i as int).filter(pred),
        decreases target@.len() - i,
    {
        proof {
            assert(target@.take(i + 1).drop_last() =~= target@.take(i as int));
            reveal(Seq::filter);
        }
        let e = &target[i];
        let same = match table_find(current, e.0.as_str()) {
            Some(j) => same_opt_text(&current[j].1.content, &e.1.content),
            None => false,
        };
        if !same {
            out.push(copy_entry(e));
        }
        i = i + 1;
    }
    proof {
        assert(target@.take(target@.len() as int) =~= target@);
    }
    out
}

/// The entries of `current` that `target` does not hold.
pub fn deletions(current: &Tree, target: &Tree) -> (r: Tree)
    requires
        keys_sorted(target@),
    ensures
        r@ == to_delete(current@, target@),
{
    let ghost pred = |e: (String, CommittedFile)| table_get(target@, e.0@) is None;
    let mut out: Tree = Vec::new();
    let mut i: usize = 0;
    while i < current.len()
        invariant
            keys_sorted(target@),
            pred == (|e: (String, CommittedFile)| table_get(target@, e.0@) is None),
            i <= current@.len(),
            out@ == current@.take(i as int).filter(pred),
        decreases current@.len() - i,
    {
        proof {
            assert(current@.take(i + 1).drop_last() =~= current@.take(i as int));
            reveal(Seq::filter);
        }
        if table_find(target, current[i].0.as_str()).is_none() {
            out.push(copy_entry(&current[i]));
        }
        i = i + 1;
    }
    proof {
        assert(current@.take(current@.len() as int) =~= current@);
    }
    out
}

/// Whether a rollback to `id` is only a discard: `id` is already the current branch's tip, so
/// the working tree goes back to it and no commit is recorded.
pub fn rollback_is_discard(b: &crate::repo::Branches, id: &str) -> (r: bool)
    requires
        b.wf(),
    ensures
        r == (b.tip_of_spec(b.current@) == Some(id@)),
{
    match b.tip() {
        Some(t) => crate::text::str_eq(t, id),
        None => false,
    }
}

/// The record a rollback makes of rewriting entry `e` (whose bytes, once written, hash to
/// `hash`): modified when `current` holds the path, added otherwise.
pub open spec fn restored_view(current: Seq<(String, CommittedFile)>, e: (String, CommittedFile), hash: Seq<char>) -> FileView {
    FileView {
        path: e.0@,
        status: if table_get(current, e.0@) is Some { seq!['M'] } else { seq!['A'] },
        content: e.1@.content,
        is_kra: e.1.is_kra,
        file_hash: Some(hash),
        original_size: e.1.original_size,
    }
}

/// The record of a deleted entry.
pub open spec fn deleted_view(e: (String, CommittedFile)) -> FileView {
    FileView { path: e.0@, status: seq!['D'], content: None, is_kra: e.1.is_kra, file_hash: None, original_size: 0 }
}

/// What a rollback from `current` to `target` records: one record per rewritten entry (with the
/// hash of the bytes written for it), then one deletion per entry `target` lacks. These are
/// exactly the differences of `target` against `current`, the tree of the new commit's parent.
pub open spec fn rollback_views(
    current: Seq<(String, CommittedFile)>,
    target: Seq<(String, CommittedFile)>,
    hashes: Seq<String>,
) -> Seq<FileView> {
    Seq::new(to_rewrite(current, target).len(), |i: int| restored_view(current, to_rewrite(current, target)[i], hashes[i]@))
        + to_delete(current, target).map_values(|e: (String, CommittedFile)| deleted_view(e))
}

/// The records of a rollback from `current` to `target`; `hashes` holds, for each rewritten
/// entry in order, the hash of the bytes written for it.
pub fn rollback_records(current: &Tree, target: &Tree, hashes: &Vec<String>) -> (r: Vec<CommittedFile>)
    requires
        keys_sorted(current@),
        keys_sorted(target@),
        hashes@.len() == to_rewrite(current@, target@).len(),
    ensures
        r@.map_values(|f: CommittedFile| f@) == rollback_views(current@, target@, hashes@),
{
    let w = rewrites(current, target);
    let d = deletions(current, target);
    let ghost goal = rollback_views(current@, target@, hashes@);
    let mut out: Vec<CommittedFile> = Vec::new();
    let mut i: usize = 0;
    while i < w.len()
        invariant
            keys_sorted(current@),
            w@ == to_rewrite(current@, target@),
            d@ == to_delete(current@, target@),
            goal == rollback_views(current@, target@, hashes@),
            hashes@.len() == w@.len(),
            i <= w@.len(),
            out@.len() == i,
            forall|k: int| 0 <= k < i ==> (#[trigger] out@[k])@ == goal[k],
        decreases w@.len() - i,
    {
        let e = &w[i];
        let status = if table_find(current, e.0.as_str()).is_some() {
            String::from_str("M")
        } else {
            String::from_str("A")
        };
        proof {
            reveal_strlit("M");
            reveal_strlit("A");
            assert("M"@ =~= seq!['M']);
            assert("A"@ =~= seq!['A']);
        }
        let f = CommittedFile {
            path: e.0.clone(),
            status,
            content: match &e.1.content {
                Some(c) => Some(c.clone()),
                None => None,
            },
            is_kra: e.1.is_kra,
            file_hash: Some(hashes[i].clone()),
            original_size: e.1.original_size,
        };
        out.push(f);
        i = i + 1;
    }
    let mut j: usize = 0;
    while j < d.len()
        invariant
            w@ == to_rewrite(current@, target@),
            d@ == to_delete(current@, target@),
            goal == rollback_views(current@, target@, hashes@),
            j <= d@.len(),
            out@.len() == w@.len() + j,
            forall|k: int| 0 <= k < w@.len() + j ==> (#[trigger] out@[k])@ == goal[k],
        decreases d@.len() - j,
    {
        proof {
            reveal_strlit("D");
            assert("D"@ =~= seq!['D']);
        }
        let f = CommittedFile {
            path: d[j].0.clone(),
            status: String::from_str("D"),
            content: None,
            is_kra: d[j].1.is_kra,
            file_hash: None,
            original_size: 0,
        };
        out.push(f);
        j = j + 1;
    }
    proof {
        assert(out@.map_values(|f: CommittedFile| f@) =~= goal);
    }
    out
}

/// Record a rollback to commit `commit_id` as a new commit on the current branch holding the
/// records `files` (see [`rollback_records`]): its message is "Restored to " and the label of
/// the commit rolled back to, its parent the current tip, and it names the commit it restored;
/// the branch tip moves to it. With no records the tree already matched: refused as `Nothing`
/// and nothing changes.
pub fn record_rollback(repo: &mut Repo, commit_id: &str, author: &str, files: Vec<CommittedFile>) -> (r: Result<
    Commit,
    KvcError,
>)
    requires
        old(repo).wf(),
    ensures
        final(repo).wf(),
        files@.len() == 0 ==> *final(repo) == *old(repo) && r matches Err(KvcError::Nothing),
        files@.len() > 0 ==> (r matches Ok(commit) && {
            let cs = old(repo).commits@;
            &&& commit.files@ == files@
            &&& commit.parents@.map_values(|p: String| p@) == match old(repo).branches.tip_of_spec(old(repo).branches.current@) {
                Some(t) => seq![t],
                None => Seq::<Seq<char>>::empty(),
            }
            &&& commit.message@ == "Restored to "@ + version_label_spec(*old(repo), commit_id@)
            &&& commit.author@ == author@
            &&& commit.branch@ == old(repo).branches.current@
            &&& (commit.restored_from matches Some(s) && s@ == commit_id@)
            &&& commit.id@ == short_id(commit_seed(commit.timestamp@, commit.message@, commit.parents@, commit.files@))
            &&& commit.hash == commit.id
            &&& final(repo).commits@.len() == cs.len() + 1
            &&& final(repo).commits@.take(cs.len() as int) == cs
            &&& same_commit(final(repo).commits@.last(), commit)
            &&& final(repo).branches.current == old(repo).branches.current
            &&& final(repo).branches.branch_map() == old(repo).branches.branch_map().insert(
                old(repo).branches.current@,
                commit.id@,
            )
            &&& final(repo).index == old(repo).index
            &&& final(repo).root == old(repo).root
            &&& final(repo).config == old(repo).config
            &&& final(repo).chains == old(repo).chains
            &&& final(repo).stashes == old(repo).stashes
        }),
{
    if files.len() == 0 {
        return Err(KvcError::Nothing);
    }
    let label = version_label(repo, commit_id);
    let mut message = String::from_str("Restored to ");
    message.append(label.as_str());
    proof {
        reveal_strlit("Restored to ");
    }
    let timestamp = now_iso();
    let mut parents: Vec<String> = Vec::new();
    match repo.branches.tip() {
        Some(t) => {
            parents.push(t.to_owned());
            assert(parents@.map_values(|p: String| p@) =~= seq![t@]);
        },
        None => {
            assert(parents@.map_values(|p: String| p@) =~= Seq::<Seq<char>>::empty());
        },
    }
    let id = crate::commit::commit_id(timestamp.as_str(), message.as_str(), &parents, &files);
    let commit = Commit {
        id: id.clone(),
        hash: id.clone(),
        message,
        author: author.to_owned(),
        timestamp,
        parents,
        branch: repo.branches.current.clone(),
        files,
        restored_from: Some(commit_id.to_owned()),
    };
    let ghost cs = repo.commits@;
    repo.commits.push(copy_commit(&commit));
    assert(repo.commits@.take(cs.len() as int) =~= cs);
    repo.branches.set_tip(id.as_str());
    Ok(commit)
}

/// Drop from the index every path `target` does not hold, keeping the other entries; gives the
/// dropped paths in index order, for the caller to delete from the working tree.
pub fn forget_absent(index: &mut Index, target: &Tree) -> (gone: Vec<String>)
    requires
        old(index).wf(),
        keys_sorted(target@),
    ensures
        final(index).wf(),
        forall|k: Seq<char>|
            #[trigger] table_get(final(index).files@, k) == if table_get(target@, k) is Some {
                table_get(old(index).files@, k)
            } else {
                None
            },
        views(gone@) == old(index).files@.filter(|e: (String, TrackedFile)| table_get(target@, e.0@) is None).map_values(
            |e: (String, TrackedFile)| e.0@,
        ),
{
    let ghost start = index.files@;
    let ghost pred = |e: (String, TrackedFile)| table_get(target@, e.0@) is None;
    let mut gone: Vec<String> = Vec::new();
    let mut i: usize = 0;
    proof {
        reveal(Seq::filter);
        assert(views(gone@) =~= start.take(0).filter(pred).map_values(|e: (String, TrackedFile)| e.0@));
    }
    while i < index.files.len()
        invariant
            index.files@ == start,
            keys_sorted(target@),
            pred == (|e: (String, TrackedFile)| table_get(target@, e.0@) is None),
            i <= start.len(),
            views(gone@) == start.take(i as int).filter(pred).map_values(|e: (String, TrackedFile)| e.0@),
            forall|t: int| 0 <= t < i && table_get(target@, start[t].0@) is None ==> exists|g: int|
                0 <= g < gone@.len() && (#[trigger] gone@[g])@ == start[t].0@,
            forall|g: int| 0 <= g < gone@.len() ==> table_get(target@, (#[trigger] gone@[g])@) is None,
        decreases start.len() - i,
    {
        proof {
            assert(start.take(i + 1).drop_last() =~= start.take(i as int));
            reveal(Seq::filter);
        }
        let ghost before = gone@;
        if table_find(target, index.files[i].0.as_str()).is_none() {
            gone.push(index.files[i].0.clone());
            proof {
                assert(views(gone@) =~= views(before).push(start[i as int].0@));
                assert(gone@[before.len() as int]@ == start[i as int].0@);
                assert forall|t: int| 0 <= t < i + 1 && table_get(target@, start[t].0@) is None implies exists|g: int|
                    0 <= g < gone@.len() && (#[trigger] gone@[g])@ == start[t].0@ by {
                    if t < i {
                        let g = choose|g: int| 0 <= g < before.len() && (#[trigger] before[g])@ == start[t].0@;
                        assert(gone@[g] == before[g]);
                    } else {
                        assert(gone@[before.len() as int]@ == start[t].0@);
                    }
                }
                assert forall|g: int| 0 <= g < gone@.len() implies table_get(target@, (#[trigger] gone@[g])@) is None by {
                    if g < before.len() {
                        assert(gone@[g] == before[g]);
                    }
                }
            }
        }
        i = i + 1;
    }
    proof {
        assert(start.take(start.len() as int) =~= start);
    }
    let mut j: usize = 0;
    while j < gone.len()
        invariant
            keys_sorted(index.files@),
            j <= gone@.len(),
            forall|g: int| 0 <= g < gone@.len() ==> table_get(target@, (#[trigger] gone@[g])@) is None,
            forall|k: Seq<char>|
                #[trigger] table_get(index.files@, k) == if table_get(target@, k) is None && exists|g: int|
                    0 <= g < j && (#[trigger] gone@[g])@ == k {
                    None
                } else {
                    table_get(start, k)
                },
        decreases gone@.len() - j,
    {
        let ghost before = index.files@;
        let _ = table_remove(&mut index.files, gone[j].as_str());
        proof {
            assert forall|k: Seq<char>| #[trigger] table_get(index.files@, k) == if table_get(target@, k) is None && exists|g: int|
                0 <= g < j + 1 && (#[trigger] gone@[g])@ == k {
                None
            } else {
                table_get(start, k)
            } by {
                lemma_table_get_del(before, gone@[j as int]@, k);
                if k == gone@[j as int]@ {
                    assert(table_get(target@, gone@[j as int]@) is None);
                } else if exists|g: int| 0 <= g < j + 1 && (#[trigger] gone@[g])@ == k {
                    let g = choose|g: int| 0 <= g < j + 1 && (#[trigger] gone@[g])@ == k;
                    assert(g < j);
                }
            }
        }
        j = j + 1;
    }
    proof {
        assert forall|k: Seq<char>| #[trigger] table_get(index.files@, k) == if table_get(target@, k) is Some {
            table_get(start, k)
        } else {
            None
        } by {
            if table_get(target@, k) is None && table_get(start, k) is Some {
                crate::assoc::lemma_table_get_some(start, k);
                let t = choose|t: int| 0 <= t < start.len() && (#[trigger] start[t]).0@ == k && start[t].1 == table_get(start, k)->0;
                let g = choose|g: int| 0 <= g < gone@.len() && (#[trigger] gone@[g])@ == start[t].0@;
            }
        }
    }
    gone
}

/// One step of discarding a working-tree change.
pub enum Discard {
    /// A file never committed: it goes away.
    Remove(String),
    /// A modified or deleted file: rewritten from the committed entry.
    Rewrite(String, CommittedFile),
}

/// Whether a scanned change is an untracked file.
pub open spec fn untracked_change(c: ScanChange) -> bool {
    c.status@ == seq!['U']
}

/// Whether change `i` of `sel` needs a committed entry that `target` lacks.
pub open spec fn missing_at(target: Seq<(String, CommittedFile)>, sel: Seq<ScanChange>, i: int) -> bool {
    !untracked_change(sel[i]) && table_get(target, sel[i].rel@) is None
}

/// How to discard the changes `selected` back to the tree `target`: an untracked file is
/// removed, anything else is rewritten from `target`'s entry. Nothing selected is refused as
/// `Nothing`; a change whose path `target` does not hold is refused as `NotTracked` (the first
/// such, in order).
pub fn discard_plan(target: &Tree, selected: &Vec<ScanChange>) -> (r: Result<Vec<Discard>, KvcError>)
    requires
        keys_sorted(target@),
    ensures
        selected@.len() == 0 ==> r matches Err(KvcError::Nothing),
        selected@.len() > 0 ==> match r {
            Ok(steps) => {
                &&& forall|i: int| 0 <= i < selected@.len() ==> !missing_at(target@, selected@, i)
                &&& steps@.len() == selected@.len()
                &&& forall|i: int|
                    0 <= i < steps@.len() ==> match #[trigger] steps@[i] {
                        Discard::Remove(p) => untracked_change(selected@[i]) && p@ == selected@[i].rel@,
                        Discard::Rewrite(p, f) => !untracked_change(selected@[i]) && p@ == selected@[i].rel@
                            && table_get(target@, selected@[i].rel@) == Some(f),
                    }
            },
            Err(KvcError::NotTracked(p)) => exists|i: int|
                0 <= i < selected@.len() && missing_at(target@, selected@, i) && p@ == selected@[i].rel@ && forall|j: int|
                    0 <= j < i ==> !missing_at(target@, selected@, j),
            Err(_) => false,
        },
{
    if selected.len() == 0 {
        return Err(KvcError::Nothing);
    }
    proof {
        reveal_strlit("U");
        assert("U"@ =~= seq!['U']);
    }
    let mut steps: Vec<Discard> = Vec::new();
    let mut i: usize = 0;
    while i < selected.len()
        invariant
            keys_sorted(target@),
            i <= selected@.len(),
            steps@.len() == i,
            forall|j: int| 0 <= j < i ==> !missing_at(target@, selected@, j),
            forall|j: int|
                0 <= j < i ==> match #[trigger] steps@[j] {
                    Discard::Remove(p) => untracked_change(selected@[j]) && p@ == selected@[j].rel@,
                    Discard::Rewrite(p, f) => !untracked_change(selected@[j]) && p@ == selected@[j].rel@
                        && table_get(target@, selected@[j].rel@) == Some(f),
                },
        decreases selected@.len() - i,
    {
        proof {
            reveal_strlit("U");
            assert("U"@ =~= seq!['U']);
        }
        let c = &selected[i];
        let ghost before = steps@;
        if crate::text::str_eq(c.status.as_str(), "U") {
            steps.push(Discard::Remove(c.rel.clone()));
        } else {
            match table_find(target, c.rel.as_str()) {
                Some(k) => {
                    steps.push(Discard::Rewrite(c.rel.clone(), copy_file(&target[k].1)));
                },
                None => {
                    proof {
                        assert(missing_at(target@, selected@, i as int));
                    }
                    return Err(KvcError::NotTracked(c.rel.clone()));
                },
            }
        }
        proof {
            assert forall|j: int| 0 <= j < i implies steps@[j] == before[j] by {}
        }
        i = i + 1;
    }
    Ok(steps)
}

/// What a path holds after `recs` are applied to `t`: the last record for it (nothing when
/// that record is a deletion), or what `t` held when no record names it.
pub open spec fn last_write(t: Seq<(String, CommittedFile)>, recs: Seq<CommittedFile>, p: Seq<char>) -> Option<CommittedFile>
    decreases recs.len(),
{
    if recs.len() == 0 {
        table_get(t, p)
    } else if recs.last().path@ == p {
        if is_deletion(recs.last()) {
            None
        } else {
            Some(recs.last())
        }
    } else {
        last_write(t, recs.drop_last(), p)
    }
}

proof fn lemma_apply_files_get(t: Seq<(String, CommittedFile)>, recs: Seq<CommittedFile>, p: Seq<char>)
    requires
        keys_sorted(t),
    ensures
        keys_sorted(apply_files(t, recs)),
        table_get(apply_files(t, recs), p) == last_write(t, recs, p),
    decreases recs.len(),
{
    if recs.len() > 0 {
        let before = apply_files(t, recs.drop_last());
        lemma_apply_files_get(t, recs.drop_last(), p);
        let f = recs.last();
        if is_deletion(f) {
            lemma_del_sorted(before, f.path@);
            lemma_table_get_del(before, f.path@, p);
        } else {
            lemma_put_sorted(before, f.path, f);
            lemma_table_get_put(before, f.path, f, p);
        }
    }
}

proof fn lemma_last_write_absent(t: Seq<(String, CommittedFile)>, recs: Seq<CommittedFile>, p: Seq<char>)
    requires
        forall|i: int| 0 <= i < recs.len() ==> (#[trigger] recs[i]).path@ != p,
    ensures
        last_write(t, recs, p) == table_get(t, p),
    decreases recs.len(),
{
    if recs.len() > 0 {
        assert(recs[recs.len() - 1].path@ != p);
        assert forall|i: int| 0 <= i < recs.drop_last().len() implies (#[trigger] recs.drop_last()[i]).path@ != p by {
            assert(recs.drop_last()[i] == recs[i]);
        }
        lemma_last_write_absent(t, recs.drop_last(), p);
    }
}

proof fn lemma_last_write_at(t: Seq<(String, CommittedFile)>, recs: Seq<CommittedFile>, p: Seq<char>, i: int)
    requires
        0 <= i < recs.len(),
        recs[i].path@ == p,
        forall|j: int| 0 <= j < recs.len() && j != i ==> (#[trigger] recs[j]).path@ != p,
    ensures
        last_write(t, recs, p) == if is_deletion(recs[i]) {
            None
        } else {
            Some(recs[i])
        },
    decreases recs.len(),
{
    if i < recs.len() - 1 {
        assert(recs[recs.len() - 1].path@ != p);
        assert forall|j: int| 0 <= j < recs.drop_last().len() && j != i implies (#[trigger] recs.drop_last()[j]).path@ != p by {
            assert(recs.drop_last()[j] == recs[j]);
        }
        lemma_last_write_at(t, recs.drop_last(), p, i);
    }
}

proof fn lemma_sorted_keys_distinct<V>(s: Seq<(String, V)>, a: int, b: int)
    requires
        keys_sorted(s),
        0 <= a < s.len(),
        0 <= b < s.len(),
        a != b,
    ensures
        s[a].0@ != s[b].0@,
{
    if a < b {
        crate::assoc::lemma_text_less_asymmetric(s[a].0@, s[b].0@);
    } else {
        crate::assoc::lemma_text_less_asymmetric(s[b].0@, s[a].0@);
    }
}

proof fn lemma_rollback_path(
    current: Seq<(String, CommittedFile)>,
    target: Seq<(String, CommittedFile)>,
    hashes: Seq<String>,
    recs: Seq<CommittedFile>,
    p: Seq<char>,
)
    requires
        keys_sorted(current),
        keys_sorted(target),
        hashes.len() == to_rewrite(current, target).len(),
        recs.map_values(|f: CommittedFile| f@) == rollback_views(current, target, hashes),
    ensures
        content_at(apply_files(current, recs), p) == content_at(target, p),
{
    let w = to_rewrite(current, target);
    let d = to_delete(current, target);
    let nw = w.len();
    let pw = |e: (String, CommittedFile)| !holds_same(current, e.0@, e.1);
    let pd = |e: (String, CommittedFile)| table_get(target, e.0@) is None;
    lemma_filter_sorted(target, pw);
    lemma_filter_sorted(current, pd);
    lemma_apply_files_get(current, recs, p);
    let gv = rollback_views(current, target, hashes);
    assert(recs.map_values(|f: CommittedFile| f@).len() == recs.len());
    assert(gv.len() == nw + d.len());
    assert(recs.len() == nw + d.len());
    assert forall|i: int| 0 <= i < recs.len() implies #[trigger] recs[i]@ == rollback_views(current, target, hashes)[i] by {
        assert(recs.map_values(|f: CommittedFile| f@)[i] == recs[i]@);
    }
    // Every rewrite comes from `target`; every deletion from `current`, at a path `target` lacks.
    assert forall|i: int| 0 <= i < nw implies exists|a: int| 0 <= a < target.len() && target[a] == #[trigger] w[i] by {
        assert(w.contains(w[i]));
        target.lemma_filter_contains_rev(pw, w[i]);
    }
    assert forall|i: int| 0 <= i < d.len() implies exists|a: int| 0 <= a < current.len() && current[a] == #[trigger] d[i]
        && table_get(target, d[i].0@) is None by {
        assert(d.contains(d[i]));
        current.lemma_filter_contains_rev(pd, d[i]);
        current.lemma_filter_pred(pd, i);
    }
    assert forall|i: int| 0 <= i < nw implies (#[trigger] recs[i]).path@ == w[i].0@ && !is_deletion(recs[i])
        && recs[i]@.content == w[i].1@.content by {
        assert(gv[i] == restored_view(current, w[i], hashes[i]@));
        assert(recs[i]@ == restored_view(current, w[i], hashes[i]@));
        assert(recs[i].status@ == recs[i]@.status);
        assert(recs[i]@.status[0] != 'D');
    }
    assert forall|i: int| nw <= i < recs.len() implies (#[trigger] recs[i]).path@ == d[i - nw].0@ && is_deletion(recs[i]) by {
        assert(gv[i] == deleted_view(d[i - nw]));
        assert(recs[i]@ == deleted_view(d[i - nw]));
        assert(recs[i].status@ == recs[i]@.status);
    }
    match table_get(target, p) {
        Some(f) => {
            lemma_table_get_some(target, p);
            let q = choose|q: int| 0 <= q < target.len() && (#[trigger] target[q]).0@ == p && target[q].1 == f;
            assert forall|i: int| nw <= i < recs.len() implies (#[trigger] recs[i]).path@ != p by {
                assert(table_get(target, d[i - nw].0@) is None);
            }
            if holds_same(current, p, f) {
                assert forall|i: int| 0 <= i < recs.len() implies (#[trigger] recs[i]).path@ != p by {
                    if i < nw {
                        let a = choose|a: int| 0 <= a < target.len() && target[a] == #[trigger] w[i];
                        if w[i].0@ == p {
                            if a != q {
                                lemma_sorted_keys_distinct(target, a, q);
                            }
                            target.lemma_filter_pred(pw, i);
                        }
                    }
                }
                lemma_last_write_absent(current, recs, p);
            } else {
                target.lemma_filter_contains(pw, q);
                let i0 = choose|i0: int| 0 <= i0 < nw && w[i0] == target[q];
                assert(recs[i0].path@ == p);
                assert forall|j: int| 0 <= j < recs.len() && j != i0 implies (#[trigger] recs[j]).path@ != p by {
                    if j < nw {
                        lemma_sorted_keys_distinct(w, j, i0);
                    }
                }
                lemma_last_write_at(current, recs, p, i0);
            }
        },
        None => {
            assert forall|i: int| 0 <= i < nw implies (#[trigger] recs[i]).path@ != p by {
                let a = choose|a: int| 0 <= a < target.len() && target[a] == #[trigger] w[i];
                lemma_table_get_at(target, a);
            }
            match table_get(current, p) {
                Some(c) => {
                    lemma_table_get_some(current, p);
                    let q = choose|q: int| 0 <= q < current.len() && (#[trigger] current[q]).0@ == p && current[q].1 == c;
                    current.lemma_filter_contains(pd, q);
                    let d0 = choose|d0: int| 0 <= d0 < d.len() && d[d0] == current[q];
                    assert(recs[nw + d0].path@ == p);
                    assert forall|j: int| 0 <= j < recs.len() && j != nw + d0 implies (#[trigger] recs[j]).path@ != p by {
                        if j >= nw {
                            lemma_sorted_keys_distinct(d, j - nw, d0);
                        }
                    }
                    lemma_last_write_at(current, recs, p, nw + d0);
                },
                None => {
                    assert forall|i: int| 0 <= i < recs.len() implies (#[trigger] recs[i]).path@ != p by {
                        if i >= nw {
                            let a = choose|a: int| 0 <= a < current.len() && current[a] == #[trigger] d[i - nw]
                                && table_get(target, d[i - nw].0@) is None;
                            lemma_table_get_at(current, a);
                        }
                    }
                    lemma_last_write_absent(current, recs, p);
                },
            }
        },
    }
}

/// A rollback restores the target: applying its records (see [`rollback_records`]) to the tree
/// it starts from gives, at every path, exactly the content the target tree records there, so
/// the new commit's tree holds what the restored commit held.
pub proof fn lemma_rollback_restores(
    current: Seq<(String, CommittedFile)>,
    target: Seq<(String, CommittedFile)>,
    hashes: Seq<String>,
    recs: Seq<CommittedFile>,
)
    requires
        keys_sorted(current),
        keys_sorted(target),
        hashes.len() == to_rewrite(current, target).len(),
        recs.map_values(|f: CommittedFile| f@) == rollback_views(current, target, hashes),
    ensures
        forall|p: Seq<char>| #[trigger] content_at(apply_files(current, recs), p) == content_at(target, p),
{
    assert forall|p: Seq<char>| #[trigger] content_at(apply_files(current, recs), p) == content_at(target, p) by {
        lemma_rollback_path(current, target, hashes, recs, p);
    }
}

} // verus!
