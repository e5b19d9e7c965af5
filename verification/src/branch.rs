//! Local branch operations: create, switch, merge, delete. Branches are named tips over the
//! shared commit graph; the working-tree writes a switch or merge needs are returned as trees
//! for the caller to materialize.

use crate::assoc::{keys_sorted, table_find, table_get, table_insert, table_remove, table_del};
use crate::error::KvcError;
use crate::commit::{
    ancestors, apply_files, commit_id, commit_seed, contains_text, copy_commit, copy_files,
    current_tree, current_tree_spec, first_index, find_first_commit, reachable, same_commit,
    short_id, tree_at_commit, tree_spec, text_set, Tree, apply_changes, copy_texts, fresh_id, lemma_tree_after_push,
};
use crate::repo::{now_iso, Branches, Commit, CommittedFile, Repo};
use crate::text::{chars_of, is_white_space, str_eq, text_less, trim_end, trim_start, trim_text};
use vstd::prelude::*;
use vstd::string::StringExecFns;

verus! {

/// Unicode control characters (general category `Cc`), what `char::is_control` accepts.
pub open spec fn is_control(c: char) -> bool {
    let u = c as u32;
    u <= 0x1f || (0x7f <= u <= 0x9f)
}

/// Characters a branch name may not hold besides controls.
pub open spec fn is_forbidden(c: char) -> bool {
    c == '/' || c == '\\' || c == ':' || c == '*' || c == '?' || c == '"' || c == '<' || c == '>'
        || c == '|'
}

/// The outcome of checking a branch name: the trimmed name, or the message of the fault.
pub open spec fn name_check(name: Seq<char>) -> Result<Seq<char>, Seq<char>> {
    let t = trim_end(trim_start(name));
    if t.len() == 0 || vstd::utf8::encode_utf8(t).len() > 60 {
        Err("use 1-60 characters"@)
    } else if exists|i: int| 0 <= i < t.len() && (is_control(#[trigger] t[i]) || is_forbidden(t[i])) {
        Err("avoid slashes, quotes, and punctuation like : * ? < > |"@)
    } else {
        Ok(t)
    }
}

/// Whether `c` may not stand in a branch name.
fn bad_name_char(c: char) -> (r: bool)
    ensures
        r == (is_control(c) || is_forbidden(c)),
{
    let u = c as u32;
    u <= 0x1f || (0x7f <= u && u <= 0x9f) || c == '/' || c == '\\' || c == ':' || c == '*' || c
        == '?' || c == '"' || c == '<' || c == '>' || c == '|'
}

/// Check a branch name: trimmed, 1 to 60 bytes of UTF-8, and free of control characters and
/// of `/ \ : * ? " < > |`. Gives the trimmed name.
pub fn validate_name(name: &str) -> (r: Result<String, KvcError>)
    ensures
        match name_check(name@) {
            Ok(t) => r matches Ok(s) && s@ == t,
            Err(m) => r matches Err(KvcError::BadBranchName(s)) && s@ == m,
        },
{
    let t = trim_text(name);
    let n = t.as_bytes().len();
    assert(n == vstd::utf8::encode_utf8(t@).len());
    if n == 0 || n > 60 {
        proof {
            crate::text::lemma_encode_empty(t@);
        }
        return Err(KvcError::BadBranchName(String::from_str("use 1-60 characters")));
    }
    proof {
        crate::text::lemma_encode_empty(t@);
    }
    let chars = chars_of(t);
    let mut i: usize = 0;
    while i < chars.len()
        invariant
            i <= chars.len(),
            chars@ == t@,
            t@ == trim_end(trim_start(name@)),
            t@.len() > 0,
            vstd::utf8::encode_utf8(t@).len() <= 60,
            forall|j: int| 0 <= j < i ==> !(is_control(#[trigger] chars@[j]) || is_forbidden(chars@[j])),
        decreases chars.len() - i,
    {
        if bad_name_char(chars[i]) {
            assert(is_control(t@[i as int]) || is_forbidden(t@[i as int]));
            return Err(
                KvcError::BadBranchName(
                    String::from_str("avoid slashes, quotes, and punctuation like : * ? < > |"),
                ),
            );
        }
        i = i + 1;
    }
    Ok(t.to_owned())
}


/// The current tip id, or the empty id when the current branch has no commits.
pub open spec fn tip_or_empty(b: Branches) -> Seq<char> {
    match b.tip_of_spec(b.current@) {
        Some(t) => t,
        None => seq![],
    }
}

/// Create branch `name` (trimmed) at the current tip and make it current. Refused for an
/// invalid name or one already taken.
pub fn create_branch(repo: &mut Repo, name: &str) -> (r: Result<(), KvcError>)
    requires
        old(repo).wf(),
    ensures
        final(repo).wf(),
        match name_check(name@) {
            Err(m) => *final(repo) == *old(repo) && (r matches Err(KvcError::BadBranchName(s))
                && s@ == m),
            Ok(t) => if old(repo).branches.branch_map().contains_key(t) {
                *final(repo) == *old(repo) && (r matches Err(KvcError::BranchExists(s)) && s@
                    == t)
            } else {
                &&& r is Ok
                &&& final(repo).branches.current@ == t
                &&& final(repo).branches.branch_map() == old(repo).branches.branch_map().insert(
                    t,
                    tip_or_empty(old(repo).branches),
                )
                &&& final(repo).root == old(repo).root
                &&& final(repo).config == old(repo).config
                &&& final(repo).index == old(repo).index
                &&& final(repo).commits == old(repo).commits
                &&& final(repo).stashes == old(repo).stashes
                &&& final(repo).commits_persisted == old(repo).commits_persisted
                &&& final(repo).commits_rewrite == old(repo).commits_rewrite
                &&& final(repo).config_dirty == old(repo).config_dirty
            },
        },
{
    let name = match validate_name(name) {
        Ok(n) => n,
        Err(e) => return Err(e),
    };
    if table_find(&repo.branches.branches, name.as_str()).is_some() {
        return Err(KvcError::BranchExists(name));
    }
    let tip = match repo.branches.tip() {
        Some(t) => t.to_owned(),
        None => String::new(),
    };
    let ghost before = repo.branches.branches@;
    let ghost gname = name;
    let ghost gtip = tip;
    table_insert(&mut repo.branches.branches, name.clone(), tip);
    repo.branches.current = name;
    proof {
        assert forall|k: Seq<char>| #[trigger]
            table_get(repo.branches.branches@, k) == (if k == gname@ {
                Some(gtip)
            } else {
                table_get(before, k)
            }) by {
            crate::assoc::lemma_table_get_put(before, gname, gtip, k);
        }
        assert(repo.branches.branch_map() =~= old(repo).branches.branch_map().insert(
            gname@,
            tip_or_empty(old(repo).branches),
        ));
    }
    Ok(())
}

/// Remove the branch label `name`; its commits stay in history. Refused for the current
/// branch or an unknown one.
pub fn delete_branch(repo: &mut Repo, name: &str) -> (r: Result<(), KvcError>)
    requires
        old(repo).wf(),
    ensures
        final(repo).wf(),
        if name@ == old(repo).branches.current@ {
            *final(repo) == *old(repo) && r matches Err(KvcError::DeleteCurrent)
        } else if !old(repo).branches.branch_map().contains_key(name@) {
            *final(repo) == *old(repo) && (r matches Err(KvcError::NoBranch(s)) && s@ == name@)
        } else {
            &&& r is Ok
            &&& final(repo).branches.current == old(repo).branches.current
            &&& final(repo).branches.branch_map() == old(repo).branches.branch_map().remove(
                name@,
            )
            &&& final(repo).root == old(repo).root
            &&& final(repo).config == old(repo).config
            &&& final(repo).index == old(repo).index
            &&& final(repo).commits == old(repo).commits
            &&& final(repo).stashes == old(repo).stashes
            &&& final(repo).commits_persisted == old(repo).commits_persisted
            &&& final(repo).commits_rewrite == old(repo).commits_rewrite
            &&& final(repo).config_dirty == old(repo).config_dirty
        },
{
    if str_eq(name, repo.branches.current.as_str()) {
        return Err(KvcError::DeleteCurrent);
    }
    if table_find(&repo.branches.branches, name).is_none() {
        return Err(KvcError::NoBranch(name.to_owned()));
    }
    let ghost before = repo.branches.branches@;
    let _ = table_remove(&mut repo.branches.branches, name);
    proof {
        assert forall|k: Seq<char>| #[trigger]
            table_get(repo.branches.branches@, k) == (if k == name@ {
                None
            } else {
                table_get(before, k)
            }) by {
            crate::assoc::lemma_table_get_del(before, name@, k);
        }
        assert(repo.branches.branch_map() =~= old(repo).branches.branch_map().remove(name@));
    }
    Ok(())
}


/// The content recorded for a path in a tree: absent, or present with its (optional)
/// content hash.
pub open spec fn content_at(t: Seq<(String, CommittedFile)>, p: Seq<char>) -> Option<
    Option<Seq<char>>,
> {
    match table_get(t, p) {
        Some(f) => Some(f.content.deep_view()),
        None => None,
    }
}

/// The merge commit's entry for path `p`, as `(status, content, is_kra)`: none when the source
/// did not change it against the base or agrees with the current side; otherwise the source
/// version, flagged `C` when the current side changed it too (`M` or `A` else). A path the
/// source deleted becomes `D`, or, when the current side changed it too, a `C` entry keeping
/// the current content.
pub open spec fn merge_entry(
    base: Seq<(String, CommittedFile)>,
    cur: Seq<(String, CommittedFile)>,
    src: Seq<(String, CommittedFile)>,
    p: Seq<char>,
) -> Option<(Seq<char>, Option<Seq<char>>, bool)> {
    let b = content_at(base, p);
    let c = content_at(cur, p);
    let s = content_at(src, p);
    if s == c || s == b {
        None
    } else {
        let conflicted = c != b;
        match table_get(src, p) {
            Some(sf) => Some(
                (
                    if conflicted {
                        seq!['C']
                    } else if table_get(cur, p) is Some {
                        seq!['M']
                    } else {
                        seq!['A']
                    },
                    sf.content.deep_view(),
                    sf.is_kra,
                ),
            ),
            None => match table_get(cur, p) {
                Some(cf) => if conflicted {
                    Some((seq!['C'], cf.content.deep_view(), cf.is_kra))
                } else {
                    Some((seq!['D'], None, cf.is_kra))
                },
                None => None,
            },
        }
    }
}

/// A merge never quietly loses work: when both sides changed a path against the base in
/// different ways (an edit against an edit, or an edit against a deletion), the merge records a
/// `C` entry for review, and that entry keeps whichever side still has the file (the source's
/// version when the source has one, else the current side's).
pub proof fn lemma_merge_keeps_edits(
    base: Seq<(String, CommittedFile)>,
    cur: Seq<(String, CommittedFile)>,
    src: Seq<(String, CommittedFile)>,
    p: Seq<char>,
)
    requires
        content_at(cur, p) != content_at(base, p),
        content_at(src, p) != content_at(base, p),
        content_at(src, p) != content_at(cur, p),
    ensures
        merge_entry(base, cur, src, p) matches Some((st, c, _)) && st == seq!['C'] && Some(c) == (
        if content_at(src, p) is Some {
            content_at(src, p)
        } else {
            content_at(cur, p)
        }),
{
}

/// What path `p` holds once the merge commit's entry for it (if any) is applied on top of the
/// current side: nothing for a `D` entry, the entry's content for any other.
pub open spec fn merged_content(
    base: Seq<(String, CommittedFile)>,
    cur: Seq<(String, CommittedFile)>,
    src: Seq<(String, CommittedFile)>,
    p: Seq<char>,
) -> Option<Option<Seq<char>>> {
    match merge_entry(base, cur, src, p) {
        None => content_at(cur, p),
        Some((st, c, _)) => if st == seq!['D'] {
            None
        } else {
            Some(c)
        },
    }
}

/// A merge is the three-way result on every path: where only the source changed a path against
/// the base (an edit, an addition or a deletion), the merged tree holds the source's version, and
/// a source deletion of a path the current side left alone is recorded as a `D` entry; where the
/// source left a path alone, or both sides agree, the merged tree keeps the current side's. A
/// source edit of a path the current side left alone is recorded as `M` when the current side
/// holds the path and `A` when it does not.
pub proof fn lemma_merge_three_way(
    base: Seq<(String, CommittedFile)>,
    cur: Seq<(String, CommittedFile)>,
    src: Seq<(String, CommittedFile)>,
    p: Seq<char>,
)
    ensures
        content_at(cur, p) == content_at(base, p) ==> merged_content(base, cur, src, p) == content_at(src, p),
        content_at(src, p) == content_at(base, p) ==> merged_content(base, cur, src, p) == content_at(cur, p),
        content_at(src, p) == content_at(cur, p) ==> merged_content(base, cur, src, p) == content_at(cur, p),
        content_at(cur, p) == content_at(base, p) && content_at(base, p) is Some && table_get(src, p) is None
            ==> (merge_entry(base, cur, src, p) matches Some((st, c, _)) && st == seq!['D'] && c is None),
        merge_entry(base, cur, src, p) is Some ==> content_at(src, p) != content_at(base, p),
        content_at(cur, p) == content_at(base, p) && content_at(src, p) != content_at(base, p) && table_get(src, p) is Some
            ==> (merge_entry(base, cur, src, p) matches Some((st, _, _)) && (if table_get(cur, p) is Some {
            st == seq!['M']
        } else {
            st == seq!['A']
        })),
{
    assert(seq!['C'] != seq!['D']) by {
        assert(seq!['C'][0] != seq!['D'][0]);
    }
    assert(seq!['M'] != seq!['D']) by {
        assert(seq!['M'][0] != seq!['D'][0]);
    }
    assert(seq!['A'] != seq!['D']) by {
        assert(seq!['A'][0] != seq!['D'][0]);
    }
}

/// The content of an optional entry.
pub open spec fn entry_content(e: Option<&CommittedFile>) -> Option<Option<Seq<char>>> {
    match e {
        Some(f) => Some(f.content.deep_view()),
        None => None,
    }
}

/// Whether two optional entries record the same content.
fn same_content(a: Option<&CommittedFile>, b: Option<&CommittedFile>) -> (r: bool)
    ensures
        r == (entry_content(a) == entry_content(b)),
{
    match (a, b) {
        (None, None) => true,
        (Some(x), Some(y)) => match (&x.content, &y.content) {
            (None, None) => true,
            (Some(u), Some(v)) => str_eq(u.as_str(), v.as_str()),
            _ => false,
        },
        _ => false,
    }
}

/// The entry under `p` in `t`.
fn entry_at<'a>(t: &'a Tree, p: &str) -> (r: Option<&'a CommittedFile>)
    requires
        keys_sorted(t@),
    ensures
        match table_get(t@, p@) {
            Some(f) => r matches Some(e) && *e == f,
            None => r is None,
        },
{
    match table_find(t, p) {
        Some(i) => Some(&t[i].1),
        None => None,
    }
}

/// A merge entry for `path`.
fn merge_record(path: &String, status: &str, content: &Option<String>, is_kra: bool) -> (r: CommittedFile)
    ensures
        r.path == *path,
        r.status@ == status@,
        r.content.deep_view() == content.deep_view(),
        r.is_kra == is_kra,
        r.file_hash is None,
        r.original_size == 0,
{
    CommittedFile {
        path: path.clone(),
        status: String::from_str(status),
        content: match content {
            Some(c) => Some(c.clone()),
            None => None,
        },
        is_kra,
        file_hash: None,
        original_size: 0,
    }
}

/// Every path of `t` stored in `paths`.
fn add_keys(paths: &mut Vec<(String, ())>, t: &Tree)
    requires
        keys_sorted(old(paths)@),
        keys_sorted(t@),
    ensures
        keys_sorted(final(paths)@),
        forall|p: Seq<char>| #[trigger] table_get(final(paths)@, p) is Some <==> (table_get(
            old(paths)@,
            p,
        ) is Some || table_get(t@, p) is Some),
{
    let mut i: usize = 0;
    while i < t.len()
        invariant
            i <= t.len(),
            keys_sorted(paths@),
            forall|p: Seq<char>| #[trigger] table_get(paths@, p) is Some <==> (table_get(
                old(paths)@,
                p,
            ) is Some || exists|k: int| 0 <= k < i && (#[trigger] t@[k]).0@ == p),
        decreases t.len() - i,
    {
        let ghost before = paths@;
        let ghost key = t@[i as int].0;
        table_insert(paths, t[i].0.clone(), ());
        proof {
            assert forall|p: Seq<char>| #[trigger] table_get(paths@, p) is Some <==> (table_get(
                old(paths)@,
                p,
            ) is Some || exists|k: int| 0 <= k < i + 1 && (#[trigger] t@[k]).0@ == p) by {
                crate::assoc::lemma_table_get_put(before, key, (), p);
                if exists|k: int| 0 <= k < i + 1 && (#[trigger] t@[k]).0@ == p {
                    let k = choose|k: int| 0 <= k < i + 1 && (#[trigger] t@[k]).0@ == p;
                    if k < i {
                        assert(exists|k: int| 0 <= k < i && (#[trigger] t@[k]).0@ == p);
                    }
                }
            }
        }
        i = i + 1;
    }
    proof {
        assert forall|p: Seq<char>| (exists|k: int| 0 <= k < t@.len() && (#[trigger] t@[k]).0@ == p) <==> #[trigger] table_get(t@, p) is Some by {
            if exists|k: int| 0 <= k < t@.len() && (#[trigger] t@[k]).0@ == p {
                let k = choose|k: int| 0 <= k < t@.len() && (#[trigger] t@[k]).0@ == p;
                crate::assoc::lemma_table_get_at(t@, k);
            }
            if table_get(t@, p) is Some {
                crate::assoc::lemma_table_get_some(t@, p);
            }
        }
    }
}


/// The merge commit's entries: one per path where [`merge_entry`] gives one, in path order.
pub fn merge_files(base: &Tree, cur: &Tree, src: &Tree) -> (r: Vec<CommittedFile>)
    requires
        keys_sorted(base@),
        keys_sorted(cur@),
        keys_sorted(src@),
    ensures
        forall|a: int, b: int|
            0 <= a < b < r@.len() ==> text_less((#[trigger] r@[a]).path@, (#[trigger] r@[b]).path@),
        forall|a: int|
            0 <= a < r@.len() ==> merge_entry(base@, cur@, src@, (#[trigger] r@[a]).path@) == Some(
                (r@[a].status@, r@[a].content.deep_view(), r@[a].is_kra),
            ) && r@[a].file_hash is None && r@[a].original_size == 0,
        forall|p: Seq<char>|
            #[trigger] merge_entry(base@, cur@, src@, p) is Some ==> exists|a: int|
                0 <= a < r@.len() && (#[trigger] r@[a]).path@ == p,
{
    proof {
        reveal_strlit("C");
        reveal_strlit("M");
        reveal_strlit("A");
        reveal_strlit("D");
        assert("C"@ =~= seq!['C']);
        assert("M"@ =~= seq!['M']);
        assert("A"@ =~= seq!['A']);
        assert("D"@ =~= seq!['D']);
    }
    let mut paths: Vec<(String, ())> = Vec::new();
    add_keys(&mut paths, base);
    add_keys(&mut paths, cur);
    add_keys(&mut paths, src);
    let mut out: Vec<CommittedFile> = Vec::new();
    let mut i: usize = 0;
    let none: Option<String> = None;
    while i < paths.len()
        invariant
            i <= paths.len(),
            none is None,
            "C"@ == seq!['C'],
            "M"@ == seq!['M'],
            "A"@ == seq!['A'],
            "D"@ == seq!['D'],
            keys_sorted(base@),
            keys_sorted(cur@),
            keys_sorted(src@),
            keys_sorted(paths@),
            forall|a: int, b: int|
                0 <= a < b < out@.len() ==> text_less(
                    (#[trigger] out@[a]).path@,
                    (#[trigger] out@[b]).path@,
                ),
            forall|a: int|
                0 <= a < out@.len() ==> exists|k: int|
                    0 <= k < i && (#[trigger] out@[a]).path@ == (#[trigger] paths@[k]).0@,
            forall|a: int|
                0 <= a < out@.len() ==> merge_entry(base@, cur@, src@, (#[trigger] out@[a]).path@)
                    == Some((out@[a].status@, out@[a].content.deep_view(), out@[a].is_kra))
                    && out@[a].file_hash is None && out@[a].original_size == 0,
            forall|k: int|
                0 <= k < i && merge_entry(base@, cur@, src@, (#[trigger] paths@[k]).0@) is Some
                    ==> exists|a: int| 0 <= a < out@.len() && (#[trigger] out@[a]).path@ == paths@[k].0@,
        decreases paths.len() - i,
    {
        let p = &paths[i].0;
        let b = entry_at(base, p.as_str());
        let c = entry_at(cur, p.as_str());
        let s = entry_at(src, p.as_str());
        let ghost before = out@;
        if !(same_content(s, c) || same_content(s, b)) {
            let conflicted = !same_content(c, b);
            match s {
                Some(sf) => {
                    let st = if conflicted {
                        "C"
                    } else if c.is_some() {
                        "M"
                    } else {
                        "A"
                    };
                    out.push(merge_record(p, st, &sf.content, sf.is_kra));
                },
                None => match c {
                    Some(cf) => {
                        if conflicted {
                            out.push(merge_record(p, "C", &cf.content, cf.is_kra));
                        } else {
                            out.push(merge_record(p, "D", &none, cf.is_kra));
                        }
                    },
                    None => {},
                },
            }
        }
        proof {
            assert forall|a: int| 0 <= a < out@.len() implies exists|k: int|
                0 <= k < i + 1 && (#[trigger] out@[a]).path@ == (#[trigger] paths@[k]).0@ by {
                if a < before.len() {
                    assert(out@[a] == before[a]);
                    let k = choose|k: int| 0 <= k < i && (#[trigger] before[a]).path@ == (#[trigger] paths@[k]).0@;
                    assert(out@[a].path@ == paths@[k].0@);
                } else {
                    assert(out@[a].path@ == paths@[i as int].0@);
                }
            }
            assert forall|x: int, y: int| 0 <= x < y < out@.len() implies text_less(
                (#[trigger] out@[x]).path@,
                (#[trigger] out@[y]).path@,
            ) by {
                if y >= before.len() {
                    assert(out@[x] == before[x]);
                    let k = choose|k: int| 0 <= k < i && (#[trigger] before[x]).path@ == (#[trigger] paths@[k]).0@;
                    assert(text_less(paths@[k].0@, paths@[i as int].0@));
                } else {
                    assert(out@[x] == before[x] && out@[y] == before[y]);
                }
            }
            assert forall|a: int| 0 <= a < out@.len() implies merge_entry(base@, cur@, src@, (#[trigger] out@[a]).path@)
                    == Some((out@[a].status@, out@[a].content.deep_view(), out@[a].is_kra))
                    && out@[a].file_hash is None && out@[a].original_size == 0 by {
                if a < before.len() {
                    assert(out@[a] == before[a]);
                }
            }
            assert forall|k: int| 0 <= k < i + 1 && merge_entry(base@, cur@, src@, (#[trigger] paths@[k]).0@) is Some
                    implies exists|a: int| 0 <= a < out@.len() && (#[trigger] out@[a]).path@ == paths@[k].0@ by {
                if k < i {
                    let a = choose|a: int| 0 <= a < before.len() && (#[trigger] before[a]).path@ == paths@[k].0@;
                    assert(out@[a] == before[a]);
                } else {
                    assert(out@[before.len() as int].path@ == paths@[k].0@);
                }
            }
        }
        i = i + 1;
    }
    proof {
        assert forall|p: Seq<char>| #[trigger] merge_entry(base@, cur@, src@, p) is Some implies exists|a: int|
                0 <= a < out@.len() && (#[trigger] out@[a]).path@ == p by {
            assert(table_get(base@, p) is Some || table_get(cur@, p) is Some || table_get(src@, p) is Some);
            crate::assoc::lemma_table_get_some(paths@, p);
            let k = choose|k: int| 0 <= k < paths@.len() && (#[trigger] paths@[k]).0@ == p && paths@[k].1 == table_get(paths@, p)->0;
            assert(merge_entry(base@, cur@, src@, paths@[k].0@) is Some);
        }
    }
    out
}


/// The merge base: the last commit, in log order, reachable from both tips.
pub open spec fn merge_base(cs: Seq<Commit>, s: Seq<char>, c: Seq<char>, n: int) -> Option<int>
    decreases n,
{
    if n <= 0 {
        None
    } else if reachable(cs, s, cs[n - 1].id@) && reachable(cs, c, cs[n - 1].id@) {
        Some(n - 1)
    } else {
        merge_base(cs, s, c, n - 1)
    }
}

/// A tree, or the empty tree when there is none.
pub open spec fn tree_or_empty(t: Option<Seq<(String, CommittedFile)>>) -> Seq<(String, CommittedFile)> {
    match t {
        Some(x) => x,
        None => seq![],
    }
}

/// The tree of the merge base of tips `s` and `c`, empty when they share no commit.
pub open spec fn base_tree(cs: Seq<Commit>, s: Seq<char>, c: Seq<char>) -> Seq<(String, CommittedFile)> {
    match merge_base(cs, s, c, cs.len() as int) {
        Some(j) => tree_or_empty(tree_spec(cs, cs[j].id@)),
        None => seq![],
    }
}

/// The result of a merge: the new tip commit, and the trees the working files go from and to.
pub struct Merged {
    pub commit: Commit,
    pub current: Tree,
    pub target: Tree,
}

/// The tree a tip stands for, empty when its history cannot be followed.
fn tree_or_new(commits: &Vec<Commit>, id: &str) -> (t: Tree)
    ensures
        keys_sorted(t@),
        t@ == tree_or_empty(tree_spec(commits@, id@)),
{
    match tree_at_commit(commits, id) {
        Some(t) => t,
        None => Vec::new(),
    }
}

/// Index of the last commit carrying an id from both lists.
fn find_base(commits: &Vec<Commit>, a: &Vec<String>, b: &Vec<String>) -> (r: Option<usize>)
    ensures
        match r {
            Some(j) => j < commits.len() && text_set(a@).contains(commits@[j as int].id@) && text_set(b@).contains(commits@[j as int].id@)
                && forall|k: int| j < k < commits.len() ==> !(text_set(a@).contains(#[trigger] commits@[k].id@) && text_set(b@).contains(commits@[k].id@)),
            None => forall|k: int| 0 <= k < commits.len() ==> !(text_set(a@).contains(#[trigger] commits@[k].id@) && text_set(b@).contains(commits@[k].id@)),
        },
{
    let mut n: usize = commits.len();
    while n > 0
        invariant
            n <= commits.len(),
            forall|k: int| n <= k < commits.len() ==> !(text_set(a@).contains(#[trigger] commits@[k].id@) && text_set(b@).contains(commits@[k].id@)),
        decreases n,
    {
        let id = commits[n - 1].id.as_str();
        if contains_text(a, id) && contains_text(b, id) {
            return Some(n - 1);
        }
        n = n - 1;
    }
    None
}

proof fn lemma_merge_base(cs: Seq<Commit>, s: Seq<char>, c: Seq<char>, n: int, j: Option<int>)
    requires
        0 <= n <= cs.len(),
        match j {
            Some(j) => 0 <= j < n && reachable(cs, s, cs[j].id@) && reachable(cs, c, cs[j].id@)
                && forall|k: int| j < k < n ==> !(reachable(cs, s, #[trigger] cs[k].id@) && reachable(cs, c, cs[k].id@)),
            None => forall|k: int| 0 <= k < n ==> !(reachable(cs, s, #[trigger] cs[k].id@) && reachable(cs, c, cs[k].id@)),
        },
    ensures
        merge_base(cs, s, c, n) == j,
    decreases n,
{
    if n > 0 {
        if j != Some(n - 1) {
            assert(!(reachable(cs, s, cs[n - 1].id@) && reachable(cs, c, cs[n - 1].id@)));
            lemma_merge_base(cs, s, c, n - 1, j);
        }
    }
}


/// The facts a merge commit of `source` into the current branch satisfies, over its files.
pub open spec fn merge_files_spec(
    files: Seq<CommittedFile>,
    base: Seq<(String, CommittedFile)>,
    cur: Seq<(String, CommittedFile)>,
    src: Seq<(String, CommittedFile)>,
) -> bool {
    &&& forall|a: int, b: int|
        0 <= a < b < files.len() ==> text_less((#[trigger] files[a]).path@, (#[trigger] files[b]).path@)
    &&& forall|a: int|
        0 <= a < files.len() ==> merge_entry(base, cur, src, (#[trigger] files[a]).path@) == Some(
            (files[a].status@, files[a].content.deep_view(), files[a].is_kra),
        ) && files[a].file_hash is None && files[a].original_size == 0
    &&& forall|p: Seq<char>|
        #[trigger] merge_entry(base, cur, src, p) is Some ==> exists|a: int|
            0 <= a < files.len() && (#[trigger] files[a]).path@ == p
}

/// Merge branch `source` into the current branch. Fast-forwards when the current branch has
/// not moved since `source` split off; otherwise records a two-parent merge commit whose
/// entries are the three-way [`merge_entry`] of every path against the merge base, in path
/// order, so that its files are its diff against its first parent. Refused for the current
/// branch itself, an unknown or empty source, a dirty working tree (`clean` is the caller's
/// scan), or a source already part of the current branch.
#[verifier::rlimit(80)]
pub fn merge_branch(repo: &mut Repo, source: &str, author: &str, clean: bool) -> (r: Result<Merged, KvcError>)
    requires
        old(repo).wf(),
        ({
            let cs = old(repo).commits@;
            let ct = old(repo).branches.tip_of_spec(old(repo).branches.current@);
            match old(repo).branches.tip_of_spec(source@) {
                Some(t) => (source@ != old(repo).branches.current@ && clean && !(ct matches Some(c) && reachable(cs, c, t))
                    && (ct is None || reachable(cs, t, ct->0))) ==> first_index(cs, t) is Some,
                None => true,
            }
        }),
    ensures
        final(repo).wf(),
        ({
            let cs = old(repo).commits@;
            let cur_name = old(repo).branches.current@;
            let ct = old(repo).branches.tip_of_spec(cur_name);
            if source@ == cur_name {
                *final(repo) == *old(repo) && (r matches Err(KvcError::NothingToMerge(m)) && m@ == "a branch cannot be merged into itself"@)
            } else if old(repo).branches.tip_of_spec(source@) is None {
                *final(repo) == *old(repo) && (r matches Err(KvcError::NoBranch(m)) && m@ == source@)
            } else if !clean {
                *final(repo) == *old(repo) && r matches Err(KvcError::DirtyTree)
            } else {
                let st = old(repo).branches.tip_of_spec(source@)->0;
                if ct matches Some(c) && reachable(cs, c, st) {
                    *final(repo) == *old(repo) && (r matches Err(KvcError::NothingToMerge(m)) && m@ == source@ + " is already part of "@ + cur_name)
                } else {
                    &&& final(repo).root == old(repo).root
                    &&& final(repo).config == old(repo).config
                    &&& final(repo).index == old(repo).index
                    &&& final(repo).stashes == old(repo).stashes
                    &&& final(repo).commits_persisted == old(repo).commits_persisted
                    &&& final(repo).commits_rewrite == old(repo).commits_rewrite
                    &&& final(repo).config_dirty == old(repo).config_dirty
                    &&& final(repo).branches.current == old(repo).branches.current
                    &&& r matches Ok(m) && m.current@ == current_tree_spec(*old(repo)) && if ct is None || reachable(cs, st, ct->0) {
                        &&& final(repo).commits == old(repo).commits
                        &&& final(repo).branches.branch_map() == old(repo).branches.branch_map().insert(cur_name, st)
                        &&& same_commit(m.commit, cs[first_index(cs, st)->0])
                        &&& m.target@ == tree_or_empty(tree_spec(cs, st))
                    } else {
                        let c = ct->0;
                        let cur = current_tree_spec(*old(repo));
                        let src = tree_or_empty(tree_spec(cs, st));
                        let base = base_tree(cs, st, c);
                        let commit = m.commit;
                        &&& merge_files_spec(commit.files@, base, cur, src)
                        &&& commit.parents@.map_values(|p: String| p@) == seq![c, st]
                        &&& commit.message@ == "Merge "@ + source@ + " into "@ + cur_name
                        &&& commit.id@ == short_id(commit_seed(commit.timestamp@, commit.message@, commit.parents@, commit.files@))
                        &&& commit.hash == commit.id
                        &&& commit.author@ == author@
                        &&& commit.branch@ == cur_name
                        &&& commit.restored_from is None
                        &&& final(repo).commits@.len() == cs.len() + 1
                        &&& final(repo).commits@.take(cs.len() as int) == cs
                        &&& same_commit(final(repo).commits@.last(), commit)
                        &&& final(repo).branches.branch_map() == old(repo).branches.branch_map().insert(cur_name, commit.id@)
                        &&& m.target@ == apply_files(cur, commit.files@)
                        &&& (tree_spec(cs, c) is Some && fresh_id(cs, commit.id@)) ==> tree_spec(final(repo).commits@, commit.id@)
                            == Some(m.target@)
                    }
                }
            }
        }),
{
    if str_eq(source, repo.branches.current.as_str()) {
        return Err(KvcError::NothingToMerge(String::from_str("a branch cannot be merged into itself")));
    }
    let source_tip: String = match repo.branches.tip_of(source) {
        Some(t) => t.to_owned(),
        None => return Err(KvcError::NoBranch(source.to_owned())),
    };
    if !clean {
        return Err(KvcError::DirtyTree);
    }
    let current_tip: Option<String> = match repo.branches.tip() {
        Some(t) => Some(t.to_owned()),
        None => None,
    };
    assert(current_tip is None <==> old(repo).branches.tip_of_spec(old(repo).branches.current@) is None);
    assert(current_tip matches Some(t) ==> old(repo).branches.tip_of_spec(old(repo).branches.current@) == Some(t@));
    assert(old(repo).branches.tip_of_spec(source@) == Some(source_tip@));
    let current_ancestors: Vec<String> = match &current_tip {
        Some(t) => ancestors(&repo.commits, t.as_str()),
        None => Vec::new(),
    };
    if contains_text(&current_ancestors, source_tip.as_str()) {
        assert(text_set(current_ancestors@).contains(source_tip@));
        assert(current_tip is Some);
        let mut m = String::from_str(source);
        m.append(" is already part of ");
        m.append(repo.branches.current.as_str());
        return Err(KvcError::NothingToMerge(m));
    }
    proof {
        if current_tip is Some {
            let c = current_tip->0;
            assert(!text_set(current_ancestors@).contains(source_tip@));
            assert(!reachable(old(repo).commits@, c@, source_tip@));
        }
    }
    let cur_tree = current_tree(repo);
    let src_tree = tree_or_new(&repo.commits, source_tip.as_str());
    let src_ancestors = ancestors(&repo.commits, source_tip.as_str());
    let ff = match &current_tip {
        None => true,
        Some(t) => contains_text(&src_ancestors, t.as_str()),
    };
    proof {
        if current_tip is Some {
            let t = current_tip->0;
            if ff {
                assert(text_set(src_ancestors@).contains(t@));
            } else {
                if text_set(src_ancestors@).contains(t@) {
                    let i = choose|i: int| 0 <= i < src_ancestors@.len() && (#[trigger] src_ancestors@[i])@ == t@;
                }
            }
        }
    }
    if ff {
        let m = fast_forward(repo, source_tip, cur_tree, src_tree);
        assert(m.current@ == current_tree_spec(*old(repo)));
        return Ok(m);
    }
    let jb = find_base(&repo.commits, &src_ancestors, &current_ancestors);
    proof {
        let cs = old(repo).commits@;
        let c = current_tip->0;
        let jo: Option<int> = match jb {
            Some(j) => Some(j as int),
            None => None,
        };
        lemma_merge_base(cs, source_tip@, c@, cs.len() as int, jo);
    }
    let base = match jb {
        Some(j) => tree_or_new(&repo.commits, repo.commits[j].id.as_str()),
        None => Vec::new(),
    };
    assert(base@ == base_tree(old(repo).commits@, source_tip@, (current_tip->0)@));
    let ct = match current_tip {
        Some(t) => t,
        None => String::new(),
    };
    proof {
        assert(current_tip is Some);
        assert(ct@ == old(repo).branches.tip_of_spec(old(repo).branches.current@)->0);
        assert(!text_set(src_ancestors@).contains(ct@));
        assert(!reachable(old(repo).commits@, source_tip@, ct@));
    }
    let m = record_merge(repo, source, author, ct, source_tip, cur_tree, src_tree, base);
    Ok(m)
}

/// Fast-forward the current branch to `source_tip`.
fn fast_forward(repo: &mut Repo, source_tip: String, cur_tree: Tree, src_tree: Tree) -> (m: Merged)
    requires
        old(repo).wf(),
        first_index(old(repo).commits@, source_tip@) is Some,
    ensures
        final(repo).wf(),
        final(repo).root == old(repo).root,
        final(repo).config == old(repo).config,
        final(repo).index == old(repo).index,
        final(repo).stashes == old(repo).stashes,
        final(repo).commits_persisted == old(repo).commits_persisted,
        final(repo).commits_rewrite == old(repo).commits_rewrite,
        final(repo).config_dirty == old(repo).config_dirty,
        final(repo).branches.current == old(repo).branches.current,
        final(repo).commits == old(repo).commits,
        final(repo).branches.branch_map() == old(repo).branches.branch_map().insert(old(repo).branches.current@, source_tip@),
        same_commit(m.commit, old(repo).commits@[first_index(old(repo).commits@, source_tip@)->0]),
        m.current@ == cur_tree@,
        m.target@ == src_tree@,
{
    repo.branches.set_tip(source_tip.as_str());
    let commit = match find_first_commit(&repo.commits, source_tip.as_str()) {
        Some(i) => copy_commit(&repo.commits[i]),
        None => copy_commit(&repo.commits[0]),
    };
    Merged { commit, current: cur_tree, target: src_tree }
}

/// Record the two-parent merge commit of `source_tip` into the current branch at `ct`.
#[verifier::rlimit(30)]
fn record_merge(
    repo: &mut Repo,
    source: &str,
    author: &str,
    ct: String,
    source_tip: String,
    cur_tree: Tree,
    src_tree: Tree,
    base: Tree,
) -> (m: Merged)
    requires
        old(repo).wf(),
        keys_sorted(cur_tree@),
        keys_sorted(src_tree@),
        keys_sorted(base@),
    ensures
        final(repo).wf(),
        final(repo).root == old(repo).root,
        final(repo).config == old(repo).config,
        final(repo).index == old(repo).index,
        final(repo).stashes == old(repo).stashes,
        final(repo).commits_persisted == old(repo).commits_persisted,
        final(repo).commits_rewrite == old(repo).commits_rewrite,
        final(repo).config_dirty == old(repo).config_dirty,
        final(repo).branches.current == old(repo).branches.current,
        m.current@ == cur_tree@,
        ({
            let commit = m.commit;
            let cs = old(repo).commits@;
            &&& merge_files_spec(commit.files@, base@, cur_tree@, src_tree@)
            &&& commit.parents@.map_values(|p: String| p@) == seq![ct@, source_tip@]
            &&& commit.message@ == "Merge "@ + source@ + " into "@ + old(repo).branches.current@
            &&& commit.id@ == short_id(commit_seed(commit.timestamp@, commit.message@, commit.parents@, commit.files@))
            &&& commit.hash == commit.id
            &&& commit.author@ == author@
            &&& commit.branch@ == old(repo).branches.current@
            &&& commit.restored_from is None
            &&& final(repo).commits@.len() == cs.len() + 1
            &&& final(repo).commits@.take(cs.len() as int) == cs
            &&& same_commit(final(repo).commits@.last(), commit)
            &&& final(repo).branches.branch_map() == old(repo).branches.branch_map().insert(old(repo).branches.current@, commit.id@)
            &&& m.target@ == apply_files(cur_tree@, commit.files@)
            &&& (tree_spec(cs, ct@) == Some(cur_tree@) && fresh_id(cs, commit.id@)) ==> tree_spec(final(repo).commits@, commit.id@)
                == Some(m.target@)
        }),
{
    let files = merge_files(&base, &cur_tree, &src_tree);
    let timestamp = now_iso();
    let mut parents: Vec<String> = Vec::new();
    parents.push(ct);
    parents.push(source_tip);
    assert(parents@.map_values(|p: String| p@) =~= seq![ct@, source_tip@]);
    let mut message = String::from_str("Merge ");
    message.append(source);
    message.append(" into ");
    message.append(repo.branches.current.as_str());
    let id = commit_id(timestamp.as_str(), message.as_str(), &parents, &files);
    let mut target = copy_tree(&cur_tree);
    apply_changes(&mut target, &files);
    let commit = Commit {
        id: id.clone(),
        hash: id.clone(),
        message,
        author: author.to_owned(),
        timestamp,
        parents,
        branch: repo.branches.current.clone(),
        files,
        restored_from: None,
    };
    let ghost cs = repo.commits@;
    repo.commits.push(copy_commit(&commit));
    assert(repo.commits@.take(cs.len() as int) =~= cs);
    proof {
        let x = repo.commits@.last();
        assert(repo.commits@ =~= cs.push(x));
        if tree_spec(cs, ct@) == Some(cur_tree@) && fresh_id(cs, commit.id@) {
            assert(x.parents@[0]@ == ct@);
            lemma_tree_after_push(cs, x);
        }
    }
    repo.branches.set_tip(id.as_str());
    Merged { commit, current: cur_tree, target }
}

/// An exact copy of a tree.
pub fn copy_tree(t: &Tree) -> (r: Tree)
    ensures
        r@ == t@,
{
    let mut r: Tree = Vec::new();
    let mut i: usize = 0;
    while i < t.len()
        invariant
            i <= t.len(),
            r@ == t@.take(i as int),
        decreases t.len() - i,
    {
        r.push((t[i].0.clone(), crate::commit::copy_file(&t[i].1)));
        assert(t@.take(i + 1) =~= t@.take(i as int).push(t@[i as int]));
        i = i + 1;
    }
    assert(t@.take(t.len() as int) =~= t@);
    r
}


/// The working-tree change a branch switch asks for: from the current tree to the target's.
pub struct Switched {
    pub current: Tree,
    pub target: Tree,
}

/// Switch to branch `name`. Refused for an unknown branch or a dirty working tree (`clean` is
/// the caller's scan); switching to the current branch does nothing.
pub fn switch_branch(repo: &mut Repo, name: &str, clean: bool) -> (r: Result<Option<Switched>, KvcError>)
    requires
        old(repo).wf(),
    ensures
        final(repo).wf(),
        if !old(repo).branches.branch_map().contains_key(name@) {
            *final(repo) == *old(repo) && (r matches Err(KvcError::NoBranch(m)) && m@ == name@)
        } else if name@ == old(repo).branches.current@ {
            *final(repo) == *old(repo) && r matches Ok(None)
        } else if !clean {
            *final(repo) == *old(repo) && r matches Err(KvcError::DirtyTree)
        } else {
            &&& final(repo).branches.current@ == name@
            &&& final(repo).branches.branches == old(repo).branches.branches
            &&& final(repo).root == old(repo).root
            &&& final(repo).config == old(repo).config
            &&& final(repo).index == old(repo).index
            &&& final(repo).commits == old(repo).commits
            &&& final(repo).stashes == old(repo).stashes
            &&& final(repo).commits_persisted == old(repo).commits_persisted
            &&& final(repo).commits_rewrite == old(repo).commits_rewrite
            &&& final(repo).config_dirty == old(repo).config_dirty
            &&& r matches Ok(Some(sw)) && sw.current@ == current_tree_spec(*old(repo))
                && sw.target@ == match old(repo).branches.tip_of_spec(name@) {
                Some(t) => tree_or_empty(tree_spec(old(repo).commits@, t)),
                None => Seq::<(String, CommittedFile)>::empty(),
            }
        },
{
    if table_find(&repo.branches.branches, name).is_none() {
        return Err(KvcError::NoBranch(name.to_owned()));
    }
    if str_eq(name, repo.branches.current.as_str()) {
        return Ok(None);
    }
    if !clean {
        return Err(KvcError::DirtyTree);
    }
    let current = current_tree(repo);
    let target = match repo.branches.tip_of(name) {
        Some(t) => tree_or_new(&repo.commits, t),
        None => Vec::new(),
    };
    repo.branches.current = name.to_owned();
    Ok(Some(Switched { current, target }))
}

} // verus!
