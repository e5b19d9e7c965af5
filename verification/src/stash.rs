//! Setting work aside: the shelf of stashes, oldest first. Storing a stash's content and
//! reverting or restoring the working files is the caller's; this module keeps the records.

use crate::commit::{file_lines, copy_files};
use crate::error::KvcError;
use crate::repo::{blake3_digest, now_iso, short_hash, CommittedFile, Repo, Stash};
use crate::scan::ScanChange;
use crate::text::{ascii_chars, dec_nat, ends_with, hex_ascii, lowercase, str_ends_with, str_eq, to_lowercase};
use vstd::prelude::*;
use vstd::string::StringExecFns;
use vstd::utf8::encode_utf8;

verus! {

/// Every stash on the shelf, oldest first, so the last is the latest.
pub fn list(repo: &Repo) -> (r: &[Stash])
    ensures
        r@ == repo.stashes.stashes@,
{
    repo.stashes.stashes.as_slice()
}

/// The text a stash id is hashed from: timestamp, label and shelf position on a line each,
/// then a line per file.
pub open spec fn stash_seed(
    timestamp: Seq<char>,
    label: Seq<char>,
    position: nat,
    files: Seq<CommittedFile>,
) -> Seq<char> {
    timestamp + seq!['\n'] + label + seq!['\n'] + ascii_chars(dec_nat(position)) + seq!['\n']
        + file_lines(files)
}

/// A stash's id: the first twelve hex digits of the BLAKE3 of its seed. The shelf position
/// keeps ids apart when timestamp and label repeat.
pub fn stash_id(timestamp: &str, label: &str, position: usize, files: &Vec<CommittedFile>) -> (r:
    String)
    ensures
        r@ == ascii_chars(hex_ascii(blake3_digest(encode_utf8(stash_seed(
            timestamp@,
            label@,
            position as nat,
            files@,
        ))))).take(12),
{
    proof {
        reveal_strlit("\n");
        assert("\n"@ =~= seq!['\n']);
    }
    let mut seed = String::new();
    seed.append(timestamp);
    seed.append("\n");
    seed.append(label);
    seed.append("\n");
    let pos = crate::commit::dec_string(position as u64);
    seed.append(pos.as_str());
    seed.append("\n");
    crate::commit::append_file_lines(&mut seed, files);
    assert(seed@ =~= stash_seed(timestamp@, label@, position as nat, files@));
    short_hash(seed.as_str().as_bytes(), 6)
}

/// Record a stash of the already stored change records `files` on the current branch.
/// Refused on a repository with no commits (nothing to revert to), or with nothing to set
/// aside.
pub fn create(repo: &mut Repo, label: &str, author: &str, files: Vec<CommittedFile>) -> (r: Result<
    Stash,
    KvcError,
>)
    requires
        old(repo).wf(),
    ensures
        final(repo).wf(),
        if old(repo).branches.tip_of_spec(old(repo).branches.current@) is None {
            *final(repo) == *old(repo) && (r matches Err(KvcError::NoCommit(m)) && m@.len() == 0)
        } else if files@.len() == 0 {
            *final(repo) == *old(repo) && r matches Err(KvcError::Nothing)
        } else {
            &&& r matches Ok(st) && st.label@ == label@ && st.author@ == author@ && st.branch
                == old(repo).branches.current && st.files@ == files@ && st.id@ == ascii_chars(
                hex_ascii(blake3_digest(encode_utf8(stash_seed(
                    st.timestamp@,
                    label@,
                    old(repo).stashes.stashes@.len(),
                    files@,
                ))))).take(12) && final(repo).stashes.stashes@.len() == old(
                repo,
            ).stashes.stashes@.len() + 1 && final(repo).stashes.stashes@.take(
                old(repo).stashes.stashes@.len() as int,
            ) == old(repo).stashes.stashes@ && same_stash(final(repo).stashes.stashes@.last(), st)
            &&& final(repo).root == old(repo).root
            &&& final(repo).config == old(repo).config
            &&& final(repo).index == old(repo).index
            &&& final(repo).commits == old(repo).commits
            &&& final(repo).branches == old(repo).branches
            &&& final(repo).commits_persisted == old(repo).commits_persisted
            &&& final(repo).commits_rewrite == old(repo).commits_rewrite
            &&& final(repo).config_dirty == old(repo).config_dirty
        },
{
    if repo.branches.tip().is_none() {
        return Err(KvcError::NoCommit(String::new()));
    }
    if files.len() == 0 {
        return Err(KvcError::Nothing);
    }
    let timestamp = now_iso();
    let id = stash_id(timestamp.as_str(), label, repo.stashes.stashes.len(), &files);
    let stash = Stash {
        id,
        label: label.to_owned(),
        author: author.to_owned(),
        timestamp,
        branch: repo.branches.current.clone(),
        files,
    };
    let ghost before = repo.stashes.stashes@;
    repo.stashes.stashes.push(copy_stash(&stash));
    assert(repo.stashes.stashes@.take(before.len() as int) =~= before);
    Ok(stash)
}

/// Two stash records hold the same values.
pub open spec fn same_stash(a: Stash, b: Stash) -> bool {
    &&& a.id == b.id
    &&& a.label == b.label
    &&& a.author == b.author
    &&& a.timestamp == b.timestamp
    &&& a.branch == b.branch
    &&& a.files@ == b.files@
}

/// An exact copy of a stash record.
pub fn copy_stash(s: &Stash) -> (r: Stash)
    ensures
        same_stash(r, *s),
{
    Stash {
        id: s.id.clone(),
        label: s.label.clone(),
        author: s.author.clone(),
        timestamp: s.timestamp.clone(),
        branch: s.branch.clone(),
        files: copy_files(&s.files),
    }
}

/// The position of the first stash carrying `id`.
pub open spec fn stash_index(ss: Seq<Stash>, id: Seq<char>) -> Option<int>
    decreases ss.len(),
{
    if ss.len() == 0 {
        None
    } else if ss[0].id@ == id {
        Some(0)
    } else {
        match stash_index(ss.skip(1), id) {
            Some(i) => Some(i + 1),
            None => None,
        }
    }
}

/// Position of the first stash carrying `id`.
pub(crate) fn find_stash(ss: &Vec<Stash>, id: &str) -> (r: Option<usize>)
    ensures
        match r {
            Some(i) => stash_index(ss@, id@) == Some(i as int) && i < ss.len(),
            None => stash_index(ss@, id@) is None,
        },
{
    let mut i: usize = 0;
    assert(ss@.skip(0) =~= ss@);
    while i < ss.len()
        invariant
            i <= ss.len(),
            stash_index(ss@, id@) == match stash_index(ss@.skip(i as int), id@) {
                Some(k) => Some(k + i),
                None => None,
            },
        decreases ss.len() - i,
    {
        assert(ss@.skip(i as int)[0] == ss@[i as int]);
        if str_eq(ss[i].id.as_str(), id) {
            return Some(i);
        }
        assert(ss@.skip(i as int).skip(1) =~= ss@.skip(i + 1));
        i = i + 1;
    }
    None
}

/// Take stash `id` off the shelf without restoring it.
pub fn drop_one(repo: &mut Repo, id: &str) -> (r: Result<(), KvcError>)
    ensures
        match stash_index(old(repo).stashes.stashes@, id@) {
            None => *final(repo) == *old(repo) && (r matches Err(KvcError::NoStash(m)) && m@
                == id@),
            Some(i) => {
                &&& r is Ok
                &&& final(repo).stashes.stashes@ == old(repo).stashes.stashes@.remove(i)
                &&& final(repo).root == old(repo).root
                &&& final(repo).config == old(repo).config
                &&& final(repo).index == old(repo).index
                &&& final(repo).commits == old(repo).commits
                &&& final(repo).branches == old(repo).branches
                &&& final(repo).commits_persisted == old(repo).commits_persisted
                &&& final(repo).commits_rewrite == old(repo).commits_rewrite
                &&& final(repo).config_dirty == old(repo).config_dirty
            },
        },
{
    match find_stash(&repo.stashes.stashes, id) {
        Some(i) => {
            let _ = repo.stashes.stashes.remove(i);
            Ok(())
        },
        None => Err(KvcError::NoStash(id.to_owned())),
    }
}

/// Empty the shelf; gives how many stashes were removed.
pub fn drop_all(repo: &mut Repo) -> (n: usize)
    ensures
        n == old(repo).stashes.stashes@.len(),
        final(repo).stashes.stashes@.len() == 0,
        final(repo).root == old(repo).root,
        final(repo).config == old(repo).config,
        final(repo).index == old(repo).index,
        final(repo).commits == old(repo).commits,
        final(repo).branches == old(repo).branches,
        final(repo).commits_persisted == old(repo).commits_persisted,
        final(repo).commits_rewrite == old(repo).commits_rewrite,
        final(repo).config_dirty == old(repo).config_dirty,
{
    let n = repo.stashes.stashes.len();
    repo.stashes.stashes.clear();
    n
}

/// Whether `path` names a Krita document: it ends in `.kra`, in any case.
pub open spec fn kra_path(path: Seq<char>) -> bool {
    ends_with(lowercase(path), ".kra"@)
}

/// Whether `path` names a Krita document (see [`kra_path`]).
pub fn is_kra_path(path: &str) -> (r: bool)
    ensures
        r == kra_path(path@),
{
    let lower = to_lowercase(path);
    str_ends_with(lower.as_str(), ".kra")
}

/// The record a scanned change is set aside as: a deletion as `D` with no content and size; an
/// untracked file as `A`, a modified one as `M`, each with the stored content hash `content`, its
/// scanned size, and the file hash the scan computed.
pub open spec fn stash_record_spec(c: ScanChange, content: Option<Seq<char>>, f: CommittedFile) -> bool {
    &&& f.path@ == c.rel@
    &&& f.is_kra == kra_path(c.rel@)
    &&& if c.status@ == seq!['D'] {
        f.status@ == seq!['D'] && f.content is None && f.file_hash is None && f.original_size == 0
    } else {
        &&& f.status@ == (if c.status@ == seq!['U'] { seq!['A'] } else { seq!['M'] })
        &&& (match f.content { Some(h) => Some(h@), None => None }) == content
        &&& (f.file_hash matches Some(h) && h@ == c.hash@)
        &&& f.original_size == c.size
    }
}

/// The record of one change set aside, its content stored under hash `content` (see
/// [`stash_record_spec`]).
pub fn stash_record(c: &ScanChange, content: Option<String>) -> (f: CommittedFile)
    ensures
        stash_record_spec(*c, match content { Some(h) => Some(h@), None => None }, f),
{
    proof {
        reveal_strlit("D");
        reveal_strlit("U");
        reveal_strlit("A");
        reveal_strlit("M");
    }
    let is_kra = is_kra_path(c.rel.as_str());
    if str_eq(c.status.as_str(), "D") {
        assert("D"@ =~= seq!['D']);
        CommittedFile { path: c.rel.clone(), status: String::from_str("D"), content: None, is_kra, file_hash: None, original_size: 0 }
    } else {
        assert("D"@ =~= seq!['D']);
        assert("U"@ =~= seq!['U']);
        assert("A"@ =~= seq!['A']);
        assert("M"@ =~= seq!['M']);
        let status = if str_eq(c.status.as_str(), "U") { String::from_str("A") } else { String::from_str("M") };
        CommittedFile { path: c.rel.clone(), status, content, is_kra, file_hash: Some(c.hash.clone()), original_size: c.size }
    }
}

} // verus!
