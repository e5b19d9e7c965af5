//! Working-tree scanner: classify entry documents against the committed index as untracked
//! (`U`), modified (`M`) or deleted (`D`).
//!
//! The caller stats each entry path and reads the bytes of those [`must_read`] asks for; the
//! decisions are made here. A document whose size and mtime still match the index, and whose
//! mtime is older than the index file itself, is taken as unchanged without being read.

use crate::assoc::{table_find, table_get};
use crate::error::KvcError;
use crate::paths::{backslash_separates, safe_join_on, safe_rel};
use crate::repo::{blake3_digest, hash_bytes, Repo, TrackedFile};
use crate::text::{ascii_chars, ends_with, hex_ascii, lowercase, str_ends_with, to_lowercase};
use vstd::prelude::*;

verus! {

/// Ceiling on what a scan hands back through `keep_bytes` (512 MB): past it the commit path
/// re-reads the document instead of holding the buffer.
pub const RETAIN_BUDGET: u64 = 536870912;

/// One working-tree change with what the scan already computed for it, so the commit path can
/// reuse the hash, size and mtime.
pub struct ScanChange {
    pub rel: String,
    /// `U` untracked, `M` modified, `D` deleted.
    pub status: String,
    /// Hash of the file bytes as scanned (empty for deletions).
    pub hash: String,
    /// Size and mtime taken before the bytes were read.
    pub size: u64,
    pub mtime: u64,
    /// The bytes the scan read, when the caller asked to keep them and they fit the budget.
    pub bytes: Option<Vec<u8>>,
    /// Set when the content to commit was synthesized from a subset of the document rather than
    /// taken from disk; such a change records a zero size and mtime in the index.
    pub partial: bool,
}

/// What the caller found at one entry path.
pub struct Seen {
    pub rel: String,
    /// Size and mtime when the path is a regular file; `None` when it is absent or not a file.
    pub stat: Option<(u64, u64)>,
    /// The file's bytes, read when [`must_read`] asked for them.
    pub bytes: Option<Vec<u8>>,
}

/// The hash text of `b`: lower-case hex of its BLAKE3 digest.
pub open spec fn hash_text(b: Seq<u8>) -> Seq<char> {
    ascii_chars(hex_ascii(blake3_digest(b)))
}

/// Whether the size-and-mtime fast path may trust a file as unchanged: it matches the index,
/// is not the zero pair recorded for partial commits, and is strictly older than the index.
pub open spec fn trusted_clean(tf: TrackedFile, size: u64, mtime: u64, index_mtime: u64) -> bool {
    size == tf.size && mtime == tf.mtime && !(size == 0 && mtime == 0) && mtime < index_mtime
}

/// Whether a present file must be read and hashed.
pub fn must_read(entry: Option<&TrackedFile>, size: u64, mtime: u64, index_mtime: u64) -> (r: bool)
    ensures
        r == !(entry matches Some(tf) && trusted_clean(*tf, size, mtime, index_mtime)),
{
    match entry {
        Some(tf) => !(size == tf.size && mtime == tf.mtime && !(size == 0 && mtime == 0)
            && mtime < index_mtime),
        None => true,
    }
}

/// The status of a read file against its index entry: `U` when untracked, `M` when the hash
/// differs, none when it matches.
pub open spec fn read_status(entry: Option<TrackedFile>, hash: Seq<char>) -> Option<Seq<char>> {
    match entry {
        None => Some(seq!['U']),
        Some(tf) => if tf.hash@ != hash {
            Some(seq!['M'])
        } else {
            None
        },
    }
}

/// What a scan reports for one observed path (`None`: nothing to report). A missing file is a
/// deletion when it was committed; a trusted-clean file is skipped; a read file is classified by
/// its hash. A file the caller should have read but did not is reported as unreadable.
pub open spec fn classify_spec(
    entry: Option<TrackedFile>,
    stat: Option<(u64, u64)>,
    bytes: Option<Seq<u8>>,
    index_mtime: u64,
) -> Result<Option<Seq<char>>, ()> {
    match stat {
        None => Ok(if entry is Some { Some(seq!['D']) } else { None }),
        Some((size, mtime)) => if entry matches Some(tf) && trusted_clean(tf, size, mtime, index_mtime) {
            Ok(None)
        } else {
            match bytes {
                None => Err(()),
                Some(b) => Ok(read_status(entry, hash_text(b))),
            }
        },
    }
}

fn status_text(c: char) -> (s: String)
    requires
        c == 'U' || c == 'M' || c == 'D',
    ensures
        s@ == seq![c],
{
    proof {
        reveal_strlit("U");
        reveal_strlit("M");
        reveal_strlit("D");
    }
    if c == 'U' {
        String::from_str("U")
    } else if c == 'M' {
        String::from_str("M")
    } else {
        String::from_str("D")
    }
}

/// Whether a change holding `len` bytes keeps them for the commit path.
pub open spec fn retains(keep_bytes: bool, len: nat) -> bool {
    keep_bytes && len <= RETAIN_BUDGET
}

/// The bytes supplied for a path, as a sequence.
pub open spec fn bytes_view(b: Option<Vec<u8>>) -> Option<Seq<u8>> {
    match b {
        Some(v) => Some(v@),
        None => None,
    }
}

/// What a scan makes of one observation against the index `files`.
pub open spec fn status_at(files: Seq<(String, TrackedFile)>, s: Seen, index_mtime: u64) -> Result<
    Option<Seq<char>>,
    (),
> {
    classify_spec(table_get(files, s.rel@), s.stat, bytes_view(s.bytes), index_mtime)
}

/// A scan of `seen` succeeds when every path stays inside the repository (under the path rules
/// of a platform of the given kind) and every path that had to be read was.
pub open spec fn scan_ok(files: Seq<(String, TrackedFile)>, seen: Seq<Seen>, index_mtime: u64, windows: bool) -> bool {
    forall|i: int|
        0 <= i < seen.len() ==> safe_rel(#[trigger] seen[i].rel@, windows) && status_at(files, seen[i], index_mtime) is Ok
}

/// The positions in `seen` that report a change, in order.
pub open spec fn reported(files: Seq<(String, TrackedFile)>, seen: Seq<Seen>, index_mtime: u64) -> Seq<int>
    decreases seen.len(),
{
    if seen.len() == 0 {
        Seq::empty()
    } else {
        let r = reported(files, seen.drop_last(), index_mtime);
        if status_at(files, seen.last(), index_mtime) matches Ok(Some(_)) {
            r.push(seen.len() - 1)
        } else {
            r
        }
    }
}

/// Positions reported are in range and increasing.
pub proof fn lemma_reported_bounds(files: Seq<(String, TrackedFile)>, seen: Seq<Seen>, index_mtime: u64)
    ensures
        forall|k: int|
            0 <= k < reported(files, seen, index_mtime).len() ==> 0 <= #[trigger] reported(
                files,
                seen,
                index_mtime,
            )[k] < seen.len(),
        forall|k: int, l: int|
            0 <= k < l < reported(files, seen, index_mtime).len() ==> reported(files, seen, index_mtime)[k]
                < reported(files, seen, index_mtime)[l],
    decreases seen.len(),
{
    if seen.len() > 0 {
        let r = reported(files, seen.drop_last(), index_mtime);
        lemma_reported_bounds(files, seen.drop_last(), index_mtime);
        let t = reported(files, seen, index_mtime);
        assert forall|k: int| 0 <= k < t.len() implies 0 <= #[trigger] t[k] < seen.len() by {
            if k < r.len() {
                assert(t[k] == r[k]);
            }
        }
        assert forall|k: int, l: int| 0 <= k < l < t.len() implies t[k] < t[l] by {
            if l < r.len() {
                assert(t[k] == r[k] && t[l] == r[l]);
            } else {
                assert(t[k] == r[k]);
            }
        }
    }
}

/// One reported change agrees with the observation it came from.
pub open spec fn change_of(files: Seq<(String, TrackedFile)>, s: Seen, c: ScanChange, index_mtime: u64, keep_bytes: bool) -> bool {
    &&& c.rel@ == s.rel@
    &&& status_at(files, s, index_mtime) == Ok::<Option<Seq<char>>, ()>(Some(c.status@))
    &&& !c.partial
    &&& (s.stat is None ==> c.hash@.len() == 0 && c.size == 0 && c.mtime == 0 && c.bytes is None)
    &&& (s.stat matches Some(st) ==> {
        &&& c.size == st.0
        &&& c.mtime == st.1
        &&& c.hash@ == hash_text(s.bytes->0@)
        &&& (c.bytes is Some <==> retains(keep_bytes, s.bytes->0@.len()))
        &&& (c.bytes matches Some(b) ==> b@ == s.bytes->0@)
    })
}

/// Every change among the observed entry paths, in order. Each path must stay inside the
/// repository under this platform's path rules (else `BadPath`); a path whose bytes were needed but not supplied fails with
/// `Io`. Kept bytes ride along only when `keep_bytes` and within [`RETAIN_BUDGET`].
pub fn scan_detailed(repo: &Repo, seen: Vec<Seen>, index_mtime: u64, keep_bytes: bool) -> (r: Result<
    Vec<ScanChange>,
    KvcError,
>)
    requires
        repo.wf(),
    ensures
        exists|windows: bool| (r is Ok <==> scan_ok(repo.index.files@, seen@, index_mtime, windows)),
        r matches Ok(out) ==> {
            let rep = reported(repo.index.files@, seen@, index_mtime);
            &&& out@.len() == rep.len()
            &&& forall|k: int|
                0 <= k < rep.len() ==> change_of(
                    repo.index.files@,
                    seen@[rep[k]],
                    #[trigger] out@[k],
                    index_mtime,
                    keep_bytes,
                )
        },
{
    let ghost files = repo.index.files@;
    let windows = backslash_separates();
    let mut j: usize = 0;
    while j < seen.len()
        invariant
            repo.wf(),
            files == repo.index.files@,
            j <= seen@.len(),
            forall|k: int| 0 <= k < j ==> safe_rel(#[trigger] seen@[k].rel@, windows) && status_at(files, seen@[k], index_mtime) is Ok,
        decreases seen@.len() - j,
    {
        let s = &seen[j];
        match safe_join_on(repo.root.as_str(), s.rel.as_str(), windows) {
            Err(e) => {
                proof {
                    assert(!safe_rel(seen@[j as int].rel@, windows));
                    assert(!scan_ok(files, seen@, index_mtime, windows));
                }
                return Err(e);
            },
            Ok(_) => {},
        }
        let pos = table_find(&repo.index.files, s.rel.as_str());
        let entry: Option<&TrackedFile> = match pos {
            Some(p) => Some(&repo.index.files[p].1),
            None => None,
        };
        match s.stat {
            None => {},
            Some((size, mtime)) => {
                if must_read(entry, size, mtime, index_mtime) && s.bytes.is_none() {
                    proof {
                        assert(status_at(files, seen@[j as int], index_mtime) is Err);
                        assert(!scan_ok(files, seen@, index_mtime, windows));
                    }
                    return Err(KvcError::Io(String::from_str("a changed file was not read")));
                }
            },
        }
        j += 1;
    }
    let ghost seen0 = seen@;
    let mut out: Vec<ScanChange> = Vec::new();
    let mut seen = seen;
    let n = seen.len();
    let mut i: usize = 0;
    while i < n
        invariant
            repo.wf(),
            files == repo.index.files@,
            n == seen0.len(),
            i <= n,
            seen@.len() == n - i,
            forall|k: int| 0 <= k < seen@.len() ==> seen@[k] == seen0[i + k],
            scan_ok(files, seen0, index_mtime, windows),
            out@.len() == reported(files, seen0.take(i as int), index_mtime).len(),
            forall|k: int|
                0 <= k < out@.len() ==> change_of(
                    files,
                    seen0[reported(files, seen0.take(i as int), index_mtime)[k]],
                    #[trigger] out@[k],
                    index_mtime,
                    keep_bytes,
                ),
        decreases n - i,
    {
        let s = seen.remove(0);
        let ghost p = seen0.take(i as int);
        let ghost q = seen0.take(i + 1);
        proof {
            assert(s == seen0[i as int]);
            assert(q.drop_last() =~= p);
            assert(q.last() == s);
            lemma_reported_bounds(files, p, index_mtime);
            assert forall|k: int| 0 <= k < p.len() implies #[trigger] p[k] == seen0[k] by {}
        }
        let pos = table_find(&repo.index.files, s.rel.as_str());
        let entry: Option<&TrackedFile> = match pos {
            Some(p) => Some(&repo.index.files[p].1),
            None => None,
        };
        proof {
            assert(table_get(files, s.rel@) == match entry {
                Some(t) => Some(*t),
                None => None::<TrackedFile>,
            });
        }
        let ghost before = out@;
        let ghost st = status_at(files, s, index_mtime);
        match s.stat {
            None => {
                if entry.is_some() {
                    out.push(
                        ScanChange {
                            rel: s.rel,
                            status: status_text('D'),
                            hash: String::new(),
                            size: 0,
                            mtime: 0,
                            bytes: None,
                            partial: false,
                        },
                    );
                }
            },
            Some((size, mtime)) => {
                if must_read(entry, size, mtime, index_mtime) {
                    match s.bytes {
                        None => {
                            proof {
                                assert(seen0[i as int] == s);
                                assert(status_at(files, seen0[i as int], index_mtime) is Ok);
                            }
                        },
                        Some(bytes) => {
                            let hash = hash_bytes(bytes.as_slice());
                            let changed: Option<char> = match entry {
                                None => Some('U'),
                                Some(tf) => if crate::text::str_eq(tf.hash.as_str(), hash.as_str()) {
                                    None
                                } else {
                                    Some('M')
                                },
                            };
                            match changed {
                                None => {},
                                Some(c) => {
                                    let retain = keep_bytes && (bytes.len() as u64) <= RETAIN_BUDGET;
                                    let kept = if retain {
                                        Some(bytes)
                                    } else {
                                        None
                                    };
                                    out.push(
                                        ScanChange {
                                            rel: s.rel,
                                            status: status_text(c),
                                            hash,
                                            size,
                                            mtime,
                                            bytes: kept,
                                            partial: false,
                                        },
                                    );
                                },
                            }
                        },
                    }
                }
            },
        }
        proof {
            let rp = reported(files, p, index_mtime);
            let rq = reported(files, q, index_mtime);
            assert forall|k: int| 0 <= k < out@.len() implies change_of(
                files,
                seen0[rq[k]],
                #[trigger] out@[k],
                index_mtime,
                keep_bytes,
            ) by {
                if k < before.len() {
                    assert(out@[k] == before[k]);
                    assert(rq[k] == rp[k]);
                } else {
                    assert(rq[k] == i);
                }
            }
        }
        i += 1;
    }
    proof {
        assert(seen0.take(n as int) =~= seen0);
        assert(scan_ok(files, seen0, index_mtime, windows));
    }
    Ok(out)
}

/// `(path, status)` for every change among the observed entry paths, in order; fails as
/// [`scan_detailed`] does.
pub fn scan(repo: &Repo, seen: Vec<Seen>, index_mtime: u64) -> (r: Result<Vec<(String, String)>, KvcError>)
    requires
        repo.wf(),
    ensures
        exists|windows: bool| (r is Ok <==> scan_ok(repo.index.files@, seen@, index_mtime, windows)),
        r matches Ok(out) ==> {
            let rep = reported(repo.index.files@, seen@, index_mtime);
            &&& out@.len() == rep.len()
            &&& forall|k: int|
                0 <= k < rep.len() ==> (#[trigger] out@[k]).0@ == seen@[rep[k]].rel@ && status_at(
                    repo.index.files@,
                    seen@[rep[k]],
                    index_mtime,
                ) == Ok::<Option<Seq<char>>, ()>(Some(out@[k].1@))
        },
{
    let ghost seen0 = seen@;
    match scan_detailed(repo, seen, index_mtime, false) {
        Err(e) => Err(e),
        Ok(changes) => {
            let ghost ch = changes@;
            let mut out: Vec<(String, String)> = Vec::new();
            let mut changes = changes;
            let n = changes.len();
            let mut i: usize = 0;
            while i < n
                invariant
                    i <= n,
                    n == ch.len(),
                    changes@.len() == n - i,
                    forall|k: int| 0 <= k < changes@.len() ==> changes@[k] == ch[i + k],
                    out@.len() == i,
                    forall|k: int|
                        0 <= k < i ==> (#[trigger] out@[k]).0@ == ch[k].rel@ && out@[k].1@ == ch[k].status@,
                decreases n - i,
            {
                let c = changes.remove(0);
                proof {
                    assert(c == ch[i as int]);
                }
                out.push((c.rel, c.status));
                i += 1;
            }
            proof {
                let rep = reported(repo.index.files@, seen0, index_mtime);
                assert forall|k: int| 0 <= k < rep.len() implies (#[trigger] out@[k]).0@ == seen0[rep[k]].rel@
                    && status_at(repo.index.files@, seen0[rep[k]], index_mtime) == Ok::<
                    Option<Seq<char>>,
                    (),
                >(Some(out@[k].1@)) by {
                    assert(change_of(repo.index.files@, seen0[rep[k]], ch[k], index_mtime, false));
                }
            }
            Ok(out)
        },
    }
}

/// Whether `rel` names a entry kind of file: a Krita document (`.kra`, any case), but not
/// Krita's own autosave artifact (`-autosave.kra`).
pub fn is_supported(rel: &str) -> (r: bool)
    ensures
        r == (ends_with(lowercase(rel@), ".kra"@) && !ends_with(lowercase(rel@), "-autosave.kra"@)),
{
    let lower = to_lowercase(rel);
    if str_ends_with(lower.as_str(), "-autosave.kra") {
        return false;
    }
    str_ends_with(lower.as_str(), ".kra")
}

} // verus!
