//! Typed error boundaries for the engine. Every fallible engine call returns
//! `Result<_, KvcError>`. Paths are carried as their display strings.

use crate::commit::dec_string;
use crate::text::{ascii_chars, dec_nat};
use vstd::prelude::*;

verus! {

/// Every way an engine operation can fail.
#[derive(Debug)]
pub enum KvcError {
    NotARepo(String),
    AlreadyRepo(String),
    Unsupported(String),
    StoreUnreachable(String),
    CorruptZip(String),
    BadTiles(String),
    MissingObject(String),
    BadIndex(String),
    Corrupt(String),
    PermissionDenied(String),
    NotTracked(String),
    Nothing,
    NoCommit(String),
    DirtyTree,
    StashConflict(String),
    NoStash(String),
    MergeFailed(String),
    StageFailed(String),
    NoBranch(String),
    BranchExists(String),
    BadBranchName(String),
    NothingToMerge(String),
    DeleteCurrent,
    DeleteMain,
    CannotUndo(String),
    BadPath(String),
    Locked(String),
    InsufficientDiskSpace { needed: u64, available: u64 },
    Io(String),
}

/// The error for a failed file operation at `path`: a refused permission becomes
/// `PermissionDenied` naming the path; anything else stays an I/O failure with its description.
pub fn io_at(path: &str, permission_denied: bool, detail: String) -> (e: KvcError)
    ensures
        permission_denied ==> (e matches KvcError::PermissionDenied(p) && p@ == path@),
        !permission_denied ==> e == KvcError::Io(detail),
{
    if permission_denied {
        KvcError::PermissionDenied(String::from_str(path))
    } else {
        KvcError::Io(detail)
    }
}

/// How long a lock has been held, coarsely: seconds under a minute, minutes under an hour,
/// hours beyond.
pub open spec fn age_spec(secs: u64) -> Seq<char> {
    if secs < 60 {
        ascii_chars(dec_nat(secs as nat)) + "s"@
    } else if secs < 3600 {
        ascii_chars(dec_nat((secs / 60) as nat)) + "m"@
    } else {
        ascii_chars(dec_nat((secs / 3600) as nat)) + "h"@
    }
}

/// `secs` as `Ns`, `Nm` or `Nh`.
pub fn format_age(secs: u64) -> (s: String)
    ensures
        s@ == age_spec(secs),
{
    proof {
        reveal_strlit("s");
        reveal_strlit("m");
        reveal_strlit("h");
    }
    if secs < 60 {
        let mut s = dec_string(secs);
        s.append("s");
        s
    } else if secs < 3600 {
        let mut s = dec_string(secs / 60);
        s.append("m");
        s
    } else {
        let mut s = dec_string(secs / 3600);
        s.append("h");
        s
    }
}

/// What a refused lock says about its holder: `<repo> — <op> for <age>`, with `writing` when
/// the holder left no label and no age when its start is unknown.
pub open spec fn holder_spec(name: Seq<char>, op: Option<Seq<char>>, age_secs: Option<u64>) -> Seq<char> {
    let what = match op {
        Some(o) => if o.len() > 0 { o } else { "writing"@ },
        None => "writing"@,
    };
    match age_secs {
        Some(a) => name + " \u{2014} "@ + what + " for "@ + age_spec(a),
        None => name + " \u{2014} "@ + what,
    }
}

/// The detail of a `Locked` refusal for the repository called `name`, from the label the holder
/// wrote and how long ago it wrote it (see [`holder_spec`]).
pub fn lock_holder_description(name: &str, op: Option<&str>, age_secs: Option<u64>) -> (s: String)
    ensures
        s@ == holder_spec(
            name@,
            match op {
                Some(o) => Some(o@),
                None => None,
            },
            age_secs,
        ),
{
    proof {
        reveal_strlit("writing");
        reveal_strlit(" \u{2014} ");
        reveal_strlit(" for ");
    }
    let what: &str = match op {
        Some(o) => if o.is_empty() {
            "writing"
        } else {
            o
        },
        None => "writing",
    };
    let mut s = name.to_owned();
    s.append(" \u{2014} ");
    s.append(what);
    match age_secs {
        Some(a) => {
            s.append(" for ");
            let age = format_age(a);
            s.append(age.as_str());
        },
        None => {},
    }
    s
}

} // verus!
