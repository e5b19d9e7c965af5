//! Cheap free-space precheck before a write-heavy operation. Deliberately a simple worst-case
//! estimate: `needed * 2` covers an atomic write's brief doubling (temp file written before the
//! old one is replaced).

use crate::error::KvcError;
use crate::repo::Repo;
use vstd::prelude::*;

verus! {

/// The doubled need, saturating at `u64::MAX`.
pub open spec fn doubled(needed: u64) -> u64 {
    if needed * 2 > u64::MAX { u64::MAX } else { (needed * 2) as u64 }
}

/// The comparison of a free-space reading against a need. An unknown reading (`None`) always
/// passes; otherwise the volume must hold at least twice the need.
pub fn evaluate(available: Option<u64>, needed_bytes: u64) -> (r: Result<(), KvcError>)
    ensures
        available is None ==> r is Ok,
        available matches Some(a) ==> (r is Ok <==> a >= doubled(needed_bytes)),
        available matches Some(a) ==> (r matches Err(e) ==> e == (KvcError::InsufficientDiskSpace {
            needed: doubled(needed_bytes),
            available: a,
        })),
{
    match available {
        None => Ok(()),
        Some(available) => {
            let needed: u64 = if needed_bytes > u64::MAX / 2 { u64::MAX } else { needed_bytes * 2 };
            if available < needed {
                Err(KvcError::InsufficientDiskSpace { needed, available })
            } else {
                Ok(())
            }
        },
    }
}

/// Free bytes available to this user on the volume holding `path`. Only Windows offers the
/// reading this check relies on; on every other platform it is unknown.
pub fn free_bytes(path: &str) -> (r: Option<u64>)
    ensures
        r is None,
{
    None
}

/// Refuse up front when the volume holding the repository does not look like it has room for
/// `needed_bytes`, doubled. An unknown free-space reading always passes.
pub fn check_available(repo: &Repo, needed_bytes: u64) -> (r: Result<(), KvcError>)
    ensures
        r is Ok,
{
    evaluate(free_bytes(repo.root.as_str()), needed_bytes)
}

} // verus!
