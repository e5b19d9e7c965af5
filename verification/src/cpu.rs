//! CPU budget for heavy engine work: how many worker threads a percentage of the machine's
//! cores buys, and when the worker pool has to be rebuilt. Building and running the pool is the
//! host's; this module keeps the budget rules.

use vstd::prelude::*;

verus! {

/// The budget a pool is built with when nobody set one.
pub const DEFAULT_BUDGET: u8 = 75;

/// Worker threads for `percent` of `cores`: the rounded-down share, never zero.
pub open spec fn threads_spec(cores: nat, percent: nat) -> nat {
    let t = cores * percent / 100;
    if t == 0 { 1 } else { t }
}

/// Worker threads for `percent` of `cores`.
pub fn threads_for(cores: usize, percent: u8) -> (r: usize)
    requires
        cores * 255 <= usize::MAX,
    ensures
        r == threads_spec(cores as nat, percent as nat),
        r >= 1,
{
    proof {
        assert(cores * percent <= cores * 255) by (nonlinear_arith)
            requires
                percent <= 255,
        ;
    }
    let t = cores * (percent as usize) / 100;
    if t == 0 { 1 } else { t }
}

/// A requested budget, clamped to 10..=100 percent.
pub open spec fn clamped(percent: u8) -> u8 {
    if percent < 10 { 10 } else if percent > 100 { 100 } else { percent }
}

/// The budget the live worker pool was built with, if one has been built.
pub struct PoolSlot {
    pub percent: Option<u8>,
}

impl PoolSlot {
    /// No pool built yet.
    pub fn new() -> (s: PoolSlot)
        ensures
            s.percent is None,
    {
        PoolSlot { percent: None }
    }
}

/// Set the budget. The request is clamped; asking for the budget the pool already has changes
/// nothing (rebuilding an identical pool would only churn threads). Returns the budget of a pool
/// the caller must now build, if any.
pub fn set_budget(slot: &mut PoolSlot, percent: u8) -> (rebuild: Option<u8>)
    ensures
        old(slot).percent == Some(clamped(percent)) ==> rebuild is None && final(slot).percent == old(
            slot,
        ).percent,
        old(slot).percent != Some(clamped(percent)) ==> rebuild == Some(clamped(percent))
            && final(slot).percent == Some(clamped(percent)),
{
    let p: u8 = if percent < 10 { 10 } else if percent > 100 { 100 } else { percent };
    match slot.percent {
        Some(q) => if q == p {
            return None;
        },
        None => {},
    }
    slot.percent = Some(p);
    Some(p)
}

/// Before running work: the budget of a pool the caller must build first, when none exists yet
/// (the default budget); `None` when the live pool is to be used.
pub fn pool_to_build(slot: &mut PoolSlot) -> (build: Option<u8>)
    ensures
        old(slot).percent is Some ==> build is None && final(slot).percent == old(slot).percent,
        old(slot).percent is None ==> build == Some(DEFAULT_BUDGET) && final(slot).percent == Some(
            DEFAULT_BUDGET,
        ),
{
    match slot.percent {
        Some(_) => None,
        None => {
            slot.percent = Some(DEFAULT_BUDGET);
            Some(DEFAULT_BUDGET)
        },
    }
}

/// Lower the whole process's scheduling priority. Only Windows has a priority class to lower;
/// on every other platform this does nothing.
pub fn lower_process_priority() {
}

} // verus!
