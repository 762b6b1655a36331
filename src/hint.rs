//! Hints about how likely a condition is, for branches the caller expects to
//! go one way.
use vstd::prelude::*;

verus! {

/// `condition`, which is expected to hold.
#[inline(always)]
pub fn likely(condition: bool) -> (r: bool)
    ensures
        r == condition,
{
    condition
}

/// `condition`, which is expected not to hold.
#[inline(always)]
pub fn unlikely(condition: bool) -> (r: bool)
    ensures
        r == condition,
{
    condition
}

} // verus!
