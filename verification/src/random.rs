//! The library's single source of randomness.

use vstd::prelude::*;
use rand::RngExt;

verus! {

/// Relies on rand's `RngExt::random_range` over `lo..hi`: it returns a
/// uniform draw from the half-open range and panics only when the range is
/// empty, which the precondition rules out.  Nothing more is assumed of the
/// draw than its bounds.
#[verifier::external_body]
pub(crate) fn random_in_range(lo: i64, hi: i64) -> (r: i64)
    requires
        lo < hi,
    ensures
        lo <= r < hi,
{
    rand::rng().random_range(lo..hi)
}

} // verus!
