//! The one source of randomness the samplers draw from.

use vstd::prelude::*;

verus! {

/// Relies on rand::random_range: a uniform draw from the half-open range
/// `0..n`, so the result is always below the bound; the call panics only on
/// an empty range, which the precondition rules out.  Nothing more is assumed
/// of the value: callers must be correct for every draw.
#[verifier::external_body]
pub(crate) fn draw_below(n: usize) -> (r: usize)
    requires
        n > 0,
    ensures
        r < n,
{
    rand::random_range(0..n)
}

} // verus!
