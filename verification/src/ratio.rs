//! Exact probabilities as integer ratios.

use vstd::prelude::*;

verus! {

/// A probability as an exact ratio `num / den` of counts.
///
/// A trained model only ever produces ratios with `num <= den` when `den > 0`.
/// The degenerate ratio `0 / 0` stands for the undefined probability of an
/// empty model (a division by a zero total), so that querying such a model is
/// defined rather than a crash; a caller turning it into a float gets NaN.
#[derive(Clone, Copy, Debug, PartialEq, Eq, Structural)]
pub struct Ratio {
    /// The count of the queried event.
    pub num: usize,
    /// The total count it is measured against.
    pub den: usize,
}

} // verus!
