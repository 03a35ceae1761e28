use vstd::prelude::*;

use rand::RngExt;

verus! {

/// Relies on rand::rng and rand::RngExt::random_range: the result is
/// drawn uniformly from `0..n`, which is nonempty since `n >= 1`, so
/// the call does not panic and the result is below `n`. Nothing more
/// can be promised of a random draw.
#[verifier::external_body]
pub(crate) fn random_below(n: usize) -> (r: usize)
    requires
        1 <= n,
    ensures
        r < n,
{
    rand::rng().random_range(0..n)
}

/// A uniformly random start cell for a grid of the given dimensions,
/// for callers that want the start position externally randomized
/// before the walker is constructed.
pub fn random_start(rows: usize, cols: usize) -> (p: (usize, usize))
    requires
        1 <= rows,
        1 <= cols,
    ensures
        p.0 < rows,
        p.1 < cols,
{
    (random_below(rows), random_below(cols))
}

} // verus!
