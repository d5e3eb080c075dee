//! Errors of the library.
use vstd::prelude::*;

verus! {

/// Why an operation of the library failed.
#[derive(Debug, Clone, Copy, PartialEq, Eq, Structural)]
pub enum Error {
    /// The operating system's random number source failed.
    Rng,
    /// A sharing scheme with these parameters has no subsets of `k - 1` parties.
    NoSubsets,
    /// No variable of this name exists.
    UnknownVariable,
    /// Two sharings do not hold the same number of parties.
    LengthMismatch,
    /// A sharing lacks a party or a subset share that the operation needs.
    MissingShare,
    /// A subset has no seeded generator.
    SubsetNotFound,
    /// `2(k - 1) >= n`: some cross term can be computed by no party.
    NoLocalCrossterm,
    /// `n - 2(k - 1) > 1`: no cross term is computable by one party alone.
    NoPrivateCrossterm,
    /// Multiplication needs `n - 2(k - 1) == 1`.
    UnsupportedParameters,
    /// A parallel-prefix tree was not built as it should have been.
    PrefixTree,
    /// Nothing to add up.
    Empty,
}

} // verus!
