//! The errors that dealers and parties report.
use vstd::prelude::*;

verus! {

/// Why an operation of a dealer or a party was refused.
#[derive(Clone, Debug, PartialEq, Eq)]
pub enum Error {
    /// `CountMismatch(expected, what was expected, found, what was found)`.
    CountMismatch(usize, &'static str, usize, &'static str),
    /// `InvalidPararmeterSet(n, t, index)`: a party's parameters break the rules.
    InvalidPararmeterSet(usize, isize, usize),
    /// A dealer proof whose polynomial does not have `t + 1` coefficients.
    InvalidProof { z_len: usize, t: usize },
    /// A value that the operation reads has not been set yet; names the field.
    UninitializedValue(&'static str),
    /// The encoding at this position of a list is not a Ristretto point.
    InvalidPoint(usize),
    /// The encoding at (row, column) of a list of lists is not a Ristretto point.
    InvalidBatchedPoint(usize, usize),
}

} // verus!
