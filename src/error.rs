use vstd::prelude::*;

verus! {

/// Failures of field, matrix and encoder construction, and of encoding.
#[derive(Debug, Clone, Copy, PartialEq, Eq, Structural)]
pub enum Error {
    /// The field order `w` is outside `1..=8`.
    InvalidOrder,
    /// No element of the field generates all nonzero elements.
    NoGeneratorFound,
    /// A matrix of size zero was asked for.
    ZeroSizeMatrix,
    /// A matrix dimension does not fit in one byte.
    TooManyFragments,
    /// The field has too few nonzero elements for the requested matrix.
    FieldCapacityExceeded,
    /// Two matrices do not have the shapes the operation needs.
    DimensionMismatch,
    /// The data handed to the encoder has the wrong length.
    SizeMismatch,
}

} // verus!
