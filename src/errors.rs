use vstd::prelude::*;

verus! {

/// The ways an operation on sparse structures can fail.
#[derive(PartialEq, Eq, Structural, Debug, Clone, Copy)]
pub enum SprsError {
    /// Operand shapes do not fit the requested operation.
    DimensionMismatch,
    /// A stored index exceeds its declared dimension.
    OutOfBounds,
    /// A pointer array breaks the compressed-storage structure.
    BadStructure,
    /// A permutation is not a bijection on its domain.
    InvalidPermutation,
    /// An operation that needs sorted, duplicate-free lanes got other input.
    NotSorted,
}

} // verus!
