use vstd::prelude::*;

verus! {

/// Failures reported by the indexes and the snapshot codec.
#[derive(Clone, Copy, Debug, PartialEq, Eq, Structural)]
pub enum IndexError {
    /// A vector's width differs from the width the index was created with.
    DimensionMismatch,
    /// The lock guarding a shared index was poisoned by a failed writer.
    LockFailure,
    /// A snapshot is malformed: bad parameters, or a vector buffer whose
    /// length does not match the label count.
    SerializationFormatError,
}

} // verus!
