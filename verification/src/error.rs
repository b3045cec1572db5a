use vstd::prelude::*;

verus! {

/// Error taxonomy of the tree engine.
///
/// `IoError` wraps any read/write/seek failure of the underlying medium,
/// `InvalidData` a malformed or self-inconsistent header (or a leaf-count
/// mismatch at finalize), `InvalidParam` an out-of-range index, unknown
/// algorithm name or an append past the declared leaf count, and
/// `InvalidState` an operation in a state that does not allow it.
#[derive(Clone, Copy, Debug, PartialEq, Eq, Structural)]
pub enum NdnError {
    IoError,
    InvalidData,
    InvalidParam,
    InvalidState,
}

pub type NdnResult<T> = Result<T, NdnError>;

} // verus!
