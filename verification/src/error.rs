use vstd::prelude::*;

verus! {

/// Failures reported by the fuse format routines.
#[derive(Clone, Copy, Debug, PartialEq, Eq, Structural)]
pub enum Error {
    /// The byte stream, or the order of writer calls, violates the format contract.
    FormatViolation,
    /// A compression codec was requested that this configuration does not provide.
    CodecUnavailable,
    /// The underlying compression codec failed, or its output had the wrong size.
    CodecFailure,
    /// Reconstructed buffers do not form a well-shaped array.
    ShapeMismatch,
}

} // verus!
