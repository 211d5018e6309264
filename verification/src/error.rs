//! The ways in which building an identifier can fail.

use vstd::prelude::*;

verus! {

/// Why a text or a path vector has no identifier.
#[derive(Debug, Clone, Copy, PartialEq, Eq, Structural)]
pub enum PathError {
    /// A component of the text is not a non-negative decimal integer that
    /// fits in 64 bits.
    Parse,
    /// The matrix of the path does not fit in 64-bit entries.
    Overflow,
}

} // verus!
