//! Errors shared by every matrix operation and pipeline stage.

use vstd::prelude::*;

verus! {

/// Why a matrix operation or a pipeline stage refused to produce a value.
#[derive(Clone, Copy, Debug, PartialEq, Eq, Structural)]
pub enum NnError {
    /// The operands' dimensions are incompatible for the requested
    /// operation; nothing is broadcast or reshaped silently.
    ShapeMismatch,
    /// A result entry, an inner dimension, or an intermediate sum left the
    /// representable fixed-point range.
    Overflow,
    /// `backward` was called although no `forward` call has stored the
    /// state it needs.
    NotForwarded,
}

} // verus!
