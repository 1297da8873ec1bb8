//! The ways in which a caller's input can be refused.

use vstd::prelude::*;

verus! {

/// A failure that the caller's input brought about.
#[derive(Debug, Clone, Copy, PartialEq, Eq, Structural)]
pub enum ScaleError {
    /// The note collection has fewer than two notes, so it cannot be rotated.
    InvalidScale,
    /// A distance was asked for between note collections of different lengths.
    LengthMismatch,
}

} // verus!
