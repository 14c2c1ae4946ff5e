//! The error taxonomy of the library. Every failure is recoverable by
//! correcting the input; there is no fatal error class.

use vstd::prelude::*;

verus! {

/// Everything that can go wrong while building, indexing or expanding a
/// rule matrix.
#[derive(Clone, Copy, Debug, PartialEq, Eq, Structural)]
pub enum FractalError {
    /// A matrix was built (or decoded) from zero rows.
    InvalidMatrix,
    /// Expansion was attempted against a zero-dimension matrix.
    EmptyRuleMatrix,
    /// The projected leaf count (or an exactly computed coordinate)
    /// exceeds what the expander is willing to materialize.
    ExpansionTooLarge,
    /// A recursion depth outside the accepted range.
    InvalidDepth,
    /// A row index at or beyond the matrix dimension.
    IndexOutOfRange,
}

} // verus!
