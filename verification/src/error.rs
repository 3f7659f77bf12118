//! Error taxonomy of the header parser.
//!
//! Individual malformed directives are never errors: the parser drops them.
//! Errors arise only when a caller constructs a component from invalid parts.

use vstd::prelude::*;

verus! {

/// Why a proposal component could not be constructed.
#[derive(Clone, Copy, Debug, PartialEq, Eq)]
pub enum ParseError {
    /// A quality weight outside the closed range `[0.000, 1.000]`.
    OutOfRangeQuality,
    /// An extension identifier that is not a valid non-wildcard token.
    InvalidEncoding,
    /// A header value that is not printable ASCII text.
    InvalidHeaderValue,
}

} // verus!
