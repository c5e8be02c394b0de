//! Why a conversion failed.

use vstd::prelude::*;

verus! {

/// The kinds of failure of a conversion.
#[derive(Clone, Copy, Debug, PartialEq, Eq, Structural)]
pub enum ErrorKind {
    /// The payload's quoting is malformed.
    Tokenize,
    /// The payload holds no token.
    EmptyInput,
    /// A token has none of the four literal forms.
    UnrecognizedToken,
    /// A decimal token's value exceeds the unsigned 64-bit range.
    NumericOverflow,
}

/// A failed conversion: its kind, and the offending token where there is one
/// (empty otherwise).
#[derive(Debug)]
pub struct ConvertError {
    pub kind: ErrorKind,
    pub token: String,
}

} // verus!
