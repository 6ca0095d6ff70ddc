use vstd::prelude::*;

verus! {

/// Why a scoring request was turned down.
#[derive(Clone, Copy, Debug, PartialEq, Eq, Structural)]
pub enum FeedbackError {
    /// The guess and a secret differ in length.
    LengthMismatch,
    /// The word length lies outside what a 16-bit code can hold.
    LengthUnsupported,
}

} // verus!
