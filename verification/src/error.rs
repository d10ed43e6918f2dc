//! Error values shared by the whole crate.

use vstd::prelude::*;

verus! {

/// What went wrong.
#[derive(Clone, Copy, Debug, PartialEq, Eq, Structural)]
pub enum ErrorKind {
    /// A grid constructor was given data whose length does not match the
    /// requested dimensions.
    BadDimension,
    /// A coordinate produced during smoothing, mapping or classification
    /// cannot be represented exactly in the fixed-width rational type.
    BadCast,
    /// An internal bookkeeping rule was violated, or a batch call was made
    /// with too few thresholds.
    Unexpected,
}

/// A typed failure raised by the detecting call.
#[derive(Clone, Copy, Debug, PartialEq, Eq, Structural)]
pub struct Error {
    pub kind: ErrorKind,
}

impl Error {
    /// The kind of failure this error reports.
    pub fn kind(&self) -> (k: ErrorKind)
        ensures
            k == self.kind,
    {
        self.kind
    }
}

/// Builds an [`Error`] of the given kind.
pub fn new_error(kind: ErrorKind) -> (e: Error)
    ensures
        e.kind == kind,
{
    Error { kind }
}

} // verus!
