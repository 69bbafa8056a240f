//! Server-side errors and their descriptions.

use vstd::prelude::*;

verus! {

/// `CapellaResult` is the result type used by the parser.
pub type CapellaResult<T> = Result<T, Error>;

/// `Error` is used for server side errors that may occur.
///
/// Every way a datagram can be rejected (bad text, a grammar mismatch, a
/// numeric literal out of range, an unknown type token) maps to the single
/// `Parse` variant: callers only need a good/bad signal.
#[derive(Clone, Copy, Debug, PartialEq, Eq, Structural)]
pub enum Error {
    Parse,
}

impl Error {
    /// A human-readable description of the error.
    pub fn description(&self) -> (r: &'static str)
        ensures
            r@ == "Error parsing metric"@,
    {
        "Error parsing metric"
    }
}

} // verus!
