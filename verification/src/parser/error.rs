//! The parser error.
use vstd::prelude::*;

verus! {

/// The error of parser handling, returned by [`Parser`](super::Parser).
#[derive(Debug)]
pub enum PError {
    /// If parser mismatched, just choose another one.
    Mismatch,
    /// The parser is the only one can be matched.
    Terminate {
        /// Name of sub-parser group.
        name: &'static str,
        /// Document position, indicated.
        msg: String,
    },
}

/// Type of the parser result.
pub type PResult<T> = Result<T, PError>;

} // verus!
