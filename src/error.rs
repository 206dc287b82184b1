//! Error kinds of the library.

use vstd::prelude::*;

verus! {

/// The errors that the library reports, each with a message.
#[derive(Debug, Clone, PartialEq, Eq)]
pub enum Error {
    /// A child task failed or was cancelled.
    ConcurrencyError(String),
    /// Memory could not be had.
    MemoryError(String),
    /// Reading or writing failed.
    IOError(String),
    /// A digest spec, a size literal or a part schedule is malformed, or a
    /// part count is used without the object's size.
    ParseError(String),
    /// A length does not fit the integer type that holds it.
    OverflowError(String),
    /// A manifest could not be encoded or decoded.
    SerdeError(String),
    /// Manifests of different sizes, a verification mismatch, or a refused
    /// overwrite.
    SumsFileError(String),
    /// A generate task was configured inconsistently.
    GenerateBuilderError(String),
}

/// A parse error with a message.
pub fn parse_error(msg: &str) -> (r: Error)
    ensures
        r is ParseError,
{
    Error::ParseError(String::from_str(msg))
}

} // verus!
