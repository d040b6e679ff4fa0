//! The failures that the library reports to its callers.
use vstd::prelude::*;

verus! {

/// Why an operation could not be carried out.
#[derive(Clone, Copy, Debug, PartialEq, Eq, Structural)]
pub enum Error {
    /// The input buffer is shorter than what was to be read from it.
    Eof,
    /// A trit string encodes a coefficient that is no balanced residue.
    BadEncoding,
    /// A public polynomial has a value without inverse.
    NotInvertible,
    /// The counter of key generation ran out before a key pair was found.
    GenExhausted,
    /// No message was found where one was expected.
    MessageNotFound,
    /// More than one message was found where one was expected.
    MoreThanOneMessage,
}

} // verus!
