//! The client's view of read failures.
use vstd::prelude::*;

verus! {

/// An error that can occur when deserializing a value.
#[derive(Copy, Clone, PartialEq, Eq, Debug, Structural)]
pub enum Error {
    /// The value is not of the expected type.
    InvalidType,
}

impl Error {
    /// The error's message.
    pub fn message(&self) -> (r: &'static str)
        ensures
            r@ == (match self {
                Error::InvalidType => "Invalid type"@,
            }),
    {
        match self {
            Error::InvalidType => "Invalid type",
        }
    }
}

} // verus!
