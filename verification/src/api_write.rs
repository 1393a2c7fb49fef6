//! The client's view of write results: shape identifiers, and the error that a
//! failed write reports.
use crate::write_state::{write_result_of, WriteResult};
use vstd::prelude::*;

verus! {

/// An identifier for a shape defined in a context. A shape declares the ordered
/// keys of one or more shaped objects written in the same context.
#[derive(Copy, Clone, PartialEq, Eq, Debug, Structural)]
pub struct ShapeId(pub usize);

/// An error that can occur when writing a value.
#[derive(Copy, Clone, PartialEq, Eq, Debug, Structural)]
pub enum Error {
    /// An I/O error occurred.
    IoError,
    /// Expected a string value, corresponding to a key in an object, but got a different type.
    ExpectedKey,
    /// The object length was not honoured: more key-value pairs than announced, or
    /// an object finished before all of them were written.
    ObjectLengthError,
    /// The value was already written.
    ValueAlreadyWritten,
    /// The value is not an object, but was expected to be one.
    NotAnObject,
    /// The value was not finished when the output was finalized.
    ValueNotFinished,
    /// The array length was not honoured: more values than announced, or an array
    /// finished before all of them were written.
    ArrayLengthError,
    /// The value is not an array, but was expected to be one.
    NotAnArray,
    /// The value is not a shaped object, but was expected to be one.
    NotAShape,
    /// The number of values written for a shaped object does not match its shape's keys.
    ShapeLengthError,
    /// The shape ID does not refer to a shape defined in the current context.
    InvalidShapeId,
    /// The shape definition operation was invalid.
    ShapeDefinitionError,
    /// A result code that this version does not know.
    Unknown,
}

/// The error a write result stands for; `None` for success.
pub open spec fn error_of(r: WriteResult) -> Option<Error> {
    match r {
        WriteResult::Success => None,
        WriteResult::IoError => Some(Error::IoError),
        WriteResult::ExpectedKey => Some(Error::ExpectedKey),
        WriteResult::ObjectLengthError => Some(Error::ObjectLengthError),
        WriteResult::ValueAlreadyWritten => Some(Error::ValueAlreadyWritten),
        WriteResult::NotAnObject => Some(Error::NotAnObject),
        WriteResult::ValueNotFinished => Some(Error::ValueNotFinished),
        WriteResult::ArrayLengthError => Some(Error::ArrayLengthError),
        WriteResult::NotAnArray => Some(Error::NotAnArray),
        WriteResult::NotAShape => Some(Error::NotAShape),
        WriteResult::ShapeLengthError => Some(Error::ShapeLengthError),
        WriteResult::InvalidShapeId => Some(Error::InvalidShapeId),
        WriteResult::ShapeDefinitionError => Some(Error::ShapeDefinitionError),
    }
}

/// Turn a raw write result code into `Ok` or the error it stands for; codes this
/// version does not know are `Unknown`.
pub fn map_result(result: usize) -> (r: Result<(), Error>)
    ensures
        r == (match write_result_of(result) {
            None => Err(Error::Unknown),
            Some(wr) => match error_of(wr) {
                None => Ok(()),
                Some(e) => Err(e),
            },
        }),
{
    match WriteResult::from_repr(result) {
        Some(WriteResult::Success) => Ok(()),
        Some(WriteResult::IoError) => Err(Error::IoError),
        Some(WriteResult::ExpectedKey) => Err(Error::ExpectedKey),
        Some(WriteResult::ObjectLengthError) => Err(Error::ObjectLengthError),
        Some(WriteResult::ValueAlreadyWritten) => Err(Error::ValueAlreadyWritten),
        Some(WriteResult::NotAnObject) => Err(Error::NotAnObject),
        Some(WriteResult::ValueNotFinished) => Err(Error::ValueNotFinished),
        Some(WriteResult::ArrayLengthError) => Err(Error::ArrayLengthError),
        Some(WriteResult::NotAnArray) => Err(Error::NotAnArray),
        Some(WriteResult::NotAShape) => Err(Error::NotAShape),
        Some(WriteResult::ShapeLengthError) => Err(Error::ShapeLengthError),
        Some(WriteResult::InvalidShapeId) => Err(Error::InvalidShapeId),
        Some(WriteResult::ShapeDefinitionError) => Err(Error::ShapeDefinitionError),
        None => Err(Error::Unknown),
    }
}

impl Error {
    /// The error's message.
    pub fn message(&self) -> (r: &'static str)
        ensures
            r@ == (match self {
                Error::IoError => "I/O error"@,
                Error::ExpectedKey => "Expected a key"@,
                Error::ObjectLengthError => "Object length error"@,
                Error::ValueAlreadyWritten => "Value already written"@,
                Error::NotAnObject => "Not an object"@,
                Error::ValueNotFinished => "Value not finished"@,
                Error::ArrayLengthError => "Array length error"@,
                Error::NotAnArray => "Not an array"@,
                Error::NotAShape => "Not a shaped object"@,
                Error::ShapeLengthError => "Shaped object length error"@,
                Error::InvalidShapeId => "Invalid shape ID"@,
                Error::ShapeDefinitionError => "Shape definition error"@,
                Error::Unknown => "Unknown error"@,
            }),
    {
        match self {
            Error::IoError => "I/O error",
            Error::ExpectedKey => "Expected a key",
            Error::ObjectLengthError => "Object length error",
            Error::ValueAlreadyWritten => "Value already written",
            Error::NotAnObject => "Not an object",
            Error::ValueNotFinished => "Value not finished",
            Error::ArrayLengthError => "Array length error",
            Error::NotAnArray => "Not an array",
            Error::NotAShape => "Not a shaped object",
            Error::ShapeLengthError => "Shaped object length error",
            Error::InvalidShapeId => "Invalid shape ID",
            Error::ShapeDefinitionError => "Shape definition error",
            Error::Unknown => "Unknown error",
        }
    }
}

/// A result code maps to `Ok` exactly when it is the success code, and every
/// failure code to its own error.
pub proof fn lemma_map_result_distinguishes(a: WriteResult, b: WriteResult)
    ensures
        error_of(a) is None <==> a == WriteResult::Success,
        error_of(a) == error_of(b) ==> a == b,
        error_of(a) != Some(Error::Unknown),
{
}

} // verus!
