//! The error kinds of the encoder and of the decoder.
use vstd::prelude::*;

verus! {

/// Why a value could not be written as lines.
#[derive(Debug, PartialEq, Eq)]
pub enum SerializeError {
    Message(String),
    /// The value has a shape the line format cannot hold.
    UnsupportedConstruct,
}

/// Why a document could not be read back.
#[derive(Debug, PartialEq, Eq)]
pub enum DeserializeError {
    Message(String),
    /// A scope or line that the requested shape needs is missing; the
    /// index of the line where it was looked for.
    Eof(usize),
    /// A scalar is not the integer that was asked for.
    ExpectedInteger,
    /// The line at this index (counted from zero) has no `=`.
    MalformedLine(usize),
    /// The lines at the cursor do not have the requested shape.
    ShapeMismatch(usize),
    /// The requested shape has no meaning in this format.
    UnsupportedConstruct,
}

impl SerializeError {
    pub fn custom(msg: String) -> (r: Self)
        ensures
            r == SerializeError::Message(msg),
    {
        SerializeError::Message(msg)
    }
}

impl DeserializeError {
    pub fn custom(msg: String) -> (r: Self)
        ensures
            r == DeserializeError::Message(msg),
    {
        DeserializeError::Message(msg)
    }
}

} // verus!
