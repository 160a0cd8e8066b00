//! What can go wrong in the store.

use vstd::prelude::*;

verus! {

/// The ways an operation of the store fails.
#[derive(Clone, Copy, Debug, PartialEq, Eq, Structural)]
pub enum StoreError {
    /// The engine reported an I/O failure.
    Storage,
    /// Stored bytes do not decode to a document.
    Corruption,
    /// A field name or a value has a shape that the index cannot hold.
    Encoding,
    /// An argument of a command is malformed.
    Validation,
}

impl StoreError {
    /// A line of text for the error.
    pub fn message(&self) -> (s: &'static str)
        ensures
            s@ == match *self {
                StoreError::Storage => "storage error: the engine reported an I/O failure"@,
                StoreError::Corruption => "corruption error: stored bytes do not decode"@,
                StoreError::Encoding => "encoding error: unsupported value shape"@,
                StoreError::Validation => "validation error: malformed argument"@,
            },
    {
        match self {
            StoreError::Storage => "storage error: the engine reported an I/O failure",
            StoreError::Corruption => "corruption error: stored bytes do not decode",
            StoreError::Encoding => "encoding error: unsupported value shape",
            StoreError::Validation => "validation error: malformed argument",
        }
    }
}

} // verus!
