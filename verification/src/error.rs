//! The error taxonomy. Every error ends the build it occurs in.
use vstd::prelude::*;

verus! {

/// What a reader found wrong with the document itself.
#[derive(Debug, PartialEq, Eq, Clone, Copy)]
pub enum ReaderFault {
    /// The tokens end where a key or the closing marker of the map is due.
    Truncated,
    /// A value is missing, or a bracket it opens is never closed.
    MalformedValue,
}

/// Why a build failed.
#[derive(Debug, PartialEq, Eq)]
pub enum FlattenError {
    /// The underlying document is malformed.
    Reader(ReaderFault),
    /// A declared outer field's key appeared a second time.
    DuplicateField(String),
    /// A required declared field never appeared.
    MissingField(String),
    /// A value could not be parsed as the declared type of the named field.
    TypeMismatch(String),
    /// Something other than a map or a struct was asked for, or the document
    /// is not a map.
    UnsupportedShape,
    /// A key's representation has no path on which it can be decoded twice.
    UnsupportedRepresentation,
}

impl FlattenError {
    /// What went wrong, in a few words, without the name of the field.
    pub fn summary(&self) -> (text: &'static str)
        ensures
            text@ == match self {
                FlattenError::Reader(ReaderFault::Truncated) => "document ends too early"@,
                FlattenError::Reader(ReaderFault::MalformedValue) => "malformed value"@,
                FlattenError::DuplicateField(_) => "duplicate field"@,
                FlattenError::MissingField(_) => "missing field"@,
                FlattenError::TypeMismatch(_) => "value of another type than the field declares"@,
                FlattenError::UnsupportedShape => "can only flatten structs and maps"@,
                FlattenError::UnsupportedRepresentation => "key representation not supported for flatten"@,
            },
    {
        match self {
            FlattenError::Reader(ReaderFault::Truncated) => "document ends too early",
            FlattenError::Reader(ReaderFault::MalformedValue) => "malformed value",
            FlattenError::DuplicateField(_) => "duplicate field",
            FlattenError::MissingField(_) => "missing field",
            FlattenError::TypeMismatch(_) => "value of another type than the field declares",
            FlattenError::UnsupportedShape => "can only flatten structs and maps",
            FlattenError::UnsupportedRepresentation => "key representation not supported for flatten",
        }
    }

    /// The field that the error names, if it names one.
    pub fn field(&self) -> (name: Option<&String>)
        ensures
            name == match self {
                FlattenError::DuplicateField(n) => Some(n),
                FlattenError::MissingField(n) => Some(n),
                FlattenError::TypeMismatch(n) => Some(n),
                _ => None,
            },
    {
        match self {
            FlattenError::DuplicateField(n) => Some(n),
            FlattenError::MissingField(n) => Some(n),
            FlattenError::TypeMismatch(n) => Some(n),
            _ => None,
        }
    }
}

} // verus!
