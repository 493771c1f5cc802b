//! Outcome codes of parsing, merging and lookup.

use vstd::prelude::*;
use vstd::std_specs::convert::FromSpecImpl;

verus! {

/// How parsing a document ended.
#[derive(Clone, Copy, Debug, PartialEq, Eq, Structural)]
pub enum ParseR3Error {
    /// Nothing went wrong.
    Normal,
    /// The path names no file.
    FileNotFound,
    /// The file exists and could not be read.
    FailedToRead,
    /// A key has no line terminator after it that its value could start at.
    KeyValueMismatch,
    /// Opening and closing markers do not pair up.
    BracketMismatch,
    /// The document, a key or a value is not valid UTF-8.
    InvalidUTF8Value,
    /// The path is not valid UTF-8.
    InvalidUTF8Path,
    /// No path was given.
    NullPathProvided,
    /// Two keys of one document have the same hash.
    DuplicateKeys,
}

/// How merging tables ended.
#[derive(Clone, Copy, Debug, PartialEq, Eq, Structural)]
pub enum MergeTableError {
    Normal,
    NullTablePointer,
    FileNotFound,
    FailedToRead,
    KeyValueMismatch,
    BracketMismatch,
    InvalidUTF8Value,
    InvalidUTF8Path,
    NullPathProvided,
    DuplicateKeys,
}

/// How a lookup ended.
#[derive(Clone, Copy, Debug, PartialEq, Eq, Structural)]
pub enum FindEntryError {
    Normal,
    NullTable,
    NullKeyPtr,
    NoEntryFound,
}

/// The merge outcome that stands for a parse outcome: the variant of the
/// same name.
pub open spec fn merge_error_of(err: ParseR3Error) -> MergeTableError {
    match err {
        ParseR3Error::Normal => MergeTableError::Normal,
        ParseR3Error::FileNotFound => MergeTableError::FileNotFound,
        ParseR3Error::FailedToRead => MergeTableError::FailedToRead,
        ParseR3Error::KeyValueMismatch => MergeTableError::KeyValueMismatch,
        ParseR3Error::BracketMismatch => MergeTableError::BracketMismatch,
        ParseR3Error::InvalidUTF8Value => MergeTableError::InvalidUTF8Value,
        ParseR3Error::InvalidUTF8Path => MergeTableError::InvalidUTF8Path,
        ParseR3Error::NullPathProvided => MergeTableError::NullPathProvided,
        ParseR3Error::DuplicateKeys => MergeTableError::DuplicateKeys,
    }
}

impl From<ParseR3Error> for MergeTableError {
    fn from(err: ParseR3Error) -> (merged: MergeTableError) {
        match err {
            ParseR3Error::Normal => MergeTableError::Normal,
            ParseR3Error::FileNotFound => MergeTableError::FileNotFound,
            ParseR3Error::FailedToRead => MergeTableError::FailedToRead,
            ParseR3Error::KeyValueMismatch => MergeTableError::KeyValueMismatch,
            ParseR3Error::BracketMismatch => MergeTableError::BracketMismatch,
            ParseR3Error::InvalidUTF8Value => MergeTableError::InvalidUTF8Value,
            ParseR3Error::InvalidUTF8Path => MergeTableError::InvalidUTF8Path,
            ParseR3Error::NullPathProvided => MergeTableError::NullPathProvided,
            ParseR3Error::DuplicateKeys => MergeTableError::DuplicateKeys,
        }
    }
}

impl FromSpecImpl<ParseR3Error> for MergeTableError {
    open spec fn obeys_from_spec() -> bool {
        true
    }

    open spec fn from_spec(err: ParseR3Error) -> MergeTableError {
        merge_error_of(err)
    }
}

} // verus!
