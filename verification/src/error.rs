//! What can go wrong while reading or writing an archive.

use vstd::prelude::*;

verus! {

/// The ways in which an archive operation fails.
#[derive(Clone, Copy, Debug, PartialEq, Eq, Structural)]
pub enum Error {
    /// The first six bytes are not `RGSSAD`.
    InvalidHeader,
    /// The format version is not 1, 2 or 3.
    UnsupportedVersion,
    /// The data cannot be right: a record that has begun is cut short, a
    /// payload is shorter than its entry says, or an offset leaves the
    /// 32-bit range.
    InvalidData,
    /// The stream ended before the requested bytes were read.
    UnexpectedEof,
    /// The stream cannot grow far enough to take the bytes written.
    StorageFull,
    /// The filter is no regular expression that can be compiled.
    InvalidFilter,
}

impl Error {
    /// A short text that says what went wrong.
    pub fn message(&self) -> (text: &'static str)
        ensures
            text@ == (match *self {
                Error::InvalidHeader => "Invalid header"@,
                Error::UnsupportedVersion => "Unsupported version"@,
                Error::InvalidData => "Invalid data"@,
                Error::UnexpectedEof => "Unexpected end of archive"@,
                Error::StorageFull => "No room left to write"@,
                Error::InvalidFilter => "Invalid regex filter"@,
            }),
    {
        match self {
            Error::InvalidHeader => "Invalid header",
            Error::UnsupportedVersion => "Unsupported version",
            Error::InvalidData => "Invalid data",
            Error::UnexpectedEof => "Unexpected end of archive",
            Error::StorageFull => "No room left to write",
            Error::InvalidFilter => "Invalid regex filter",
        }
    }
}

} // verus!
