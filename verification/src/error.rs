//! The error taxonomy: every failure an operation can detect is returned
//! as a value of `TodoError`; no operation of this library panics.

use vstd::prelude::*;

verus! {

/// How a persisted file failed to parse. Line numbers are 1-based positions
/// in the file, so the first record line is line 2.
#[derive(Debug, Clone, PartialEq, Eq)]
pub enum FormatErrorKind {
    /// The first line is not the fixed header; carries the offending
    /// header line, trimmed of surrounding whitespace.
    BadHeader(String),
    /// A record line does not split into exactly three fields.
    BadRow(usize),
    /// An id field is not a decimal number the id counter can exceed,
    /// or repeats the id of an earlier record.
    BadId(usize),
    /// A completed field is neither `true` nor `false`.
    BadFlag(usize),
}

/// Why the underlying storage failed; produced by the unverified shell
/// around this library, never by the library itself.
#[derive(Debug, Clone, Copy, PartialEq, Eq)]
pub enum IoErrorKind {
    /// The path does not exist: the one condition under which a caller
    /// should fall back to a fresh empty list.
    NotFound,
    /// Any other storage failure.
    Other,
}

#[derive(Debug, Clone, PartialEq, Eq)]
pub enum TodoError {
    /// Caller-supplied data violates the data model: a title that is
    /// empty or all whitespace.
    ValidationError,
    /// A character index reached past the end of a title.
    IndexOutOfRange,
    /// Persisted data is malformed.
    FormatError(FormatErrorKind),
    /// The underlying storage failed.
    IoError(IoErrorKind),
}

} // verus!
