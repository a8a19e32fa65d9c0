//! Why a source could not be scanned or planned.

use vstd::prelude::*;

verus! {

/// Broad class of a [`SourceError`].
#[derive(Clone, Copy, Debug, PartialEq, Eq, Structural)]
pub enum ErrorKind {
    /// A parameter is unusable.
    InvalidInput,
    /// The bytes, or a record of them, are malformed.
    InvalidData,
    /// Something of none of the other classes.
    Other,
    // How reading a source fails, as the system tells it.
    NotFound,
    PermissionDenied,
    ConnectionRefused,
    ConnectionReset,
    ConnectionAborted,
    NotConnected,
    AddrInUse,
    AddrNotAvailable,
    BrokenPipe,
    AlreadyExists,
    WouldBlock,
    NotADirectory,
    IsADirectory,
    ReadOnlyFilesystem,
    StaleNetworkFileHandle,
    TimedOut,
    NotSeekable,
    FileTooLarge,
    ResourceBusy,
    Interrupted,
    Unsupported,
    UnexpectedEof,
    OutOfMemory,
}

/// A failed scan, plan or read.
#[derive(Clone, Debug, PartialEq, Eq)]
pub enum SourceError {
    /// A delimiter without bytes.
    EmptyDelimiter,
    /// Fixed-width records of zero bytes.
    ZeroRecordBytes,
    /// A length prefix of no byte, or of more than eight.
    PrefixWidth,
    /// A sparse index of every zeroth record.
    ZeroStride,
    /// The bytes end inside a length prefix.
    TruncatedPrefix,
    /// A length that counts its prefix is smaller than the prefix.
    PrefixTooSmall,
    /// A record length that does not fit in 64 bits.
    RecordLengthOverflow,
    /// A record that reaches past the end of the source.
    RecordExceedsFile,
    /// A scanner reported a boundary that is not ahead of it.
    BoundaryDidNotAdvance,
    /// The source is not the one it was when planning began.
    ChangedWhilePlanning,
    /// The source is not the one it was when indexing began.
    ChangedWhileIndexing,
    /// The source is not the one that the ranges were made for.
    IdentityMismatch,
    /// The source could not be read, for a reason of this class.
    Read { kind: ErrorKind, message: String },
}

impl SourceError {
    /// The class of the error.
    pub open spec fn class(&self) -> ErrorKind {
        match *self {
            SourceError::EmptyDelimiter => ErrorKind::InvalidInput,
            SourceError::ZeroRecordBytes => ErrorKind::InvalidInput,
            SourceError::PrefixWidth => ErrorKind::InvalidInput,
            SourceError::ZeroStride => ErrorKind::InvalidInput,
            SourceError::ChangedWhilePlanning => ErrorKind::Other,
            SourceError::ChangedWhileIndexing => ErrorKind::Other,
            SourceError::IdentityMismatch => ErrorKind::Other,
            SourceError::Read { kind, .. } => kind,
            _ => ErrorKind::InvalidData,
        }
    }

    /// The text of the error.
    pub open spec fn text(&self) -> Seq<char> {
        match *self {
            SourceError::EmptyDelimiter => "delimiter must not be empty"@,
            SourceError::ZeroRecordBytes => "record_bytes must be > 0"@,
            SourceError::PrefixWidth => "prefix_bytes must be in 1..=8"@,
            SourceError::ZeroStride => "stride must be > 0"@,
            SourceError::TruncatedPrefix => "truncated length prefix at end of file"@,
            SourceError::PrefixTooSmall => "length prefix is smaller than the prefix size"@,
            SourceError::RecordLengthOverflow => "record length overflow"@,
            SourceError::RecordExceedsFile => "length-prefixed record exceeds file size"@,
            SourceError::BoundaryDidNotAdvance => "framing boundary did not advance; index aborted"@,
            SourceError::ChangedWhilePlanning => "source file changed while planning; plan rejected"@,
            SourceError::ChangedWhileIndexing => "source file changed while indexing; index rejected"@,
            SourceError::IdentityMismatch => "source identity does not match the plan inputs; plan rejected"@,
            SourceError::Read { message, .. } => message@,
        }
    }

    /// The class of the error.
    pub fn kind(&self) -> (r: ErrorKind)
        ensures
            r == self.class(),
    {
        match self {
            SourceError::EmptyDelimiter => ErrorKind::InvalidInput,
            SourceError::ZeroRecordBytes => ErrorKind::InvalidInput,
            SourceError::PrefixWidth => ErrorKind::InvalidInput,
            SourceError::ZeroStride => ErrorKind::InvalidInput,
            SourceError::ChangedWhilePlanning => ErrorKind::Other,
            SourceError::ChangedWhileIndexing => ErrorKind::Other,
            SourceError::IdentityMismatch => ErrorKind::Other,
            SourceError::Read { kind, .. } => *kind,
            _ => ErrorKind::InvalidData,
        }
    }

    /// The text of the error.
    pub fn message(&self) -> (r: &str)
        ensures
            r@ == self.text(),
    {
        match self {
            SourceError::EmptyDelimiter => "delimiter must not be empty",
            SourceError::ZeroRecordBytes => "record_bytes must be > 0",
            SourceError::PrefixWidth => "prefix_bytes must be in 1..=8",
            SourceError::ZeroStride => "stride must be > 0",
            SourceError::TruncatedPrefix => "truncated length prefix at end of file",
            SourceError::PrefixTooSmall => "length prefix is smaller than the prefix size",
            SourceError::RecordLengthOverflow => "record length overflow",
            SourceError::RecordExceedsFile => "length-prefixed record exceeds file size",
            SourceError::BoundaryDidNotAdvance => "framing boundary did not advance; index aborted",
            SourceError::ChangedWhilePlanning => "source file changed while planning; plan rejected",
            SourceError::ChangedWhileIndexing => "source file changed while indexing; index rejected",
            SourceError::IdentityMismatch => "source identity does not match the plan inputs; plan rejected",
            SourceError::Read { message, .. } => message.as_str(),
        }
    }
}

} // verus!
