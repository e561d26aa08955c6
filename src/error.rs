//! Errors reported by the archive layer.

use vstd::prelude::*;

verus! {

/// Why a listing, a merge or an extraction failed.
#[derive(Clone, Copy, Debug, PartialEq, Eq, Structural)]
pub enum ArchiveError {
    /// Two entries disagree on whether a path is a file or a directory.
    Conflict,
    /// The work was canceled through the monitor.
    Canceled,
    /// The trailer does not hold an end-of-central-directory record.
    InvalidEocd,
    /// The archive spans several disks.
    MultipleDisks,
    /// The central directory ends inside a record's fixed part.
    TruncatedRecord,
    /// A central-directory record has the wrong signature.
    InvalidRecordHeader,
    /// A record needs a newer version of the format than 2.0.
    UnsupportedRecord,
    /// A record has general-purpose flags set.
    UnsupportedFlag,
    /// A record is neither stored nor deflated.
    UnsupportedMethod,
    /// A record starts on another disk.
    InvalidRecordDisk,
    /// A record has internal attributes that are not understood.
    UnsupportedInternalAttributes,
    /// A record's external attributes mark neither a directory nor a file.
    UnknownFileType,
    /// The central directory ends inside a record's name, extra field or comment.
    TruncatedName,
    /// A record's name holds a byte outside ASCII.
    NonAsciiName,
    /// A record's name climbs out of the archive's root.
    ParentPath,
    /// A local file header has the wrong signature.
    InvalidFileHeader,
    /// A local file header uses a compression method that is not supported.
    UnsupportedFileMethod,
    /// A local file header's CRC differs from its central-directory record.
    CrcMismatch,
    /// The local file header or the payload ends before its declared size.
    TruncatedData,
    /// A deflated payload does not inflate to its declared size.
    InflateFailed,
    /// The archive's contents add up to more than 4 GiB.
    TooLarge,
    /// The layout of a source is not one of a mod package.
    UnknownLayout,
}

impl ArchiveError {
    /// A short description for people.
    pub fn message(&self) -> (r: &'static str) {
        match *self {
            ArchiveError::Conflict => "conflicting file and directory entries",
            ArchiveError::Canceled => "operation canceled",
            ArchiveError::InvalidEocd => "invalid zip EOCD",
            ArchiveError::MultipleDisks => "multiple zip disks not supported",
            ArchiveError::TruncatedRecord => "unexpected eof while parsing zip record",
            ArchiveError::InvalidRecordHeader => "invalid zip record header",
            ArchiveError::UnsupportedRecord => "zip record is unsupported",
            ArchiveError::UnsupportedFlag => "unsupported zip record flag",
            ArchiveError::UnsupportedMethod => "unsupported zip record compression method",
            ArchiveError::InvalidRecordDisk => "invalid zip record disk",
            ArchiveError::UnsupportedInternalAttributes => "unsupported zip record internal attributes",
            ArchiveError::UnknownFileType => "unknown file type in zip record",
            ArchiveError::TruncatedName => "unexpected eof while parsing zip record name",
            ArchiveError::NonAsciiName => "only ascii names are supported in zip record",
            ArchiveError::ParentPath => "zip record name leaves the archive root",
            ArchiveError::InvalidFileHeader => "invalid zip file header",
            ArchiveError::UnsupportedFileMethod => "unsupported zip file compression method",
            ArchiveError::CrcMismatch => "failed to verify zip file header",
            ArchiveError::TruncatedData => "unexpected eof while reading zip file data",
            ArchiveError::InflateFailed => "failed to inflate zip file data",
            ArchiveError::TooLarge => "zip output larger than supported",
            ArchiveError::UnknownLayout => "unknown layout from dragdrop archive",
        }
    }
}

} // verus!
