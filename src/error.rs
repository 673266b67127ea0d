use vstd::prelude::*;

verus! {

/// Failures of the repository core.
#[derive(Clone, Copy, Debug, PartialEq, Eq, Structural)]
pub enum Error {
    /// The repository metadata directory is missing.
    NotARepository,
    /// The index file's trailing checksum does not match its contents.
    ChecksumMismatch,
    /// A loose object carries a type tag other than blob, tree or commit.
    UnknownObjectType,
    /// HEAD resolves to an object that is not a commit.
    InvalidCommit,
    /// A path given to `add` does not exist.
    PathSpecNoMatch,
    /// The index file is shorter than its header and checksum.
    IndexTruncated,
    /// The index file does not start with its signature.
    BadSignature,
    /// The index file has a version other than the supported one.
    BadVersion,
    /// The entries of the index file do not match its declared count.
    MalformedIndex,
    /// A loose object has no well-formed header.
    MalformedObject,
    /// A tree payload is not a sequence of well-formed entries.
    MalformedTree,
    /// A commit payload lacks its tree or has a malformed author line.
    MalformedCommit,
    /// The zlib stream could not be written or read.
    Compression,
    /// A working file whose content was needed could not be read.
    Unreadable,
}

impl Error {
    /// A short description of the failure.
    pub fn message(&self) -> (r: &'static str) {
        match self {
            Error::NotARepository => "not a git repository (or any parent up to mount point /)",
            Error::ChecksumMismatch => "Checksum does not match value stored on disk",
            Error::UnknownObjectType => "unknown object type",
            Error::InvalidCommit => "this is not a valid commit object",
            Error::PathSpecNoMatch => "pathspec did not match any files",
            Error::IndexTruncated => "index file is truncated",
            Error::BadSignature => "index signature is not DIRC",
            Error::BadVersion => "index version is not 2",
            Error::MalformedIndex => "index entries are malformed",
            Error::MalformedObject => "object header is malformed",
            Error::MalformedTree => "tree object is malformed",
            Error::MalformedCommit => "commit object is malformed",
            Error::Compression => "zlib stream could not be processed",
            Error::Unreadable => "open: Permission denied",
        }
    }
}

} // verus!
