//! The errors of the object store and of pack decoding.
use vstd::prelude::*;

verus! {

/// Why an operation of the library failed.
#[derive(Debug)]
pub enum GitError {
    /// A zlib stream could not be read or written.
    Io(std::io::Error),
    /// An object name is no hexadecimal text.
    Hex(hex::FromHexError),
    /// The object read as a tree is of another type.
    NotTreeObject,
    /// The object has no NUL byte ending its header.
    NoObjectHeader,
    /// A tree entry has no space between its mode and its name.
    NameNotFound,
    /// A tree entry ends before its 20-byte object name.
    ShaAreaMissing,
    /// A blob has no NUL byte ending its header.
    ContentNotFound,
    /// A delta instruction ends before one of its offset or size bytes.
    IndexMissing,
    /// A delta instruction reaches past its base or past the delta.
    RangeMissing,
    /// The server's answer is shorter than the 20 bytes it must at least hold.
    ResponseTooShort(usize),
    /// A reference delta ends before the name of its base.
    BaseIdMissing,
    /// The advertised head is no 40-digit object name.
    NotSha,
    /// The data ends, or lacks an item, where the format requires one to follow.
    OutOfRange,
}

/// The variant of a `GitError`, without its payload.
#[derive(Clone, Copy, Debug, PartialEq, Eq, Structural)]
pub enum ErrorKind {
    Io,
    Hex,
    NotTreeObject,
    NoObjectHeader,
    NameNotFound,
    ShaAreaMissing,
    ContentNotFound,
    IndexMissing,
    RangeMissing,
    ResponseTooShort,
    BaseIdMissing,
    NotSha,
    OutOfRange,
}

impl GitError {
    /// The variant of this error.
    pub open spec fn kind_of(&self) -> ErrorKind {
        match self {
            GitError::Io(_) => ErrorKind::Io,
            GitError::Hex(_) => ErrorKind::Hex,
            GitError::NotTreeObject => ErrorKind::NotTreeObject,
            GitError::NoObjectHeader => ErrorKind::NoObjectHeader,
            GitError::NameNotFound => ErrorKind::NameNotFound,
            GitError::ShaAreaMissing => ErrorKind::ShaAreaMissing,
            GitError::ContentNotFound => ErrorKind::ContentNotFound,
            GitError::IndexMissing => ErrorKind::IndexMissing,
            GitError::RangeMissing => ErrorKind::RangeMissing,
            GitError::ResponseTooShort(_) => ErrorKind::ResponseTooShort,
            GitError::BaseIdMissing => ErrorKind::BaseIdMissing,
            GitError::NotSha => ErrorKind::NotSha,
            GitError::OutOfRange => ErrorKind::OutOfRange,
        }
    }

    /// The variant of this error.
    pub fn kind(&self) -> (r: ErrorKind)
        ensures
            r == self.kind_of(),
    {
        match self {
            GitError::Io(_) => ErrorKind::Io,
            GitError::Hex(_) => ErrorKind::Hex,
            GitError::NotTreeObject => ErrorKind::NotTreeObject,
            GitError::NoObjectHeader => ErrorKind::NoObjectHeader,
            GitError::NameNotFound => ErrorKind::NameNotFound,
            GitError::ShaAreaMissing => ErrorKind::ShaAreaMissing,
            GitError::ContentNotFound => ErrorKind::ContentNotFound,
            GitError::IndexMissing => ErrorKind::IndexMissing,
            GitError::RangeMissing => ErrorKind::RangeMissing,
            GitError::ResponseTooShort(_) => ErrorKind::ResponseTooShort,
            GitError::BaseIdMissing => ErrorKind::BaseIdMissing,
            GitError::NotSha => ErrorKind::NotSha,
            GitError::OutOfRange => ErrorKind::OutOfRange,
        }
    }
}

impl ErrorKind {
    /// The text shown for each kind of error.
    pub open spec fn text(self) -> Seq<char> {
        match self {
            ErrorKind::Io => "zlib stream error"@,
            ErrorKind::Hex => "invalid hexadecimal object name"@,
            ErrorKind::NotTreeObject => "Not tree object"@,
            ErrorKind::NoObjectHeader => "Do not posible to split data"@,
            ErrorKind::NameNotFound => "Name not found"@,
            ErrorKind::ShaAreaMissing => "No data in sha area"@,
            ErrorKind::ContentNotFound => "Position not found"@,
            ErrorKind::IndexMissing => "Data on this index do not exist!"@,
            ErrorKind::RangeMissing => "No data in indexing area"@,
            ErrorKind::ResponseTooShort => "Data length is to short."@,
            ErrorKind::BaseIdMissing => "Data in indexing area do not exist!"@,
            ErrorKind::NotSha => "Data is not a sha"@,
            ErrorKind::OutOfRange => "index out of range"@,
        }
    }

    /// The message of this kind of error.
    pub fn message(&self) -> (r: &'static str)
        ensures
            r@ == self.text(),
    {
        match self {
            ErrorKind::Io => "zlib stream error",
            ErrorKind::Hex => "invalid hexadecimal object name",
            ErrorKind::NotTreeObject => "Not tree object",
            ErrorKind::NoObjectHeader => "Do not posible to split data",
            ErrorKind::NameNotFound => "Name not found",
            ErrorKind::ShaAreaMissing => "No data in sha area",
            ErrorKind::ContentNotFound => "Position not found",
            ErrorKind::IndexMissing => "Data on this index do not exist!",
            ErrorKind::RangeMissing => "No data in indexing area",
            ErrorKind::ResponseTooShort => "Data length is to short.",
            ErrorKind::BaseIdMissing => "Data in indexing area do not exist!",
            ErrorKind::NotSha => "Data is not a sha",
            ErrorKind::OutOfRange => "index out of range",
        }
    }
}

} // verus!
