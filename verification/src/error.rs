use vstd::prelude::*;

verus! {

/// The failure classes the store distinguishes, so that a caller can tell a
/// disk problem from a malformed log, a foreign file in the store directory,
/// an absent key, or a broken internal invariant.
#[derive(Clone, Copy, Debug, PartialEq, Eq)]
pub enum ErrorKind {
    /// A file create/open/read/write/flush/delete failure.
    Io,
    /// Malformed entry bytes found while decoding a segment.
    Serialization,
    /// A segment file name that is not `<segment id>.log`.
    PathFormat,
    /// `remove` was asked for a key that is not present.
    KeyNotFound,
    /// The index referenced a segment that could not be resolved.
    SegmentMissing,
}

/// # KvsError
/// This error is the user-facing error type for the KVS tool.
#[derive(Clone, Debug, PartialEq)]
pub struct KvsError {
    /// Which failure class this error belongs to.
    pub kind: ErrorKind,
    /// The original error message as a string.
    pub error_message: String,
}

impl KvsError {
    /// Builds a `KvsError` of the given kind carrying the given message.
    pub fn new(kind: ErrorKind, error_message: String) -> (r: Self)
        ensures
            r.kind == kind,
            r.error_message == error_message,
    {
        KvsError { kind, error_message }
    }

    /// Builds a general (I/O class) `KvsError` from a message string.
    pub fn from_string(error_message: String) -> (r: Self)
        ensures
            r.kind == ErrorKind::Io,
            r.error_message == error_message,
    {
        KvsError { kind: ErrorKind::Io, error_message }
    }
}

} // verus!
