//! The error type shared by every operation of the library.

use vstd::prelude::*;

verus! {

/// Everything that can go wrong.
///
/// Messages are fixed texts; a variant that reports a path or a name carries
/// its bytes.
#[derive(Debug, PartialEq, Eq)]
pub enum Error {
    InvalidObjectId(Vec<u8>),
    InvalidObject(&'static str),
    InvalidTree(&'static str),
    InvalidCommit(&'static str),
    InvalidRepository(&'static str),
    InvalidReference(&'static str),
    InvalidReferenceName(Vec<u8>),
    InvalidPath(Vec<u8>),
    Compression(&'static str),
    ObjectTooLarge { declared: u64, limit: usize },
    NotFound(Vec<u8>),
    AlreadyExists(Vec<u8>),
    NotDirectory(Vec<u8>),
    IsDirectory(Vec<u8>),
    DirectoryNotEmpty(Vec<u8>),
    ReferenceConflict(&'static str),
    CheckoutConflict(Vec<Vec<u8>>),
    Protocol(&'static str),
    EmptyReplay,
    /// What the storage of the host reports.
    Io(String),
}

pub type Result<T> = core::result::Result<T, Error>;

} // verus!
