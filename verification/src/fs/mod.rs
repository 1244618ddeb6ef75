//! Storage: paths, metadata and the in-memory file systems.

use vstd::prelude::*;

use crate::{Error, Result};

pub mod memory;
pub mod overlay;
pub mod path;

pub use memory::MemoryFileSystem;
pub use overlay::OverlayFileSystem;

verus! {

/// What a path leads to.
#[derive(Clone, Copy, PartialEq, Eq, Debug, Structural)]
pub enum FileType {
    File,
    Directory,
    Symlink,
}

/// The stat fields that an index keeps.
#[derive(Clone, Copy, PartialEq, Eq, Debug, Structural)]
pub struct FileStat {
    pub ctime_seconds: u32,
    pub ctime_nanoseconds: u32,
    pub mtime_seconds: u32,
    pub mtime_nanoseconds: u32,
    pub device: u32,
    pub inode: u32,
    pub uid: u32,
    pub gid: u32,
}

/// Stat fields that are all zero.
pub open spec fn empty_stat() -> FileStat {
    FileStat {
        ctime_seconds: 0,
        ctime_nanoseconds: 0,
        mtime_seconds: 0,
        mtime_nanoseconds: 0,
        device: 0,
        inode: 0,
        uid: 0,
        gid: 0,
    }
}

impl Default for FileStat {
    fn default() -> (r: Self)
        ensures
            r == empty_stat(),
    {
        FileStat {
            ctime_seconds: 0,
            ctime_nanoseconds: 0,
            mtime_seconds: 0,
            mtime_nanoseconds: 0,
            device: 0,
            inode: 0,
            uid: 0,
            gid: 0,
        }
    }
}

/// What a file system tells of a path.
#[derive(Clone, Copy, PartialEq, Eq, Debug, Structural)]
pub struct Metadata {
    pub kind: FileType,
    pub len: u64,
    pub executable: bool,
    pub stat: FileStat,
}

impl Metadata {
    pub fn file(len: u64) -> (r: Self)
        ensures
            r == (Metadata { kind: FileType::File, len, executable: false, stat: empty_stat() }),
    {
        Metadata { kind: FileType::File, len, executable: false, stat: FileStat::default() }
    }

    pub fn directory() -> (r: Self)
        ensures
            r == (Metadata {
                kind: FileType::Directory,
                len: 0,
                executable: false,
                stat: empty_stat(),
            }),
    {
        Metadata { kind: FileType::Directory, len: 0, executable: false, stat: FileStat::default() }
    }

    pub fn symlink(len: u64) -> (r: Self)
        ensures
            r == (Metadata { kind: FileType::Symlink, len, executable: false, stat: empty_stat() }),
    {
        Metadata { kind: FileType::Symlink, len, executable: false, stat: FileStat::default() }
    }

    pub fn with_executable(self, executable: bool) -> (r: Self)
        ensures
            r == (Metadata { executable, ..self }),
    {
        Metadata { kind: self.kind, len: self.len, executable, stat: self.stat }
    }

    pub fn with_stat(self, stat: FileStat) -> (r: Self)
        ensures
            r == (Metadata { stat, ..self }),
    {
        Metadata { kind: self.kind, len: self.len, executable: self.executable, stat }
    }

    pub fn is_file(self) -> (r: bool)
        ensures
            r == (self.kind is File),
    {
        match self.kind {
            FileType::File => true,
            _ => false,
        }
    }

    pub fn is_dir(self) -> (r: bool)
        ensures
            r == (self.kind is Directory),
    {
        match self.kind {
            FileType::Directory => true,
            _ => false,
        }
    }

    pub fn is_symlink(self) -> (r: bool)
        ensures
            r == (self.kind is Symlink),
    {
        match self.kind {
            FileType::Symlink => true,
            _ => false,
        }
    }

    pub fn is_executable(self) -> (r: bool)
        ensures
            r == self.executable,
    {
        self.executable
    }

    pub fn stat(self) -> (r: FileStat)
        ensures
            r == self.stat,
    {
        self.stat
    }

    pub fn len(self) -> (r: u64)
        ensures
            r == self.len,
    {
        self.len
    }

    pub fn is_empty(self) -> (r: bool)
        ensures
            r == (self.len == 0),
    {
        self.len == 0
    }
}

/// A repository-scoped file system.
///
/// Paths are relative and use `/`. Implementations reject absolute paths and
/// `..` components. `write` replaces a complete file; callers use `rename` to
/// publish lock files.
pub trait FileSystem {
    /// Creates a directory and all missing parents.
    fn create_dir_all(&mut self, path: &[u8]) -> Result<()>;

    /// Reads a complete file.
    fn read(&self, path: &[u8]) -> Result<Vec<u8>>;

    /// Creates or replaces a complete file.
    fn write(&mut self, path: &[u8], contents: &[u8]) -> Result<()>;

    /// Creates a complete file only if nothing has its path.
    fn write_new(&mut self, path: &[u8], contents: &[u8]) -> Result<()>;

    /// Reads the target of a symbolic link without following it.
    fn read_link(&self, path: &[u8]) -> Result<Vec<u8>>;

    /// Creates or replaces a symbolic link.
    fn create_symlink(&mut self, path: &[u8], target: &[u8]) -> Result<()>;

    /// Changes a regular file's executable bit.
    fn set_executable(&mut self, path: &[u8], executable: bool) -> Result<()>;

    /// Moves a file, a symbolic link or a complete directory tree.
    fn rename(&mut self, from: &[u8], to: &[u8]) -> Result<()>;

    /// Removes a file or a symbolic link.
    fn remove_file(&mut self, path: &[u8]) -> Result<()>;

    /// Removes an empty directory.
    fn remove_dir(&mut self, path: &[u8]) -> Result<()>;

    /// Tells what a path leads to.
    fn metadata(&self, path: &[u8]) -> Result<Metadata>;

    /// The names of a directory's children in ascending order.
    fn read_dir(&self, path: &[u8]) -> Result<Vec<Vec<u8>>>;

    /// Whether a path leads to something.
    fn is_present(&self, path: &[u8]) -> Result<bool>;
}

/// The ways in which an operation is refused for a path, a name
/// or another text.
pub enum Fault {
    NotFound,
    AlreadyExists,
    NotDirectory,
    IsDirectory,
    DirectoryNotEmpty,
    InvalidPath,
    InvalidName,
    InvalidObjectId,
}

/// Whether an error reports a fault of a path.
pub open spec fn reports(error: Error, fault: Fault, path: Seq<u8>) -> bool {
    match (fault, error) {
        (Fault::NotFound, Error::NotFound(p)) => p@ == path,
        (Fault::AlreadyExists, Error::AlreadyExists(p)) => p@ == path,
        (Fault::NotDirectory, Error::NotDirectory(p)) => p@ == path,
        (Fault::IsDirectory, Error::IsDirectory(p)) => p@ == path,
        (Fault::DirectoryNotEmpty, Error::DirectoryNotEmpty(p)) => p@ == path,
        (Fault::InvalidPath, Error::InvalidPath(p)) => p@ == path,
        (Fault::InvalidName, Error::InvalidReferenceName(p)) => p@ == path,
        (Fault::InvalidObjectId, Error::InvalidObjectId(p)) => p@ == path,
        _ => false,
    }
}

/// Whether a result is a refusal for a fault of a path.
pub open spec fn refused<T>(result: Result<T>, fault: Fault, path: Seq<u8>) -> bool {
    result is Err && reports(result->Err_0, fault, path)
}

/// Why an operation on a repository is refused: an error of its own, or a
/// fault of a path.
pub enum Refusal {
    Said(Error),
    At(Fault, Seq<u8>),
}

/// Whether a result is a given refusal.
pub open spec fn declined<T>(result: Result<T>, refusal: Refusal) -> bool {
    match refusal {
        Refusal::Said(error) => result is Err && result->Err_0 == error,
        Refusal::At(fault, path) => refused(result, fault, path),
    }
}

} // verus!
