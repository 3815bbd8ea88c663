//! File systems: the errors they report, the interface they offer, and an
//! in-memory tree of files and directories.
use vstd::prelude::*;

pub mod memfs;
pub mod file_descriptor;
pub mod fat32;

verus! {

/// Why a file-system request was refused.
#[derive(Debug, Clone, Copy, PartialEq, Eq, Structural)]
pub enum FsError {
    NotFound,
    NotADirectory,
    NotAFile,
    AlreadyExists,
    PermissionDenied,
}

pub type FsResult<T> = Result<T, FsError>;

/// The requests a file system answers, by path.
pub trait FileSystem {
    fn read(&self, path: &str) -> FsResult<Vec<u8>>;

    fn write(&mut self, path: &str, data: &[u8]) -> FsResult<()>;

    fn create(&mut self, path: &str) -> FsResult<()>;

    fn mkdir(&mut self, path: &str) -> FsResult<()>;

    fn remove(&mut self, path: &str) -> FsResult<()>;

    fn readdir(&self, path: &str) -> FsResult<Vec<String>>;

    fn exists_at(&self, path: &str) -> bool;

    fn is_dir(&self, path: &str) -> bool;
}

} // verus!
