//! What the tree refuses: it is read-only but for a few files, whose size is not their writer's to
//! set.
use crate::fs::proc::tree::{ProcDir, ProcFile};
use crate::fs::proc::{Proc, ProcSources};
use crate::fs::OpenError;
use vstd::prelude::*;

verus! {

/// Possible errors of a truncation
#[derive(Clone, Copy, Debug, PartialEq, Eq, Structural)]
pub enum TruncateError {
    NotForWriting,
}

/// Possible errors of a change to the tree
#[derive(Clone, Copy, Debug, PartialEq, Eq, Structural)]
pub enum ChangeError {
    ReadOnlyFileSystem,
}

/// How a file's position moves.
#[derive(Clone, Copy, Debug, PartialEq, Eq, Structural)]
pub enum SeekBehavior {
    PositionBased,
}

/// A change to the tree that somebody may ask for.
#[derive(Clone, Copy, Debug, PartialEq, Eq, Structural)]
pub enum TreeChange {
    Mkdir,
    Unlink,
    Rmdir,
    Chmod,
    Chown,
    Utimensat,
}

impl<S: ProcSources> Proc<S> {
    /// The root of the tree.
    pub fn root(&self) -> (dir: ProcDir)
        ensures
            dir == ProcDir::Root,
    {
        ProcDir::Root
    }

    /// Nothing is truncated: a file that can be written is written all at once.
    pub fn truncate(&self, _file: ProcFile, _length: usize) -> (result: Result<(), TruncateError>)
        ensures
            result == Err::<(), TruncateError>(TruncateError::NotForWriting),
    {
        Err(TruncateError::NotForWriting)
    }

    /// Every file has a position.
    pub fn seek_behavior(&self, _file: ProcFile) -> (behavior: SeekBehavior)
        ensures
            behavior == SeekBehavior::PositionBased,
    {
        SeekBehavior::PositionBased
    }

    /// No file is created.
    pub fn create_file_at(&self, _dir: ProcDir, _name: &str, _mode: u32) -> (result: Result<
        ProcFile,
        OpenError,
    >)
        ensures
            result == Err::<ProcFile, OpenError>(OpenError::ReadOnlyFileSystem),
    {
        Err(OpenError::ReadOnlyFileSystem)
    }

    /// Nothing in the tree is made, removed or given other rights, another owner or other times.
    pub fn change_at(&self, _dir: ProcDir, _name: &str, _change: TreeChange) -> (result: Result<
        (),
        ChangeError,
    >)
        ensures
            result == Err::<(), ChangeError>(ChangeError::ReadOnlyFileSystem),
    {
        Err(ChangeError::ReadOnlyFileSystem)
    }
}

} // verus!
