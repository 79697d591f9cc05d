//! What a filesystem reports of its files.
use vstd::prelude::*;

pub mod proc;
pub mod text;

verus! {

/// What a directory entry is.
#[derive(Clone, Copy, Debug, PartialEq, Eq, Structural)]
pub enum FileType {
    RegularFile,
    SymLink,
    Directory,
}

/// Who owns a file.
#[derive(Clone, Copy, Debug, PartialEq, Eq, Structural)]
pub struct UserInfo {
    pub user: u16,
    pub group: u16,
}

/// The superuser.
pub open spec fn root_user() -> UserInfo {
    UserInfo { user: 0, group: 0 }
}

impl UserInfo {
    /// The superuser.
    pub fn root() -> (user: Self)
        ensures
            user == root_user(),
    {
        UserInfo { user: 0, group: 0 }
    }
}

/// The identity of a file or directory.
#[derive(Clone, Copy, Debug, PartialEq, Eq, Structural)]
pub struct NodeInfo {
    pub dev: usize,
    pub ino: u64,
    pub rdev: Option<usize>,
}

/// A node of a device.
pub open spec fn node(dev: usize, ino: int) -> NodeInfo {
    NodeInfo { dev, ino: ino as u64, rdev: None }
}

/// Hands out the inode numbers of one device, in order.
pub struct InodeAllocator {
    pub dev: usize,
    /// The number that is handed out next.
    pub upcoming: u64,
}

impl InodeAllocator {
    pub fn new(dev: usize) -> (allocator: Self)
        ensures
            allocator.dev == dev,
            allocator.upcoming == 1,
    {
        InodeAllocator { dev, upcoming: 1 }
    }

    /// The next node.
    pub fn next(&mut self) -> (next: NodeInfo)
        requires
            old(self).upcoming < u64::MAX,
        ensures
            next == node(old(self).dev, old(self).upcoming as int),
            final(self).dev == old(self).dev,
            final(self).upcoming == old(self).upcoming + 1,
    {
        let ino: u64 = self.upcoming;
        self.upcoming = ino + 1;
        NodeInfo { dev: self.dev, ino, rdev: None }
    }
}

/// Mode bits and owner, against which a caller's rights are checked.
#[derive(Clone, Copy, Debug, PartialEq, Eq, Structural)]
pub struct PermissionInfo {
    pub mode: u32,
    pub owner: UserInfo,
}

/// One entry of a directory listing.
#[derive(Debug)]
pub struct DirEntry {
    pub name: String,
    pub file_type: FileType,
    pub ino_info: Option<NodeInfo>,
}

/// The mathematical value of a directory entry.
#[verifier::ext_equal]
pub struct EntryModel {
    pub name: Seq<char>,
    pub file_type: FileType,
    pub ino_info: Option<NodeInfo>,
}

impl View for DirEntry {
    type V = EntryModel;

    open spec fn view(&self) -> EntryModel {
        EntryModel { name: self.name@, file_type: self.file_type, ino_info: self.ino_info }
    }
}

/// A listing, as mathematical values.
pub open spec fn entry_models(list: Seq<DirEntry>) -> Seq<EntryModel> {
    Seq::new(list.len(), |i: int| list[i]@)
}

/// A point in time, counted from the epoch.
#[derive(Clone, Copy, Debug, PartialEq, Eq, Structural)]
pub struct Timestamp {
    pub secs: i64,
    pub nanos: u32,
}

/// The epoch itself.
pub open spec fn epoch() -> Timestamp {
    Timestamp { secs: 0, nanos: 0 }
}

impl Default for Timestamp {
    /// The epoch.
    fn default() -> (time: Self)
        ensures
            time == epoch(),
    {
        Timestamp { secs: 0, nanos: 0 }
    }
}

/// What is known of a file without reading it.
#[derive(Clone, Copy, Debug, PartialEq, Eq, Structural)]
pub struct FileStatus {
    pub file_type: FileType,
    pub mode: u32,
    pub size: usize,
    pub owner: UserInfo,
    pub node_info: NodeInfo,
    pub blksize: usize,
    pub atime: Timestamp,
    pub mtime: Timestamp,
    pub ctime: Timestamp,
}

/// Flags of an open.
#[derive(Clone, Copy, Debug, PartialEq, Eq, Structural)]
pub struct OFlags {
    pub bits: u32,
}

impl OFlags {
    pub const WRONLY: u32 = 0o1;

    pub const RDWR: u32 = 0o2;

    pub const CREAT: u32 = 0o100;

    pub const EXCL: u32 = 0o200;

    pub const TRUNC: u32 = 0o1000;

    pub const DIRECTORY: u32 = 0o200000;

    pub const PATH: u32 = 0o10000000;

    /// All flags of `mask` are set.
    pub fn contains(self, mask: u32) -> (all: bool)
        ensures
            all == (self.bits & mask == mask),
    {
        self.bits & mask == mask
    }

    /// Some flag of `mask` is set.
    pub fn intersects(self, mask: u32) -> (some: bool)
        ensures
            some == (self.bits & mask != 0),
    {
        self.bits & mask != 0
    }
}

/// What is wrong with a path.
#[derive(Clone, Copy, Debug, PartialEq, Eq, Structural)]
pub enum PathError {
    NoSuchFileOrDirectory,
    ComponentNotADirectory,
}

/// Possible errors of a walk
#[derive(Clone, Copy, Debug, PartialEq, Eq, Structural)]
pub enum WalkError {
    PathError(PathError),
}

/// Possible errors of an open
#[derive(Clone, Copy, Debug, PartialEq, Eq, Structural)]
pub enum OpenError {
    PathError(PathError),
    AlreadyExists,
    TooManySymbolicLinks,
    ReadOnlyFileSystem,
}

/// Possible errors of a read
#[derive(Clone, Copy, Debug, PartialEq, Eq, Structural)]
pub enum ReadError {
    Io,
}

/// Possible errors of a write
#[derive(Clone, Copy, Debug, PartialEq, Eq, Structural)]
pub enum WriteError {
    NotForWriting,
    PermissionDenied,
    InvalidArgument,
}

/// Possible errors of reading a link
#[derive(Clone, Copy, Debug, PartialEq, Eq, Structural)]
pub enum ReadlinkError {
    PathError(PathError),
    NotASymlink,
}

/// Why a walk ended.
#[derive(Clone, Copy, Debug, PartialEq, Eq, Structural)]
pub enum WalkStopReason {
    /// The next component is something other than a directory.
    StoppedAtNonDirectory,
    /// Every component is a directory.
    CompleteDirectory,
}

} // verus!
