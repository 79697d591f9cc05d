//! Opening files, and what is known of files and directories without reading them.
use crate::fs::proc::tree::{
    PidFile, ProcDir, ProcFile, SLOT_DIR, SLOT_FDINFO_DIR, SLOT_FD_DIR, SLOT_NS_DIR, SLOT_TASK_DIR,
};
use crate::fs::proc::walk::{
    EXE_LINK_MODE, FD_LINK_MODE, NS_LINK_MODE, OWNER_ONLY_DIR_MODE, OWNER_ONLY_FILE_MODE,
    READONLY_DIR_MODE, READONLY_FILE_MODE, USER_NS_FILE_MODE,
};
use crate::fs::proc::{Proc, ProcSources};
use crate::fs::text::is_text;
use crate::fs::{
    FileStatus, FileType, NodeInfo, OFlags, OpenError, PathError, PermissionInfo, Timestamp, UserInfo,
};
use vstd::prelude::*;

verus! {

use crate::fs::epoch;
use crate::fs::proc::lookup::{fd_named, pid_node_of, tid_node_of};
use crate::fs::proc::tree::{configures_user_ns, file_in_dir, is_link, is_writable};
use crate::fs::proc::walk::holder_found;

/// The size that every directory reports.
pub const DEFAULT_DIRECTORY_SIZE: usize = 4096;

/// The file of a name in a directory, given the open descriptor that the name refers to.
pub open spec fn file_at(dir: ProcDir, name: Seq<char>, fd: Option<u32>) -> Option<ProcFile> {
    match dir {
        ProcDir::Fd(pid) => match fd {
            Some(fd) => Some(ProcFile::FdLink(pid, fd)),
            None => None,
        },
        ProcDir::FdInfo(pid) => match fd {
            Some(fd) => Some(ProcFile::FdInfo(pid, fd)),
            None => None,
        },
        ProcDir::Ns(pid) => if name == "user"@ {
            Some(ProcFile::NsUser(pid))
        } else if name == "net"@ {
            Some(ProcFile::NsNet(pid))
        } else {
            None
        },
        _ => file_in_dir(dir, name),
    }
}

/// The flags of an open that would change something.
pub open spec fn changes(flags: OFlags) -> bool {
    flags.bits & (OFlags::CREAT | OFlags::TRUNC | OFlags::WRONLY | OFlags::RDWR) != 0
}

/// Why a file may not be opened in some way, if it may not. A magic link is only opened as itself
/// by its path; everything but what configures a user namespace is read-only.
pub open spec fn open_refusal(file: ProcFile, flags: OFlags) -> Option<OpenError> {
    if flags.bits & OFlags::DIRECTORY == OFlags::DIRECTORY {
        Some(OpenError::PathError(PathError::ComponentNotADirectory))
    } else if is_link(file) && flags.bits & OFlags::PATH != OFlags::PATH {
        if flags.bits & (OFlags::CREAT | OFlags::EXCL) == OFlags::CREAT | OFlags::EXCL {
            Some(OpenError::AlreadyExists)
        } else {
            Some(OpenError::TooManySymbolicLinks)
        }
    } else if !is_writable(file) && changes(flags) {
        Some(OpenError::ReadOnlyFileSystem)
    } else {
        None
    }
}

/// The mode of a file, and the process whose user owns it, if it is not the superuser's.
pub open spec fn file_rights(dir: ProcDir, file: ProcFile) -> (u32, Option<i32>) {
    let (pid, kind) = match file {
        ProcFile::Pid(pid, kind) => (pid, Some(kind)),
        ProcFile::Tid(pid, _, kind) => (pid, Some(kind)),
        _ => (0i32, None),
    };
    if kind == Some(PidFile::Exe) {
        (EXE_LINK_MODE, Some(pid))
    } else if kind matches Some(kind) && configures_user_ns(kind) {
        (USER_NS_FILE_MODE, Some(pid))
    } else if kind == Some(PidFile::Mem) {
        (OWNER_ONLY_FILE_MODE, Some(pid))
    } else {
        match dir {
            ProcDir::Pid(pid) => (READONLY_FILE_MODE, Some(pid)),
            ProcDir::Tid(pid, _) => (READONLY_FILE_MODE, Some(pid)),
            ProcDir::Fd(pid) => (FD_LINK_MODE, Some(pid)),
            ProcDir::FdInfo(pid) => (OWNER_ONLY_FILE_MODE, Some(pid)),
            ProcDir::Ns(pid) => (NS_LINK_MODE, Some(pid)),
            _ => (READONLY_FILE_MODE, None),
        }
    }
}

/// The open descriptor of a name was looked up, where the directory is one of descriptors.
pub open spec fn fd_sought<S: ProcSources>(
    proc: &Proc<S>,
    dir: ProcDir,
    name: Seq<char>,
    fd: Option<u32>,
) -> bool {
    match dir {
        ProcDir::Fd(pid) => fd_named(proc, pid, name, fd),
        ProcDir::FdInfo(pid) => fd_named(proc, pid, name, fd),
        _ => fd is None,
    }
}

/// What an open came to.
pub open spec fn opened<S: ProcSources>(
    proc: &Proc<S>,
    dir: ProcDir,
    name: Seq<char>,
    flags: OFlags,
    result: Result<(ProcFile, PermissionInfo), OpenError>,
) -> bool {
    exists|fd: Option<u32>| #[trigger]
        fd_sought(proc, dir, name, fd) && match file_at(dir, name, fd) {
            None => result == Err::<(ProcFile, PermissionInfo), OpenError>(
                OpenError::PathError(PathError::NoSuchFileOrDirectory),
            ),
            Some(file) => match open_refusal(file, flags) {
                Some(error) => result == Err::<(ProcFile, PermissionInfo), OpenError>(error),
                None => {
                    let (mode, who) = file_rights(dir, file);
                    exists|owner: UserInfo| #[trigger]
                        holder_found(proc, who, owner) && result == Ok::<
                            (ProcFile, PermissionInfo),
                            OpenError,
                        >((file, PermissionInfo { mode, owner }))
                },
            },
        }
}

/// Only the files that configure a user namespace are ever opened in a way that would change
/// something.
pub proof fn lemma_only_user_ns_files_open_for_writing<S: ProcSources>(
    proc: &Proc<S>,
    dir: ProcDir,
    name: Seq<char>,
    flags: OFlags,
    file: ProcFile,
    rights: PermissionInfo,
)
    requires
        opened(proc, dir, name, flags, Ok((file, rights))),
        changes(flags),
    ensures
        is_writable(file),
{
}

/// Which process's user owns a directory, and its mode.
pub open spec fn dir_rights(dir: ProcDir) -> (u32, Option<i32>) {
    match dir {
        ProcDir::Pid(pid) => (READONLY_DIR_MODE, Some(pid)),
        ProcDir::Task(pid) => (READONLY_DIR_MODE, Some(pid)),
        ProcDir::Tid(pid, _) => (READONLY_DIR_MODE, Some(pid)),
        ProcDir::Fd(pid) => (OWNER_ONLY_DIR_MODE, Some(pid)),
        ProcDir::FdInfo(pid) => (OWNER_ONLY_DIR_MODE, Some(pid)),
        ProcDir::Ns(pid) => (READONLY_DIR_MODE, Some(pid)),
        _ => (READONLY_DIR_MODE, None),
    }
}

/// The node of a directory.
pub open spec fn dir_node<S: ProcSources>(proc: &Proc<S>, dir: ProcDir) -> NodeInfo {
    match dir {
        ProcDir::Root => proc.nodes.root,
        ProcDir::Pid(pid) => pid_node_of(proc, pid, SLOT_DIR as int),
        ProcDir::Task(pid) => pid_node_of(proc, pid, SLOT_TASK_DIR as int),
        ProcDir::Tid(_, tid) => tid_node_of(proc, tid, SLOT_DIR as int),
        ProcDir::Fd(pid) => pid_node_of(proc, pid, SLOT_FD_DIR as int),
        ProcDir::FdInfo(pid) => pid_node_of(proc, pid, SLOT_FDINFO_DIR as int),
        ProcDir::Ns(pid) => pid_node_of(proc, pid, SLOT_NS_DIR as int),
        ProcDir::SysDir => proc.nodes.sys_dir,
        ProcDir::SysKernelDir => proc.nodes.sys_kernel_dir,
        ProcDir::SysFsDir => proc.nodes.sys_fs_dir,
        ProcDir::SysFsInotifyDir => proc.nodes.sys_fs_inotify_dir,
        ProcDir::NetDir => proc.nodes.net_dir,
        ProcDir::LiteboxDir => proc.nodes.litebox_dir,
    }
}

/// What a directory reports of itself.
pub open spec fn dir_status_of<S: ProcSources>(proc: &Proc<S>, dir: ProcDir, owner: UserInfo) -> FileStatus {
    FileStatus {
        file_type: FileType::Directory,
        mode: dir_rights(dir).0,
        size: DEFAULT_DIRECTORY_SIZE,
        owner,
        node_info: dir_node(proc, dir),
        blksize: 0,
        atime: epoch(),
        mtime: epoch(),
        ctime: epoch(),
    }
}

impl<S: ProcSources> Proc<S> {
    /// Opens a file of a directory, and says with what rights.
    pub fn open_file_at(&self, dir: ProcDir, name: &str, flags: OFlags) -> (result: Result<
        (ProcFile, PermissionInfo),
        OpenError,
    >)
        ensures
            opened(self, dir, name@, flags, result),
    {
        let fd: Option<u32> = match dir {
            ProcDir::Fd(pid) => self.caller_fd_named(pid, name),
            ProcDir::FdInfo(pid) => self.caller_fd_named(pid, name),
            _ => None,
        };
        proof {
            assert(fd_sought(self, dir, name@, fd));
        }
        let found: Option<ProcFile> = match dir {
            ProcDir::Fd(pid) => match fd {
                Some(fd) => Some(ProcFile::FdLink(pid, fd)),
                None => None,
            },
            ProcDir::FdInfo(pid) => match fd {
                Some(fd) => Some(ProcFile::FdInfo(pid, fd)),
                None => None,
            },
            ProcDir::Ns(pid) => if is_text(name, "user") {
                Some(ProcFile::NsUser(pid))
            } else if is_text(name, "net") {
                Some(ProcFile::NsNet(pid))
            } else {
                None
            },
            _ => ProcFile::in_dir(dir, name),
        };
        let file = match found {
            Some(file) => file,
            None => {
                return Err(OpenError::PathError(PathError::NoSuchFileOrDirectory));
            },
        };
        if flags.contains(OFlags::DIRECTORY) {
            return Err(OpenError::PathError(PathError::ComponentNotADirectory));
        }
        if file.is_magic_link() && !flags.contains(OFlags::PATH) {
            if flags.contains(OFlags::CREAT | OFlags::EXCL) {
                return Err(OpenError::AlreadyExists);
            }
            return Err(OpenError::TooManySymbolicLinks);
        }
        if !file.is_writable() && flags.intersects(
            OFlags::CREAT | OFlags::TRUNC | OFlags::WRONLY | OFlags::RDWR,
        ) {
            return Err(OpenError::ReadOnlyFileSystem);
        }
        let (mode, who) = Self::rights_of(dir, file);
        let owner = self.holder(who);
        proof {
            assert(holder_found(self, who, owner));
        }
        Ok((file, PermissionInfo { mode, owner }))
    }

    /// The mode of a file, and the process whose user owns it.
    fn rights_of(dir: ProcDir, file: ProcFile) -> (rights: (u32, Option<i32>))
        ensures
            rights == file_rights(dir, file),
    {
        let entry: Option<(i32, PidFile)> = match file {
            ProcFile::Pid(pid, kind) => Some((pid, kind)),
            ProcFile::Tid(pid, _, kind) => Some((pid, kind)),
            _ => None,
        };
        if let Some((pid, kind)) = entry {
            if kind == PidFile::Exe {
                return (EXE_LINK_MODE, Some(pid));
            }
            if kind.is_user_ns_file() {
                return (USER_NS_FILE_MODE, Some(pid));
            }
            if kind == PidFile::Mem {
                return (OWNER_ONLY_FILE_MODE, Some(pid));
            }
        }
        match dir {
            ProcDir::Pid(pid) => (READONLY_FILE_MODE, Some(pid)),
            ProcDir::Tid(pid, _) => (READONLY_FILE_MODE, Some(pid)),
            ProcDir::Fd(pid) => (FD_LINK_MODE, Some(pid)),
            ProcDir::FdInfo(pid) => (OWNER_ONLY_FILE_MODE, Some(pid)),
            ProcDir::Ns(pid) => (NS_LINK_MODE, Some(pid)),
            _ => (READONLY_FILE_MODE, None),
        }
    }

    /// What a directory reports of itself. Some readers take a process's user from the owner of its
    /// directory.
    pub fn dir_status(&self, dir: ProcDir) -> (status: FileStatus)
        ensures
            holder_found(self, dir_rights(dir).1, status.owner),
            status == dir_status_of(self, dir, status.owner),
    {
        let (node_info, mode, who) = match dir {
            ProcDir::Root => (self.nodes.root, READONLY_DIR_MODE, None),
            ProcDir::Pid(pid) => (self.pid_node(pid, SLOT_DIR), READONLY_DIR_MODE, Some(pid)),
            ProcDir::Task(pid) => (
                self.pid_node(pid, SLOT_TASK_DIR),
                READONLY_DIR_MODE,
                Some(pid),
            ),
            ProcDir::Tid(pid, tid) => (self.tid_node(tid, SLOT_DIR), READONLY_DIR_MODE, Some(pid)),
            ProcDir::Fd(pid) => (self.pid_node(pid, SLOT_FD_DIR), OWNER_ONLY_DIR_MODE, Some(pid)),
            ProcDir::FdInfo(pid) => (
                self.pid_node(pid, SLOT_FDINFO_DIR),
                OWNER_ONLY_DIR_MODE,
                Some(pid),
            ),
            ProcDir::Ns(pid) => (self.pid_node(pid, SLOT_NS_DIR), READONLY_DIR_MODE, Some(pid)),
            ProcDir::SysDir => (self.nodes.sys_dir, READONLY_DIR_MODE, None),
            ProcDir::SysKernelDir => (self.nodes.sys_kernel_dir, READONLY_DIR_MODE, None),
            ProcDir::SysFsDir => (self.nodes.sys_fs_dir, READONLY_DIR_MODE, None),
            ProcDir::SysFsInotifyDir => (self.nodes.sys_fs_inotify_dir, READONLY_DIR_MODE, None),
            ProcDir::NetDir => (self.nodes.net_dir, READONLY_DIR_MODE, None),
            ProcDir::LiteboxDir => (self.nodes.litebox_dir, READONLY_DIR_MODE, None),
        };
        let owner = self.holder(who);
        FileStatus {
            file_type: FileType::Directory,
            mode,
            size: DEFAULT_DIRECTORY_SIZE,
            owner,
            node_info,
            blksize: 0,
            atime: Timestamp::default(),
            mtime: Timestamp::default(),
            ctime: Timestamp::default(),
        }
    }
}

} // verus!
