//! The names of the tree: directories, files and their nodes.
use crate::fs::text::is_text;
use crate::fs::FileType;
use vstd::prelude::*;

verus! {

/// One of the directories.
#[derive(Clone, Copy, Debug, PartialEq, Eq, Structural)]
pub enum ProcDir {
    /// The root of the tree.
    Root,
    /// One live process.
    Pid(i32),
    /// The threads of a process.
    Task(i32),
    /// One thread of a process.
    Tid(i32, i32),
    SysDir,
    SysKernelDir,
    SysFsDir,
    SysFsInotifyDir,
    NetDir,
    LiteboxDir,
    /// One magic link for each open descriptor, for the caller's own process only.
    Fd(i32),
    /// One file for each open descriptor, for the caller's own process only.
    FdInfo(i32),
    /// The magic links to the namespaces of a process.
    Ns(i32),
}

/// One of the per-process (and per-thread) files.
#[derive(Clone, Copy, Debug, PartialEq, Eq, Structural)]
pub enum PidFile {
    Stat,
    Statm,
    Status,
    Cmdline,
    Comm,
    /// The magic link to the program image.
    Exe,
    UidMap,
    GidMap,
    Setgroups,
    Auxv,
    Maps,
    Mem,
}

/// One of the files.
#[derive(Clone, Copy, Debug, PartialEq, Eq, Structural)]
pub enum ProcFile {
    Meminfo,
    Mounts,
    StatSystem,
    Cpuinfo,
    Version,
    Uptime,
    OverflowUid,
    OverflowGid,
    PidMax,
    ThreadsMax,
    InotifyMaxUserWatches,
    InotifyMaxUserInstances,
    InotifyMaxQueuedEvents,
    /// A file of a process.
    Pid(i32, PidFile),
    /// A file of a thread of a process.
    Tid(i32, i32, PidFile),
    NetDev,
    NetRoute,
    LiteboxCounters,
    /// A magic link to a descriptor's open file.
    FdLink(i32, u32),
    /// The state of a descriptor.
    FdInfo(i32, u32),
    /// A magic link to the user namespace.
    NsUser(i32),
    /// A magic link to the network namespace.
    NsNet(i32),
}

/// The per-process file of a name.
pub open spec fn pid_file_named(name: Seq<char>) -> Option<PidFile> {
    if name == "stat"@ {
        Some(PidFile::Stat)
    } else if name == "statm"@ {
        Some(PidFile::Statm)
    } else if name == "status"@ {
        Some(PidFile::Status)
    } else if name == "cmdline"@ {
        Some(PidFile::Cmdline)
    } else if name == "comm"@ {
        Some(PidFile::Comm)
    } else if name == "exe"@ {
        Some(PidFile::Exe)
    } else if name == "uid_map"@ {
        Some(PidFile::UidMap)
    } else if name == "gid_map"@ {
        Some(PidFile::GidMap)
    } else if name == "setgroups"@ {
        Some(PidFile::Setgroups)
    } else if name == "auxv"@ {
        Some(PidFile::Auxv)
    } else if name == "maps"@ {
        Some(PidFile::Maps)
    } else if name == "mem"@ {
        Some(PidFile::Mem)
    } else {
        None
    }
}

/// The name of a per-process file.
pub open spec fn pid_file_name(file: PidFile) -> Seq<char> {
    match file {
        PidFile::Stat => "stat"@,
        PidFile::Statm => "statm"@,
        PidFile::Status => "status"@,
        PidFile::Cmdline => "cmdline"@,
        PidFile::Comm => "comm"@,
        PidFile::Exe => "exe"@,
        PidFile::UidMap => "uid_map"@,
        PidFile::GidMap => "gid_map"@,
        PidFile::Setgroups => "setgroups"@,
        PidFile::Auxv => "auxv"@,
        PidFile::Maps => "maps"@,
        PidFile::Mem => "mem"@,
    }
}

/// The per-process files, in the order in which they are listed.
pub open spec fn all_pid_files() -> Seq<PidFile> {
    seq![
        PidFile::Stat,
        PidFile::Statm,
        PidFile::Status,
        PidFile::Cmdline,
        PidFile::Comm,
        PidFile::Exe,
        PidFile::UidMap,
        PidFile::GidMap,
        PidFile::Setgroups,
        PidFile::Auxv,
        PidFile::Maps,
        PidFile::Mem,
    ]
}

/// The place of a per-process file among the nodes of its process or thread.
pub open spec fn slot_of(file: PidFile) -> int {
    match file {
        PidFile::Stat => 1,
        PidFile::Statm => 2,
        PidFile::Status => 3,
        PidFile::Cmdline => 4,
        PidFile::Comm => 5,
        PidFile::Exe => 6,
        PidFile::UidMap => 10,
        PidFile::GidMap => 11,
        PidFile::Setgroups => 12,
        PidFile::Auxv => 16,
        PidFile::Maps => 17,
        PidFile::Mem => 18,
    }
}

/// What a per-process file is.
pub open spec fn pid_file_type(file: PidFile) -> FileType {
    if file == PidFile::Exe {
        FileType::SymLink
    } else {
        FileType::RegularFile
    }
}

/// The file of a name in [`ProcDir::Root`].
pub open spec fn root_file_named(name: Seq<char>) -> Option<ProcFile> {
    if name == "meminfo"@ {
        Some(ProcFile::Meminfo)
    } else if name == "mounts"@ {
        Some(ProcFile::Mounts)
    } else if name == "stat"@ {
        Some(ProcFile::StatSystem)
    } else if name == "cpuinfo"@ {
        Some(ProcFile::Cpuinfo)
    } else if name == "version"@ {
        Some(ProcFile::Version)
    } else if name == "uptime"@ {
        Some(ProcFile::Uptime)
    } else {
        None
    }
}

/// The file of a name in [`ProcDir::SysKernelDir`].
pub open spec fn sys_kernel_file_named(name: Seq<char>) -> Option<ProcFile> {
    if name == "overflowuid"@ {
        Some(ProcFile::OverflowUid)
    } else if name == "overflowgid"@ {
        Some(ProcFile::OverflowGid)
    } else if name == "pid_max"@ {
        Some(ProcFile::PidMax)
    } else if name == "threads-max"@ {
        Some(ProcFile::ThreadsMax)
    } else {
        None
    }
}

/// The file of a name in [`ProcDir::SysFsInotifyDir`].
pub open spec fn sys_fs_inotify_file_named(name: Seq<char>) -> Option<ProcFile> {
    if name == "max_user_watches"@ {
        Some(ProcFile::InotifyMaxUserWatches)
    } else if name == "max_user_instances"@ {
        Some(ProcFile::InotifyMaxUserInstances)
    } else if name == "max_queued_events"@ {
        Some(ProcFile::InotifyMaxQueuedEvents)
    } else {
        None
    }
}

/// The file of a name in [`ProcDir::NetDir`].
pub open spec fn net_file_named(name: Seq<char>) -> Option<ProcFile> {
    if name == "dev"@ {
        Some(ProcFile::NetDev)
    } else if name == "route"@ {
        Some(ProcFile::NetRoute)
    } else {
        None
    }
}

/// The file of a name in [`ProcDir::LiteboxDir`].
pub open spec fn litebox_file_named(name: Seq<char>) -> Option<ProcFile> {
    if name == "counters"@ {
        Some(ProcFile::LiteboxCounters)
    } else {
        None
    }
}

/// The file of a fixed name in a directory. Descriptors and namespaces are named otherwise.
pub open spec fn file_in_dir(dir: ProcDir, name: Seq<char>) -> Option<ProcFile> {
    match dir {
        ProcDir::Root => root_file_named(name),
        ProcDir::SysKernelDir => sys_kernel_file_named(name),
        ProcDir::SysFsInotifyDir => sys_fs_inotify_file_named(name),
        ProcDir::NetDir => net_file_named(name),
        ProcDir::LiteboxDir => litebox_file_named(name),
        ProcDir::Pid(pid) => match pid_file_named(name) {
            Some(file) => Some(ProcFile::Pid(pid, file)),
            None => None,
        },
        ProcDir::Tid(pid, tid) => match pid_file_named(name) {
            Some(file) => Some(ProcFile::Tid(pid, tid, file)),
            None => None,
        },
        _ => None,
    }
}

/// The names of the files that a directory always holds, in the order in which they are listed.
pub open spec fn fixed_names(dir: ProcDir) -> Seq<Seq<char>> {
    match dir {
        ProcDir::Root => seq!["meminfo"@, "mounts"@, "stat"@, "cpuinfo"@, "version"@, "uptime"@],
        ProcDir::SysKernelDir => seq!["overflowuid"@, "overflowgid"@, "pid_max"@, "threads-max"@],
        ProcDir::SysFsInotifyDir => seq!["max_user_watches"@, "max_user_instances"@, "max_queued_events"@],
        ProcDir::NetDir => seq!["dev"@, "route"@],
        ProcDir::LiteboxDir => seq!["counters"@],
        _ => Seq::empty(),
    }
}

/// A magic link: its content is a target, and reading it is following it.
pub open spec fn is_link(file: ProcFile) -> bool {
    match file {
        ProcFile::FdLink(_, _) => true,
        ProcFile::NsUser(_) => true,
        ProcFile::NsNet(_) => true,
        ProcFile::Pid(_, PidFile::Exe) => true,
        ProcFile::Tid(_, _, PidFile::Exe) => true,
        _ => false,
    }
}

/// One of the three files through which a task configures a user namespace.
pub open spec fn configures_user_ns(file: PidFile) -> bool {
    file == PidFile::UidMap || file == PidFile::GidMap || file == PidFile::Setgroups
}

/// A file that can be written.
pub open spec fn is_writable(file: ProcFile) -> bool {
    match file {
        ProcFile::Pid(_, file) => configures_user_ns(file),
        ProcFile::Tid(_, _, file) => configures_user_ns(file),
        _ => false,
    }
}

/// Every file that a directory lists under a fixed name is found under that name, and it is no
/// link.
pub proof fn lemma_listed_files_are_found(dir: ProcDir, i: int)
    requires
        0 <= i < fixed_names(dir).len(),
    ensures
        file_in_dir(dir, fixed_names(dir)[i]) is Some,
        !is_link(file_in_dir(dir, fixed_names(dir)[i])->0),
{
}

/// A per-process file is found under the name under which it is listed.
pub proof fn lemma_pid_files_are_found(i: int)
    requires
        0 <= i < all_pid_files().len(),
    ensures
        pid_file_named(pid_file_name(all_pid_files()[i])) == Some(all_pid_files()[i]),
{
    reveal_strlit("stat");
    reveal_strlit("statm");
    reveal_strlit("status");
    reveal_strlit("cmdline");
    reveal_strlit("comm");
    reveal_strlit("exe");
    reveal_strlit("uid_map");
    reveal_strlit("gid_map");
    reveal_strlit("setgroups");
    reveal_strlit("auxv");
    reveal_strlit("maps");
    reveal_strlit("mem");
    assert("statm"@.len() != "stat"@.len());
    assert("status"@.len() != "stat"@.len());
    assert("status"@.len() != "statm"@.len());
    assert("cmdline"@.len() != "stat"@.len());
    assert("cmdline"@.len() != "statm"@.len());
    assert("cmdline"@.len() != "status"@.len());
    assert("comm"@[0] != "stat"@[0]);
    assert("comm"@.len() != "statm"@.len());
    assert("comm"@.len() != "status"@.len());
    assert("comm"@.len() != "cmdline"@.len());
    assert("exe"@.len() != "stat"@.len());
    assert("exe"@.len() != "statm"@.len());
    assert("exe"@.len() != "status"@.len());
    assert("exe"@.len() != "cmdline"@.len());
    assert("exe"@.len() != "comm"@.len());
    assert("uid_map"@.len() != "stat"@.len());
    assert("uid_map"@.len() != "statm"@.len());
    assert("uid_map"@.len() != "status"@.len());
    assert("uid_map"@[0] != "cmdline"@[0]);
    assert("uid_map"@.len() != "comm"@.len());
    assert("uid_map"@.len() != "exe"@.len());
    assert("gid_map"@.len() != "stat"@.len());
    assert("gid_map"@.len() != "statm"@.len());
    assert("gid_map"@.len() != "status"@.len());
    assert("gid_map"@[0] != "cmdline"@[0]);
    assert("gid_map"@.len() != "comm"@.len());
    assert("gid_map"@.len() != "exe"@.len());
    assert("gid_map"@[0] != "uid_map"@[0]);
    assert("setgroups"@.len() != "stat"@.len());
    assert("setgroups"@.len() != "statm"@.len());
    assert("setgroups"@.len() != "status"@.len());
    assert("setgroups"@.len() != "cmdline"@.len());
    assert("setgroups"@.len() != "comm"@.len());
    assert("setgroups"@.len() != "exe"@.len());
    assert("setgroups"@.len() != "uid_map"@.len());
    assert("setgroups"@.len() != "gid_map"@.len());
    assert("auxv"@[0] != "stat"@[0]);
    assert("auxv"@.len() != "statm"@.len());
    assert("auxv"@.len() != "status"@.len());
    assert("auxv"@.len() != "cmdline"@.len());
    assert("auxv"@[0] != "comm"@[0]);
    assert("auxv"@.len() != "exe"@.len());
    assert("auxv"@.len() != "uid_map"@.len());
    assert("auxv"@.len() != "gid_map"@.len());
    assert("auxv"@.len() != "setgroups"@.len());
    assert("maps"@[0] != "stat"@[0]);
    assert("maps"@.len() != "statm"@.len());
    assert("maps"@.len() != "status"@.len());
    assert("maps"@.len() != "cmdline"@.len());
    assert("maps"@[0] != "comm"@[0]);
    assert("maps"@.len() != "exe"@.len());
    assert("maps"@.len() != "uid_map"@.len());
    assert("maps"@.len() != "gid_map"@.len());
    assert("maps"@.len() != "setgroups"@.len());
    assert("maps"@[0] != "auxv"@[0]);
    assert("mem"@.len() != "stat"@.len());
    assert("mem"@.len() != "statm"@.len());
    assert("mem"@.len() != "status"@.len());
    assert("mem"@.len() != "cmdline"@.len());
    assert("mem"@.len() != "comm"@.len());
    assert("mem"@[0] != "exe"@[0]);
    assert("mem"@.len() != "uid_map"@.len());
    assert("mem"@.len() != "gid_map"@.len());
    assert("mem"@.len() != "setgroups"@.len());
    assert("mem"@.len() != "auxv"@.len());
    assert("mem"@.len() != "maps"@.len());
}

impl PidFile {
    /// The file of a name.
    pub fn named(name: &str) -> (file: Option<PidFile>)
        ensures
            file == pid_file_named(name@),
    {
        if is_text(name, "stat") {
            Some(PidFile::Stat)
        } else if is_text(name, "statm") {
            Some(PidFile::Statm)
        } else if is_text(name, "status") {
            Some(PidFile::Status)
        } else if is_text(name, "cmdline") {
            Some(PidFile::Cmdline)
        } else if is_text(name, "comm") {
            Some(PidFile::Comm)
        } else if is_text(name, "exe") {
            Some(PidFile::Exe)
        } else if is_text(name, "uid_map") {
            Some(PidFile::UidMap)
        } else if is_text(name, "gid_map") {
            Some(PidFile::GidMap)
        } else if is_text(name, "setgroups") {
            Some(PidFile::Setgroups)
        } else if is_text(name, "auxv") {
            Some(PidFile::Auxv)
        } else if is_text(name, "maps") {
            Some(PidFile::Maps)
        } else if is_text(name, "mem") {
            Some(PidFile::Mem)
        } else {
            None
        }
    }

    /// The name of the file.
    pub fn name(self) -> (name: &'static str)
        ensures
            name@ == pid_file_name(self),
    {
        match self {
            PidFile::Stat => "stat",
            PidFile::Statm => "statm",
            PidFile::Status => "status",
            PidFile::Cmdline => "cmdline",
            PidFile::Comm => "comm",
            PidFile::Exe => "exe",
            PidFile::UidMap => "uid_map",
            PidFile::GidMap => "gid_map",
            PidFile::Setgroups => "setgroups",
            PidFile::Auxv => "auxv",
            PidFile::Maps => "maps",
            PidFile::Mem => "mem",
        }
    }

    /// The file's place among the nodes of its process or thread.
    pub fn slot(self) -> (slot: u64)
        ensures
            slot == slot_of(self),
            slot < PID_INODE_STRIDE,
    {
        match self {
            PidFile::Stat => 1,
            PidFile::Statm => 2,
            PidFile::Status => 3,
            PidFile::Cmdline => 4,
            PidFile::Comm => 5,
            PidFile::Exe => 6,
            PidFile::UidMap => 10,
            PidFile::GidMap => 11,
            PidFile::Setgroups => 12,
            PidFile::Auxv => 16,
            PidFile::Maps => 17,
            PidFile::Mem => 18,
        }
    }

    /// What the file is.
    pub fn file_type(self) -> (file_type: FileType)
        ensures
            file_type == pid_file_type(self),
    {
        match self {
            PidFile::Exe => FileType::SymLink,
            _ => FileType::RegularFile,
        }
    }

    /// Whether a task configures a user namespace through the file.
    pub fn is_user_ns_file(self) -> (yes: bool)
        ensures
            yes == configures_user_ns(self),
    {
        match self {
            PidFile::UidMap => true,
            PidFile::GidMap => true,
            PidFile::Setgroups => true,
            _ => false,
        }
    }
}

impl ProcFile {
    fn root_named(name: &str) -> (file: Option<ProcFile>)
        ensures
            file == root_file_named(name@),
    {
        if is_text(name, "meminfo") {
            Some(ProcFile::Meminfo)
        } else if is_text(name, "mounts") {
            Some(ProcFile::Mounts)
        } else if is_text(name, "stat") {
            Some(ProcFile::StatSystem)
        } else if is_text(name, "cpuinfo") {
            Some(ProcFile::Cpuinfo)
        } else if is_text(name, "version") {
            Some(ProcFile::Version)
        } else if is_text(name, "uptime") {
            Some(ProcFile::Uptime)
        } else {
            None
        }
    }

    fn sys_kernel_named(name: &str) -> (file: Option<ProcFile>)
        ensures
            file == sys_kernel_file_named(name@),
    {
        if is_text(name, "overflowuid") {
            Some(ProcFile::OverflowUid)
        } else if is_text(name, "overflowgid") {
            Some(ProcFile::OverflowGid)
        } else if is_text(name, "pid_max") {
            Some(ProcFile::PidMax)
        } else if is_text(name, "threads-max") {
            Some(ProcFile::ThreadsMax)
        } else {
            None
        }
    }

    fn sys_fs_inotify_named(name: &str) -> (file: Option<ProcFile>)
        ensures
            file == sys_fs_inotify_file_named(name@),
    {
        if is_text(name, "max_user_watches") {
            Some(ProcFile::InotifyMaxUserWatches)
        } else if is_text(name, "max_user_instances") {
            Some(ProcFile::InotifyMaxUserInstances)
        } else if is_text(name, "max_queued_events") {
            Some(ProcFile::InotifyMaxQueuedEvents)
        } else {
            None
        }
    }

    fn net_named(name: &str) -> (file: Option<ProcFile>)
        ensures
            file == net_file_named(name@),
    {
        if is_text(name, "dev") {
            Some(ProcFile::NetDev)
        } else if is_text(name, "route") {
            Some(ProcFile::NetRoute)
        } else {
            None
        }
    }

    fn litebox_named(name: &str) -> (file: Option<ProcFile>)
        ensures
            file == litebox_file_named(name@),
    {
        if is_text(name, "counters") {
            Some(ProcFile::LiteboxCounters)
        } else {
            None
        }
    }

    /// The file of a fixed name in a directory.
    pub fn in_dir(dir: ProcDir, name: &str) -> (file: Option<ProcFile>)
        ensures
            file == file_in_dir(dir, name@),
    {
        match dir {
            ProcDir::Root => Self::root_named(name),
            ProcDir::SysKernelDir => Self::sys_kernel_named(name),
            ProcDir::SysFsInotifyDir => Self::sys_fs_inotify_named(name),
            ProcDir::NetDir => Self::net_named(name),
            ProcDir::LiteboxDir => Self::litebox_named(name),
            ProcDir::Pid(pid) => match PidFile::named(name) {
                Some(file) => Some(ProcFile::Pid(pid, file)),
                None => None,
            },
            ProcDir::Tid(pid, tid) => match PidFile::named(name) {
                Some(file) => Some(ProcFile::Tid(pid, tid, file)),
                None => None,
            },
            _ => None,
        }
    }

    /// Whether the file is a magic link.
    pub fn is_magic_link(self) -> (yes: bool)
        ensures
            yes == is_link(self),
    {
        match self {
            ProcFile::FdLink(_, _) => true,
            ProcFile::NsUser(_) => true,
            ProcFile::NsNet(_) => true,
            ProcFile::Pid(_, PidFile::Exe) => true,
            ProcFile::Tid(_, _, PidFile::Exe) => true,
            _ => false,
        }
    }

    /// Whether the file can be written.
    pub fn is_writable(self) -> (yes: bool)
        ensures
            yes == self::is_writable(self),
    {
        match self {
            ProcFile::Pid(_, file) => file.is_user_ns_file(),
            ProcFile::Tid(_, _, file) => file.is_user_ns_file(),
            _ => false,
        }
    }
}

/// The first node of the magic links to descriptors.
pub const FD_LINK_INODE_BASE: u64 = 0x10_0000;

/// The first node of the states of descriptors.
pub const FD_INFO_INODE_BASE: u64 = 0x20_0000;

/// The first node of the processes.
pub const PID_INODE_BASE: u64 = 0x1_0000_0000;

/// The first node of the threads, above that of any process.
pub const TID_INODE_BASE: u64 = 0x100_0000_0000;

/// The nodes that each process or thread has.
pub const PID_INODE_STRIDE: u64 = 64;

/// Places of the directories among the nodes of a process or thread.
pub const SLOT_DIR: u64 = 0;

pub const SLOT_FD_DIR: u64 = 7;

pub const SLOT_FDINFO_DIR: u64 = 8;

pub const SLOT_TASK_DIR: u64 = 9;

pub const SLOT_NS_DIR: u64 = 13;

pub const SLOT_NS_USER: u64 = 14;

pub const SLOT_NS_NET: u64 = 15;

/// A number without its sign.
pub open spec fn magnitude(value: int) -> int {
    if value < 0 {
        -value
    } else {
        value
    }
}

/// The node number of an entry of a process.
pub open spec fn pid_ino(pid: int, slot: int) -> int {
    PID_INODE_BASE + magnitude(pid) * PID_INODE_STRIDE + slot
}

/// The node number of an entry of a thread.
pub open spec fn tid_ino(tid: int, slot: int) -> int {
    TID_INODE_BASE + magnitude(tid) * PID_INODE_STRIDE + slot
}

/// Two entries of processes have the same node only if they are the same entry of the same process,
/// and so for threads; and an entry of a process never has the node of a thread's entry, nor one of
/// the numbers below the processes'.
pub proof fn lemma_nodes_are_apart(a: int, slot_a: int, b: int, slot_b: int)
    requires
        0 <= a <= i32::MAX,
        0 <= b <= i32::MAX,
        0 <= slot_a < PID_INODE_STRIDE,
        0 <= slot_b < PID_INODE_STRIDE,
    ensures
        pid_ino(a, slot_a) == pid_ino(b, slot_b) ==> a == b && slot_a == slot_b,
        tid_ino(a, slot_a) == tid_ino(b, slot_b) ==> a == b && slot_a == slot_b,
        pid_ino(a, slot_a) < tid_ino(b, slot_b),
        PID_INODE_BASE <= pid_ino(a, slot_a),
        tid_ino(a, slot_a) <= u64::MAX,
{
}

/// Descriptors up to the width of their window have nodes of their own, below the processes'.
pub proof fn lemma_descriptor_nodes_are_apart(a: int, b: int)
    requires
        0 <= a < FD_INFO_INODE_BASE - FD_LINK_INODE_BASE,
        0 <= b < FD_INFO_INODE_BASE - FD_LINK_INODE_BASE,
    ensures
        FD_LINK_INODE_BASE + a < FD_INFO_INODE_BASE + b < PID_INODE_BASE,
{
}

/// The entries of a process, files and directories alike, have different places.
pub proof fn lemma_slots_are_apart(a: PidFile, b: PidFile)
    ensures
        slot_of(a) == slot_of(b) ==> a == b,
        0 < slot_of(a) < PID_INODE_STRIDE,
        slot_of(a) != SLOT_FD_DIR && slot_of(a) != SLOT_FDINFO_DIR && slot_of(a) != SLOT_TASK_DIR
            && slot_of(a) != SLOT_NS_DIR && slot_of(a) != SLOT_NS_USER && slot_of(a) != SLOT_NS_NET,
{
}

} // verus!
