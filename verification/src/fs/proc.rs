//! A minimal procfs.
//!
//! It holds just enough for a guest's `df`, `free` and `ps`, and for the launcher of a large
//! program: `meminfo`, `mounts`, `stat`, `cpuinfo`, `version`, `uptime`, `net/`, `sys/`, and one
//! directory per live guest process with a subdirectory per live thread.
//!
//! The tree has no notion of a calling task. Ahead of every lookup whoever calls publishes the
//! calling task's own identity and descriptor table, which `self`, `thread-self` and the caller's
//! own numeric directory describe, and a [`ProcTaskTable`] through which every other live process
//! is looked up. The descriptor directories are only populated for the caller's own process.
//!
//! Content is computed afresh on every read.
use crate::fs::{InodeAllocator, NodeInfo, WriteError};
use vstd::prelude::*;

pub mod content;
pub mod laws;
pub mod listing;
pub mod lookup;
pub mod open;
pub mod readonly;
pub mod render;
pub mod status;
pub mod tree;
pub mod walk;

verus! {

use crate::fs::node;

/// Total "physical memory" reported, in bytes.
pub const SYNTHETIC_TOTAL_RAM_BYTES: u64 = 0x1_0000_0000;

/// Free "physical memory" reported, in bytes.
pub const SYNTHETIC_FREE_RAM_BYTES: u64 = 0x8000_0000;

/// The kernel release string.
pub const SYNTHETIC_KERNEL_RELEASE: &'static str = "5.11.0";

/// Number of logical CPUs reported.
pub const SYNTHETIC_NUM_CPUS: u64 = 2;

/// One live descriptor of the task that the descriptor directory describes.
#[derive(Debug)]
pub struct ProcFdEntry {
    /// The text of the magic link: the path the file was opened by when one is known, else the
    /// kernel's spelling for a socket, a pipe or an anonymous inode.
    pub target: String,
    /// Current file offset.
    pub pos: u64,
    /// Open file status and access-mode flags.
    pub flags: u32,
    /// Inode of the open file.
    pub ino: u64,
}

/// A task's open descriptor table.
pub trait ProcFdTable {
    /// Live descriptor numbers, ascending.
    fn fds(&self) -> (fds: Vec<u32>);

    /// Describes one live descriptor, or `None` when `fd` is not open.
    fn entry(&self, fd: u32) -> (entry: Option<ProcFdEntry>);
}

/// One memory area of a process, as the map of its address space describes it.
#[derive(Clone, Copy, Debug)]
pub struct ProcMapEntry {
    /// First guest virtual address covered by this mapping.
    pub start: usize,
    /// One past the last guest virtual address covered by this mapping.
    pub end: usize,
    pub read: bool,
    pub write: bool,
    pub execute: bool,
    pub shared: bool,
    /// The bracketed pseudo-path of a special region.
    pub name: Option<&'static str>,
}

/// The memory areas of live guest processes.
pub trait ProcMemMap {
    /// Every live mapping of process `pid`'s own address space, ascending by start address. Empty
    /// when there is no such process, or it may not be looked at.
    fn maps(&self, pid: i32) -> (maps: Vec<ProcMapEntry>);
}

/// The memory of live guest processes.
pub trait ProcMemAccess {
    /// Up to `len` bytes of process `pid`'s own memory from guest virtual address `addr` on, ending
    /// at the first unreadable page. `None` when the first page is unreadable already, when there is
    /// no such process, or it may not be looked at.
    fn read_mem(&self, pid: i32, addr: usize, len: usize) -> (bytes: Option<Vec<u8>>);
}

/// The calling task's own user namespace.
pub trait ProcUserNs {
    /// Not zero, and distinct for each namespace, once the caller has one of its own.
    fn instance_id(&self) -> (id: u64);

    fn read_setgroups(&self) -> (content: Vec<u8>);

    fn write_setgroups(&self, data: &[u8]) -> (result: Result<usize, WriteError>);

    fn read_uid_map(&self) -> (content: Vec<u8>);

    fn write_uid_map(&self, data: &[u8]) -> (result: Result<usize, WriteError>);

    fn read_gid_map(&self) -> (content: Vec<u8>);

    fn write_gid_map(&self, data: &[u8]) -> (result: Result<usize, WriteError>);
}

/// The calling task's own network namespace.
pub trait ProcNetNs {
    /// Not zero, and distinct for each namespace, once the caller has one of its own.
    fn instance_id(&self) -> (id: u64);
}

/// A snapshot of diagnostic counters.
pub trait ProcCounters {
    /// The whole snapshot, as JSON.
    fn snapshot_json(&self) -> (text: String);
}

/// How system calls of a task are filtered. Strict mode does not occur.
#[derive(Clone, Copy, Debug, PartialEq, Eq, Structural)]
pub enum SeccompMode {
    Disabled,
    Filter,
}

impl SeccompMode {
    /// The number that Linux prints for the mode.
    pub open spec fn spec_number(self) -> nat {
        match self {
            SeccompMode::Disabled => 0,
            SeccompMode::Filter => 2,
        }
    }

    /// The number that Linux prints for the mode.
    pub fn number(self) -> (number: u8)
        ensures
            number == self.spec_number(),
    {
        match self {
            SeccompMode::Disabled => 0,
            SeccompMode::Filter => 2,
        }
    }
}

/// One task's own security state. Two threads of one process can differ.
#[derive(Clone, Copy, Debug, PartialEq, Eq, Structural)]
pub struct SecurityStatusSnapshot {
    pub no_new_privs: bool,
    pub seccomp_mode: SeccompMode,
    /// The number of filters attached to the task.
    pub seccomp_filter_count: u32,
}

/// A task without any restriction.
pub open spec fn no_security() -> SecurityStatusSnapshot {
    SecurityStatusSnapshot {
        no_new_privs: false,
        seccomp_mode: SeccompMode::Disabled,
        seccomp_filter_count: 0,
    }
}

/// One task's scheduling state.
#[derive(Clone, Copy, Debug, PartialEq, Eq, Structural)]
pub enum ProcTaskState {
    Running,
    Sleeping,
    TracingStop,
    Zombie,
}

/// The single letter for a state.
pub open spec fn state_code(state: ProcTaskState) -> char {
    match state {
        ProcTaskState::Running => 'R',
        ProcTaskState::Sleeping => 'S',
        ProcTaskState::TracingStop => 't',
        ProcTaskState::Zombie => 'Z',
    }
}

/// The letter for a state, with its name.
pub open spec fn state_label(state: ProcTaskState) -> Seq<char> {
    match state {
        ProcTaskState::Running => "R (running)"@,
        ProcTaskState::Sleeping => "S (sleeping)"@,
        ProcTaskState::TracingStop => "t (tracing stop)"@,
        ProcTaskState::Zombie => "Z (zombie)"@,
    }
}

impl ProcTaskState {
    /// The single letter for a state.
    pub fn code(self) -> (code: char)
        ensures
            code == state_code(self),
    {
        match self {
            ProcTaskState::Running => 'R',
            ProcTaskState::Sleeping => 'S',
            ProcTaskState::TracingStop => 't',
            ProcTaskState::Zombie => 'Z',
        }
    }

    /// The letter for a state, with its name.
    pub fn label(self) -> (label: &'static str)
        ensures
            label@ == state_label(self),
    {
        match self {
            ProcTaskState::Running => "R (running)",
            ProcTaskState::Sleeping => "S (sleeping)",
            ProcTaskState::TracingStop => "t (tracing stop)",
            ProcTaskState::Zombie => "Z (zombie)",
        }
    }
}

/// One live thread of a process.
#[derive(Debug)]
pub struct ProcThreadInfo {
    pub tid: i32,
    /// The thread's command name, without trailing NULs.
    pub comm: Vec<u8>,
    pub security: SecurityStatusSnapshot,
    pub state: ProcTaskState,
}

/// The mathematical value of a thread.
#[verifier::ext_equal]
pub struct ThreadModel {
    pub tid: i32,
    pub comm: Seq<u8>,
    pub security: SecurityStatusSnapshot,
    pub state: ProcTaskState,
}

impl View for ProcThreadInfo {
    type V = ThreadModel;

    open spec fn view(&self) -> ThreadModel {
        ThreadModel {
            tid: self.tid,
            comm: self.comm@,
            security: self.security,
            state: self.state,
        }
    }
}

impl Clone for ProcThreadInfo {
    fn clone(&self) -> (copy: Self)
        ensures
            copy@ == self@,
    {
        let comm = copied(&self.comm);
        ProcThreadInfo { tid: self.tid, comm, security: self.security, state: self.state }
    }
}

/// A copy of plain values.
pub(crate) fn copied<T: Copy>(list: &Vec<T>) -> (copy: Vec<T>)
    ensures
        copy@ == list@,
{
    let mut copy: Vec<T> = Vec::new();
    let mut i: usize = 0;
    while i < list.len()
        invariant
            i <= list@.len(),
            copy@ == list@.take(i as int),
        decreases list@.len() - i,
    {
        copy.push(list[i]);
        proof {
            assert(list@.take(i + 1) =~= list@.take(i as int).push(list@[i as int]));
        }
        i += 1;
    }
    proof {
        assert(list@.take(i as int) =~= list@);
    }
    copy
}

/// Identity of one guest process. Every process number in it is one of the calling task's own
/// process namespace, or 0 for what lies outside that.
#[derive(Debug)]
pub struct ProcTaskInfo {
    pub pid: i32,
    pub ppid: i32,
    pub pgid: i32,
    pub sid: i32,
    pub uid: u32,
    pub gid: u32,
    /// Supplementary group ids, ascending.
    pub groups: Vec<u32>,
    /// The state of the thread-group leader.
    pub state: ProcTaskState,
    /// The leader's command name, without trailing NULs.
    pub comm: Vec<u8>,
    /// The NUL-separated and NUL-terminated argument vector.
    pub cmdline: Vec<u8>,
    /// The absolute path of the program image, if one is known.
    pub exe: Option<String>,
    /// Every live thread, ascending by number.
    pub threads: Vec<ProcThreadInfo>,
    /// This process's own number at every namespace level below the caller's, outermost first.
    pub ns_pids: Vec<i32>,
    /// The auxiliary vector.
    pub auxv: Vec<(usize, usize)>,
    /// The security state of the leader.
    pub leader_security: SecurityStatusSnapshot,
}

/// The mathematical value of a process.
#[verifier::ext_equal]
pub struct TaskModel {
    pub pid: i32,
    pub ppid: i32,
    pub pgid: i32,
    pub sid: i32,
    pub uid: u32,
    pub gid: u32,
    pub groups: Seq<u32>,
    pub state: ProcTaskState,
    pub comm: Seq<u8>,
    pub cmdline: Seq<u8>,
    pub exe: Option<Seq<char>>,
    pub threads: Seq<ThreadModel>,
    pub ns_pids: Seq<i32>,
    pub auxv: Seq<(usize, usize)>,
    pub leader_security: SecurityStatusSnapshot,
}

/// Threads, as mathematical values.
pub open spec fn thread_models(list: Seq<ProcThreadInfo>) -> Seq<ThreadModel> {
    Seq::new(list.len(), |i: int| list[i]@)
}

/// A text that may be missing.
pub open spec fn text_model(text: Option<String>) -> Option<Seq<char>> {
    match text {
        Some(text) => Some(text@),
        None => None,
    }
}

impl View for ProcTaskInfo {
    type V = TaskModel;

    open spec fn view(&self) -> TaskModel {
        TaskModel {
            pid: self.pid,
            ppid: self.ppid,
            pgid: self.pgid,
            sid: self.sid,
            uid: self.uid,
            gid: self.gid,
            groups: self.groups@,
            state: self.state,
            comm: self.comm@,
            cmdline: self.cmdline@,
            exe: text_model(self.exe),
            threads: thread_models(self.threads@),
            ns_pids: self.ns_pids@,
            auxv: self.auxv@,
            leader_security: self.leader_security,
        }
    }
}

/// A process that is there or not.
pub open spec fn task_model(task: Option<ProcTaskInfo>) -> Option<TaskModel> {
    match task {
        Some(task) => Some(task@),
        None => None,
    }
}

impl Clone for ProcTaskInfo {
    fn clone(&self) -> (copy: Self)
        ensures
            copy@ == self@,
    {
        let mut threads: Vec<ProcThreadInfo> = Vec::new();
        let ghost all = thread_models(self.threads@);
        let mut i: usize = 0;
        proof {
            assert(thread_models(threads@) =~= all.take(0));
        }
        while i < self.threads.len()
            invariant
                i <= self.threads@.len(),
                all == thread_models(self.threads@),
                thread_models(threads@) == all.take(i as int),
            decreases self.threads@.len() - i,
        {
            let ghost before = thread_models(threads@);
            let thread = self.threads[i].clone();
            threads.push(thread);
            proof {
                assert(thread_models(threads@) =~= before.push(all[i as int]));
                assert(all.take(i + 1) =~= all.take(i as int).push(all[i as int]));
            }
            i += 1;
        }
        proof {
            assert(all.take(i as int) =~= all);
        }
        let exe: Option<String> = match &self.exe {
            Some(path) => Some(path.clone()),
            None => None,
        };
        ProcTaskInfo {
            pid: self.pid,
            ppid: self.ppid,
            pgid: self.pgid,
            sid: self.sid,
            uid: self.uid,
            gid: self.gid,
            groups: copied(&self.groups),
            state: self.state,
            comm: copied(&self.comm),
            cmdline: copied(&self.cmdline),
            exe,
            threads,
            ns_pids: copied(&self.ns_pids),
            auxv: copied(&self.auxv),
            leader_security: self.leader_security,
        }
    }
}

/// A process of which nothing is known.
pub open spec fn no_task() -> TaskModel {
    TaskModel {
        pid: 0,
        ppid: 0,
        pgid: 0,
        sid: 0,
        uid: 0,
        gid: 0,
        groups: Seq::empty(),
        state: ProcTaskState::Running,
        comm: Seq::empty(),
        cmdline: Seq::empty(),
        exe: None,
        threads: Seq::empty(),
        ns_pids: Seq::empty(),
        auxv: Seq::empty(),
        leader_security: no_security(),
    }
}

impl Default for ProcTaskInfo {
    fn default() -> (task: Self)
        ensures
            task@ == no_task(),
    {
        let task = ProcTaskInfo {
            pid: 0,
            ppid: 0,
            pgid: 0,
            sid: 0,
            uid: 0,
            gid: 0,
            groups: Vec::new(),
            state: ProcTaskState::Running,
            comm: Vec::new(),
            cmdline: Vec::new(),
            exe: None,
            threads: Vec::new(),
            ns_pids: Vec::new(),
            auxv: Vec::new(),
            leader_security: SecurityStatusSnapshot {
                no_new_privs: false,
                seccomp_mode: SeccompMode::Disabled,
                seccomp_filter_count: 0,
            },
        };
        proof {
            assert(task@ =~= no_task());
        }
        task
    }
}

/// Every live guest process other than the caller.
pub trait ProcTaskTable {
    /// Every live or zombie guest process that the caller can see, ascending.
    fn pids(&self) -> (pids: Vec<i32>);

    /// Identity of process `pid`, or `None` when the caller can see no such process.
    fn task(&self, pid: i32) -> (task: Option<ProcTaskInfo>);
}

/// Where a procfs gets what it shows.
pub trait ProcSources {
    type Tasks: ProcTaskTable;

    type Fds: ProcFdTable;

    type UserNs: ProcUserNs;

    type NetNs: ProcNetNs;

    type MemMap: ProcMemMap;

    type MemAccess: ProcMemAccess;

    type Counters: ProcCounters;
}

/// The nodes of the entries that are always there.
#[derive(Clone, Copy, Debug, PartialEq, Eq, Structural)]
pub struct ProcNodes {
    pub root: NodeInfo,
    pub sys_dir: NodeInfo,
    pub litebox_dir: NodeInfo,
    pub litebox_counters: NodeInfo,
    pub sys_kernel_dir: NodeInfo,
    pub sys_fs_dir: NodeInfo,
    pub sys_fs_inotify_dir: NodeInfo,
    pub inotify_max_user_watches: NodeInfo,
    pub inotify_max_user_instances: NodeInfo,
    pub inotify_max_queued_events: NodeInfo,
    pub meminfo: NodeInfo,
    pub mounts: NodeInfo,
    pub stat_system: NodeInfo,
    pub cpuinfo: NodeInfo,
    pub version: NodeInfo,
    pub uptime: NodeInfo,
    pub overflowuid: NodeInfo,
    pub overflowgid: NodeInfo,
    pub pid_max: NodeInfo,
    pub threads_max: NodeInfo,
    pub net_dir: NodeInfo,
    pub net_dev: NodeInfo,
    pub net_route: NodeInfo,
}

/// The nodes, numbered in a row.
pub open spec fn fresh_nodes(dev: usize, first: int) -> ProcNodes {
    ProcNodes {
        root: node(dev, first),
        sys_dir: node(dev, first + 1),
        litebox_dir: node(dev, first + 2),
        litebox_counters: node(dev, first + 3),
        sys_kernel_dir: node(dev, first + 4),
        sys_fs_dir: node(dev, first + 5),
        sys_fs_inotify_dir: node(dev, first + 6),
        inotify_max_user_watches: node(dev, first + 7),
        inotify_max_user_instances: node(dev, first + 8),
        inotify_max_queued_events: node(dev, first + 9),
        meminfo: node(dev, first + 10),
        mounts: node(dev, first + 11),
        stat_system: node(dev, first + 12),
        cpuinfo: node(dev, first + 13),
        version: node(dev, first + 14),
        uptime: node(dev, first + 15),
        overflowuid: node(dev, first + 16),
        overflowgid: node(dev, first + 17),
        pid_max: node(dev, first + 18),
        threads_max: node(dev, first + 19),
        net_dir: node(dev, first + 20),
        net_dev: node(dev, first + 21),
        net_route: node(dev, first + 22),
    }
}

/// A minimal, computed procfs.
pub struct Proc<S: ProcSources> {
    pub nodes: ProcNodes,
    /// The calling thread.
    pub caller_tid: i32,
    /// The calling process.
    pub caller: ProcTaskInfo,
    pub tasks: Option<S::Tasks>,
    pub fds: Option<S::Fds>,
    /// Interface and gateway addresses.
    pub net_addrs: ([u8; 4], [u8; 4]),
    /// Seconds of guest uptime.
    pub uptime_secs: u64,
    pub user_ns: Option<S::UserNs>,
    pub net_ns: Option<S::NetNs>,
    pub mem_map: Option<S::MemMap>,
    pub mem_access: Option<S::MemAccess>,
    pub counters: Option<S::Counters>,
}

impl<S: ProcSources> Proc<S> {
    /// A procfs with nothing published yet. The addresses are what the routing table shows until
    /// others are published.
    pub fn new(allocator: &mut InodeAllocator, interface_ip: [u8; 4], gateway_ip: [u8; 4]) -> (proc: Self)
        requires
            old(allocator).upcoming + 23 <= u64::MAX,
        ensures
            proc.nodes == fresh_nodes(old(allocator).dev, old(allocator).upcoming as int),
            final(allocator).dev == old(allocator).dev,
            final(allocator).upcoming == old(allocator).upcoming + 23,
            proc.caller_tid == 0,
            proc.caller@ == no_task(),
            proc.tasks is None,
            proc.fds is None,
            proc.net_addrs == (interface_ip, gateway_ip),
            proc.uptime_secs == 0,
            proc.user_ns is None,
            proc.net_ns is None,
            proc.mem_map is None,
            proc.mem_access is None,
            proc.counters is None,
    {
        let nodes = ProcNodes {
            root: allocator.next(),
            sys_dir: allocator.next(),
            litebox_dir: allocator.next(),
            litebox_counters: allocator.next(),
            sys_kernel_dir: allocator.next(),
            sys_fs_dir: allocator.next(),
            sys_fs_inotify_dir: allocator.next(),
            inotify_max_user_watches: allocator.next(),
            inotify_max_user_instances: allocator.next(),
            inotify_max_queued_events: allocator.next(),
            meminfo: allocator.next(),
            mounts: allocator.next(),
            stat_system: allocator.next(),
            cpuinfo: allocator.next(),
            version: allocator.next(),
            uptime: allocator.next(),
            overflowuid: allocator.next(),
            overflowgid: allocator.next(),
            pid_max: allocator.next(),
            threads_max: allocator.next(),
            net_dir: allocator.next(),
            net_dev: allocator.next(),
            net_route: allocator.next(),
        };
        Proc {
            nodes,
            caller_tid: 0,
            caller: ProcTaskInfo::default(),
            tasks: None,
            fds: None,
            net_addrs: (interface_ip, gateway_ip),
            uptime_secs: 0,
            user_ns: None,
            net_ns: None,
            mem_map: None,
            mem_access: None,
            counters: None,
        }
    }

    /// Publishes the calling task: thread `tid` of the process that `info` describes.
    pub fn set_caller(&mut self, tid: i32, info: ProcTaskInfo)
        ensures
            *final(self) == (Proc { caller_tid: tid, caller: info, ..*old(self) }),
    {
        self.caller_tid = tid;
        self.caller = info;
    }

    /// Publishes the table through which every other process is looked up.
    pub fn set_task_table(&mut self, table: S::Tasks)
        ensures
            *final(self) == (Proc { tasks: Some(table), ..*old(self) }),
    {
        self.tasks = Some(table);
    }

    /// Publishes the calling task's descriptor table.
    pub fn set_fd_table(&mut self, table: S::Fds)
        ensures
            *final(self) == (Proc { fds: Some(table), ..*old(self) }),
    {
        self.fds = Some(table);
    }

    /// Publishes the calling task's own user namespace.
    pub fn set_user_ns(&mut self, handle: S::UserNs)
        ensures
            *final(self) == (Proc { user_ns: Some(handle), ..*old(self) }),
    {
        self.user_ns = Some(handle);
    }

    /// Publishes the calling task's own network namespace.
    pub fn set_net_ns(&mut self, handle: S::NetNs)
        ensures
            *final(self) == (Proc { net_ns: Some(handle), ..*old(self) }),
    {
        self.net_ns = Some(handle);
    }

    /// Publishes the provider of the diagnostic counters.
    pub fn set_counters(&mut self, handle: S::Counters)
        ensures
            *final(self) == (Proc { counters: Some(handle), ..*old(self) }),
    {
        self.counters = Some(handle);
    }

    /// Publishes the memory areas of processes.
    pub fn set_mem_map(&mut self, handle: S::MemMap)
        ensures
            *final(self) == (Proc { mem_map: Some(handle), ..*old(self) }),
    {
        self.mem_map = Some(handle);
    }

    /// Publishes the memory of processes.
    pub fn set_mem_access(&mut self, handle: S::MemAccess)
        ensures
            *final(self) == (Proc { mem_access: Some(handle), ..*old(self) }),
    {
        self.mem_access = Some(handle);
    }

    /// Publishes the interface and default-gateway addresses.
    pub fn set_net_addrs(&mut self, interface_ip: [u8; 4], gateway_ip: [u8; 4])
        ensures
            *final(self) == (Proc { net_addrs: (interface_ip, gateway_ip), ..*old(self) }),
    {
        self.net_addrs = (interface_ip, gateway_ip);
    }

    /// Publishes the guest's uptime in seconds.
    pub fn set_uptime(&mut self, seconds: u64)
        ensures
            *final(self) == (Proc { uptime_secs: seconds, ..*old(self) }),
    {
        self.uptime_secs = seconds;
    }
}

} // verus!
