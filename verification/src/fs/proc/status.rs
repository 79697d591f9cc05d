//! What is known of files without reading them, and how many directories a directory holds.
use crate::fs::proc::tree::{
    PidFile, ProcFile, FD_INFO_INODE_BASE, FD_LINK_INODE_BASE, SLOT_NS_NET, SLOT_NS_USER,
};
use crate::fs::proc::walk::{
    EXE_LINK_MODE, FD_LINK_MODE, NS_LINK_MODE, OWNER_ONLY_FILE_MODE, READONLY_FILE_MODE,
    USER_NS_FILE_MODE,
};
use crate::fs::proc::{Proc, ProcSources};
use crate::fs::text::{is_text, parse_pid};
use crate::fs::{FileStatus, FileType, NodeInfo, Timestamp, UserInfo};
use vstd::prelude::*;

verus! {

use crate::fs::epoch;
use crate::fs::proc::content::{linked, target_model};
use crate::fs::proc::lookup::{
    fd_node_of, owner_found, pair_model, pid_node_of, pids_listed, task_found, thread_found,
    tid_node_of,
};
use crate::fs::proc::tree::{configures_user_ns, is_link, slot_of};
use crate::fs::proc::walk::{holder_found, texts};
use crate::fs::proc::{task_model, TaskModel, ThreadModel};
use crate::fs::text::{bytes_of, pid_value};

/// The mode of one of the files of a process or thread.
pub open spec fn kind_mode(kind: PidFile) -> u32 {
    if kind == PidFile::Exe {
        EXE_LINK_MODE
    } else if configures_user_ns(kind) {
        USER_NS_FILE_MODE
    } else if kind == PidFile::Mem {
        OWNER_ONLY_FILE_MODE
    } else {
        READONLY_FILE_MODE
    }
}

/// The mode of a file, and the process whose user owns it, if it is not the superuser's.
pub open spec fn status_rights(file: ProcFile) -> (u32, Option<i32>) {
    match file {
        ProcFile::Pid(pid, kind) => (kind_mode(kind), Some(pid)),
        ProcFile::Tid(pid, _, kind) => (kind_mode(kind), Some(pid)),
        ProcFile::FdLink(pid, _) => (FD_LINK_MODE, Some(pid)),
        ProcFile::FdInfo(pid, _) => (OWNER_ONLY_FILE_MODE, Some(pid)),
        ProcFile::NsUser(pid) => (NS_LINK_MODE, Some(pid)),
        ProcFile::NsNet(pid) => (NS_LINK_MODE, Some(pid)),
        _ => (READONLY_FILE_MODE, None),
    }
}

/// The node of a file.
pub open spec fn file_node<S: ProcSources>(proc: &Proc<S>, file: ProcFile) -> NodeInfo {
    match file {
        ProcFile::Meminfo => proc.nodes.meminfo,
        ProcFile::Mounts => proc.nodes.mounts,
        ProcFile::StatSystem => proc.nodes.stat_system,
        ProcFile::Cpuinfo => proc.nodes.cpuinfo,
        ProcFile::Version => proc.nodes.version,
        ProcFile::Uptime => proc.nodes.uptime,
        ProcFile::OverflowUid => proc.nodes.overflowuid,
        ProcFile::OverflowGid => proc.nodes.overflowgid,
        ProcFile::PidMax => proc.nodes.pid_max,
        ProcFile::ThreadsMax => proc.nodes.threads_max,
        ProcFile::InotifyMaxUserWatches => proc.nodes.inotify_max_user_watches,
        ProcFile::InotifyMaxUserInstances => proc.nodes.inotify_max_user_instances,
        ProcFile::InotifyMaxQueuedEvents => proc.nodes.inotify_max_queued_events,
        ProcFile::Pid(pid, kind) => pid_node_of(proc, pid, slot_of(kind)),
        ProcFile::Tid(_, tid, kind) => tid_node_of(proc, tid, slot_of(kind)),
        ProcFile::NetDev => proc.nodes.net_dev,
        ProcFile::NetRoute => proc.nodes.net_route,
        ProcFile::LiteboxCounters => proc.nodes.litebox_counters,
        ProcFile::FdLink(_, fd) => fd_node_of(proc, FD_LINK_INODE_BASE, fd),
        ProcFile::FdInfo(_, fd) => fd_node_of(proc, FD_INFO_INODE_BASE, fd),
        ProcFile::NsUser(pid) => pid_node_of(proc, pid, SLOT_NS_USER as int),
        ProcFile::NsNet(pid) => pid_node_of(proc, pid, SLOT_NS_NET as int),
    }
}

/// The size that a file reports: a link is as long as its target, anything else reports none, since
/// its content is only computed when it is read.
pub open spec fn reported_size(target: Option<Seq<char>>) -> usize {
    match target {
        Some(target) => bytes_of(target).len() as usize,
        None => 0,
    }
}

/// What a file reports of itself, given where it leads if it is a link, and its owner.
pub open spec fn status_of<S: ProcSources>(
    proc: &Proc<S>,
    file: ProcFile,
    target: Option<Seq<char>>,
    owner: UserInfo,
) -> FileStatus {
    FileStatus {
        file_type: if is_link(file) {
            FileType::SymLink
        } else {
            FileType::RegularFile
        },
        mode: status_rights(file).0,
        size: reported_size(target),
        owner,
        node_info: file_node(proc, file),
        blksize: 0,
        atime: epoch(),
        mtime: epoch(),
        ctime: epoch(),
    }
}

/// What a file reports of itself was looked up.
pub open spec fn status_found<S: ProcSources>(proc: &Proc<S>, file: ProcFile, status: FileStatus) -> bool {
    exists|target: Option<Seq<char>>| #[trigger]
        linked(proc, file, target) && holder_found(proc, status_rights(file).1, status.owner)
            && status == status_of(proc, file, target, status.owner)
}

/// The links of a directory: its own two, and one for each directory in it.
pub open spec fn links(count: nat) -> u64 {
    if count + 2 > u64::MAX {
        u64::MAX
    } else {
        (count + 2) as u64
    }
}

/// The links of a process's directory, or of one in it, given the process.
pub open spec fn task_links<S: ProcSources>(
    proc: &Proc<S>,
    pid: i32,
    task: Option<TaskModel>,
    rest: Seq<Seq<char>>,
    count: Option<u64>,
) -> bool {
    if task is None {
        count is None
    } else if rest.len() == 0 {
        count == Some(links(4))
    } else if rest.len() == 1 && (rest[0] == "fd"@ || rest[0] == "fdinfo"@ || rest[0] == "ns"@) {
        count == Some(links(0))
    } else if rest.len() == 1 && rest[0] == "task"@ {
        count == Some(links(task->0.threads.len()))
    } else if rest.len() == 2 && rest[0] == "task"@ {
        thread_links(proc, pid, pid_value(rest[1]), count)
    } else {
        count is None
    }
}

/// The links of a thread's directory, if a name spells a live thread of a process.
pub open spec fn thread_links<S: ProcSources>(
    proc: &Proc<S>,
    pid: i32,
    tid: Option<i32>,
    count: Option<u64>,
) -> bool {
    match tid {
        Some(tid) => exists|found: Option<(TaskModel, ThreadModel)>| #[trigger]
            thread_found(proc, pid, tid, found) && count == (if found is Some {
                Some(links(0))
            } else {
                None
            }),
        None => count is None,
    }
}

/// The links of a process's directory, or of one in it.
pub open spec fn pid_links<S: ProcSources>(
    proc: &Proc<S>,
    pid: i32,
    rest: Seq<Seq<char>>,
    count: Option<u64>,
) -> bool {
    exists|task: Option<TaskModel>| #[trigger]
        task_found(proc, pid, task) && task_links(proc, pid, task, rest, count)
}

/// The links of a thread's own directory at the root of the tree.
pub open spec fn bare_thread_links<S: ProcSources>(proc: &Proc<S>, tid: i32, count: Option<u64>) -> bool {
    exists|owner: Option<i32>| #[trigger]
        owner_found(proc, tid, owner) && match owner {
            Some(pid) => thread_links(proc, pid, Some(tid), count),
            None => count is None,
        }
}

/// The links of a directory that a number at the root of the tree names: a process's, or a
/// thread's.
pub open spec fn number_links<S: ProcSources>(
    proc: &Proc<S>,
    number: i32,
    rest: Seq<Seq<char>>,
    count: Option<u64>,
) -> bool {
    exists|task: Option<TaskModel>| #[trigger]
        task_found(proc, number, task) && if task is Some {
            task_links(proc, number, task, rest, count)
        } else if rest.len() == 0 {
            bare_thread_links(proc, number, count)
        } else {
            count is None
        }
}

/// The links of the root of the tree: one for each process, and three for the directories that are
/// always there.
pub open spec fn root_links<S: ProcSources>(proc: &Proc<S>, count: Option<u64>) -> bool {
    exists|pids: Seq<i32>| #[trigger]
        pids_listed(proc, pids) && count == Some(links(pids.len() + 3))
}

/// The links of the directory at a path were counted.
pub open spec fn links_counted<S: ProcSources>(
    proc: &Proc<S>,
    names: Seq<Seq<char>>,
    count: Option<u64>,
) -> bool {
    if names.len() == 0 {
        root_links(proc, count)
    } else if names.len() == 1 && names[0] == "sys"@ {
        count == Some(links(2))
    } else if names.len() == 2 && names[0] == "sys"@ && names[1] == "fs"@ {
        count == Some(links(1))
    } else if names.len() == 2 && names[0] == "sys"@ && names[1] == "kernel"@ {
        count == Some(links(0))
    } else if names.len() == 3 && names[0] == "sys"@ && names[1] == "fs"@ && names[2] == "inotify"@ {
        count == Some(links(0))
    } else if names.len() == 1 && (names[0] == "net"@ || names[0] == "litebox"@ || names[0]
        == "thread-self"@) {
        count == Some(links(0))
    } else if names[0] == "self"@ {
        pid_links(proc, proc.caller@.pid, names.drop_first(), count)
    } else {
        match pid_value(names[0]) {
            Some(number) => number_links(proc, number, names.drop_first(), count),
            None => count is None,
        }
    }
}

impl<S: ProcSources> Proc<S> {
    /// The node of a file.
    pub fn node_of(&self, file: ProcFile) -> (result: NodeInfo)
        ensures
            result == file_node(self, file),
    {
        match file {
            ProcFile::Meminfo => self.nodes.meminfo,
            ProcFile::Mounts => self.nodes.mounts,
            ProcFile::StatSystem => self.nodes.stat_system,
            ProcFile::Cpuinfo => self.nodes.cpuinfo,
            ProcFile::Version => self.nodes.version,
            ProcFile::Uptime => self.nodes.uptime,
            ProcFile::OverflowUid => self.nodes.overflowuid,
            ProcFile::OverflowGid => self.nodes.overflowgid,
            ProcFile::PidMax => self.nodes.pid_max,
            ProcFile::ThreadsMax => self.nodes.threads_max,
            ProcFile::InotifyMaxUserWatches => self.nodes.inotify_max_user_watches,
            ProcFile::InotifyMaxUserInstances => self.nodes.inotify_max_user_instances,
            ProcFile::InotifyMaxQueuedEvents => self.nodes.inotify_max_queued_events,
            ProcFile::Pid(pid, kind) => self.pid_node(pid, kind.slot()),
            ProcFile::Tid(_, tid, kind) => self.tid_node(tid, kind.slot()),
            ProcFile::NetDev => self.nodes.net_dev,
            ProcFile::NetRoute => self.nodes.net_route,
            ProcFile::LiteboxCounters => self.nodes.litebox_counters,
            ProcFile::FdLink(_, fd) => self.fd_node(FD_LINK_INODE_BASE, fd),
            ProcFile::FdInfo(_, fd) => self.fd_node(FD_INFO_INODE_BASE, fd),
            ProcFile::NsUser(pid) => self.pid_node(pid, SLOT_NS_USER),
            ProcFile::NsNet(pid) => self.pid_node(pid, SLOT_NS_NET),
        }
    }

    /// The mode of one of the files of a process or thread.
    fn mode_of(kind: PidFile) -> (mode: u32)
        ensures
            mode == kind_mode(kind),
    {
        if kind == PidFile::Exe {
            EXE_LINK_MODE
        } else if kind.is_user_ns_file() {
            USER_NS_FILE_MODE
        } else if kind == PidFile::Mem {
            OWNER_ONLY_FILE_MODE
        } else {
            READONLY_FILE_MODE
        }
    }

    /// What a file reports of itself.
    pub fn file_status(&self, file: ProcFile) -> (status: FileStatus)
        ensures
            status_found(self, file, status),
    {
        let (mode, who) = match file {
            ProcFile::Pid(pid, kind) => (Self::mode_of(kind), Some(pid)),
            ProcFile::Tid(pid, _, kind) => (Self::mode_of(kind), Some(pid)),
            ProcFile::FdLink(pid, _) => (FD_LINK_MODE, Some(pid)),
            ProcFile::FdInfo(pid, _) => (OWNER_ONLY_FILE_MODE, Some(pid)),
            ProcFile::NsUser(pid) => (NS_LINK_MODE, Some(pid)),
            ProcFile::NsNet(pid) => (NS_LINK_MODE, Some(pid)),
            _ => (READONLY_FILE_MODE, None),
        };
        let target = self.link_target(file);
        let ghost found = target_model(target);
        let size: usize = match &target {
            Some(target) => target.as_str().len(),
            None => 0,
        };
        let owner = self.holder(who);
        let file_type = if file.is_magic_link() {
            FileType::SymLink
        } else {
            FileType::RegularFile
        };
        let status = FileStatus {
            file_type,
            mode,
            size,
            owner,
            node_info: self.node_of(file),
            blksize: 0,
            atime: Timestamp::default(),
            mtime: Timestamp::default(),
            ctime: Timestamp::default(),
        };
        proof {
            assert(linked(self, file, found));
            assert(status == status_of(self, file, found, owner));
        }
        status
    }

    /// The links of a directory with so many directories in it.
    fn with_own_links(count: usize) -> (result: u64)
        ensures
            result == links(count as nat),
    {
        match (count as u64).checked_add(2) {
            Some(sum) => sum,
            None => u64::MAX,
        }
    }

    /// The links of a thread's directory.
    fn thread_link_count(&self, pid: i32, tid: Option<i32>) -> (count: Option<u64>)
        ensures
            thread_links(self, pid, tid, count),
    {
        match tid {
            Some(tid) => {
                let found = self.thread_info(pid, tid);
                proof {
                    assert(thread_found(self, pid, tid, pair_model(found)));
                }
                if found.is_some() {
                    Some(2)
                } else {
                    None
                }
            },
            None => None,
        }
    }

    /// The links of a process's directory, or of one in it, given how many threads it has.
    fn task_link_count(&self, pid: i32, threads: usize, components: &[&str]) -> (count: Option<u64>)
        requires
            components@.len() > 0,
        ensures
            forall|task: TaskModel|
                task.threads.len() == threads ==> #[trigger] task_links(
                    self,
                    pid,
                    Some(task),
                    texts(components@).drop_first(),
                    count,
                ),
    {
        let ghost rest = texts(components@).drop_first();
        let n: usize = components.len();
        proof {
            if n >= 2 {
                assert(rest[0] == components@[1]@);
            }
            if n >= 3 {
                assert(rest[1] == components@[2]@);
            }
        }
        if n == 1 {
            return Some(6);
        }
        let name: &str = components[1];
        if n == 2 && (is_text(name, "fd") || is_text(name, "fdinfo") || is_text(name, "ns")) {
            return Some(2);
        }
        if n == 2 && is_text(name, "task") {
            return Some(Self::with_own_links(threads));
        }
        if n == 3 && is_text(name, "task") {
            proof {
                reveal_strlit("task");
                reveal_strlit("fd");
                reveal_strlit("fdinfo");
                reveal_strlit("ns");
            }
            return self.thread_link_count(pid, parse_pid(components[2]));
        }
        None
    }

    /// The number of links that the directory at a path reports: two, and one for each directory in
    /// it. For the directory of a process's threads some readers take the number of threads from
    /// it.
    pub fn dir_link_count_at(&self, components: &[&str]) -> (count: Option<u64>)
        ensures
            links_counted(self, texts(components@), count),
    {
        let ghost names = texts(components@);
        let n: usize = components.len();
        if n == 0 {
            let pids = self.pids();
            proof {
                assert(pids_listed(self, pids@));
            }
            return Some(
                match (pids.len() as u64).checked_add(5) {
                    Some(sum) => sum,
                    None => u64::MAX,
                },
            );
        }
        let first: &str = components[0];
        let is_sys = is_text(first, "sys");
        let is_net = is_text(first, "net");
        let is_litebox = is_text(first, "litebox");
        let is_thread_self = is_text(first, "thread-self");
        let mut second_fs = false;
        let mut second_kernel = false;
        let mut third_inotify = false;
        if n >= 2 {
            second_fs = is_text(components[1], "fs");
            second_kernel = is_text(components[1], "kernel");
        }
        if n >= 3 {
            third_inotify = is_text(components[2], "inotify");
        }
        proof {
            assert(names[0] == first@);
            if n >= 2 {
                assert(names[1] == components@[1]@);
            }
            if n >= 3 {
                assert(names[2] == components@[2]@);
            }
        }
        if n == 1 && is_sys {
            return Some(4);
        }
        if n == 2 && is_sys && second_fs {
            return Some(3);
        }
        if (n == 2 && is_sys && second_kernel) || (n == 3 && is_sys && second_fs && third_inotify)
            || (n == 1 && (is_net || is_litebox || is_thread_self)) {
            return Some(2);
        }
        let own = is_text(first, "self");
        let number: i32 = if own {
            self.caller_pid()
        } else {
            match parse_pid(first) {
                Some(number) => number,
                None => {
                    return None;
                },
            }
        };
        self.number_link_count(own, number, components)
    }

    /// The links of a directory of a process, or of a thread at the root of the tree.
    fn number_link_count(&self, own: bool, number: i32, components: &[&str]) -> (count: Option<u64>)
        requires
            components@.len() > 0,
        ensures
            if own {
                pid_links(self, number, texts(components@).drop_first(), count)
            } else {
                number_links(self, number, texts(components@).drop_first(), count)
            },
    {
        let ghost rest = texts(components@).drop_first();
        let task = self.task_info(number);
        let ghost found = task_model(task);
        proof {
            assert(task_found(self, number, found));
        }
        if let Some(task) = task {
            let count = self.task_link_count(number, task.threads.len(), components);
            proof {
                assert(task_links(self, number, found, rest, count));
            }
            return count;
        }
        if own {
            proof {
                assert(task_links(self, number, found, rest, None));
            }
            return None;
        }
        if components.len() != 1 {
            proof {
                assert(rest.len() != 0);
                assert(number_links(self, number, rest, None));
            }
            return None;
        }
        let owner = self.thread_owner(number);
        let count = match owner {
            Some(pid) => self.thread_link_count(pid, Some(number)),
            None => None,
        };
        proof {
            assert(owner_found(self, number, owner));
            assert(bare_thread_links(self, number, count));
            assert(number_links(self, number, rest, count));
        }
        count
    }
}

} // verus!
