//! Listing directories.
use crate::fs::proc::tree::{
    PidFile, ProcDir, FD_INFO_INODE_BASE, FD_LINK_INODE_BASE, SLOT_DIR, SLOT_FDINFO_DIR,
    SLOT_FD_DIR, SLOT_NS_DIR, SLOT_NS_NET, SLOT_NS_USER, SLOT_TASK_DIR,
};
use crate::fs::proc::{Proc, ProcFdTable, ProcSources};
use crate::fs::text::{decimal_text, signed_text};
use crate::fs::{DirEntry, FileType, NodeInfo};
use vstd::prelude::*;
use vstd::string::StringExecFns;

verus! {

use crate::fs::proc::lookup::{fd_node_of, pid_node_of, pids_listed, task_found, tid_node_of};
use crate::fs::proc::tree::{
    all_pid_files, file_in_dir, fixed_names, lemma_pid_files_are_found, pid_file_name,
    pid_file_type, slot_of,
};
use crate::fs::proc::walk::{step_of, Sighting, Step};
use crate::fs::proc::{task_model, TaskModel};
use crate::fs::text::{decimal, signed};
use crate::fs::{entry_models, EntryModel};

/// An entry for a directory.
pub open spec fn dir_entry(name: Seq<char>, node: NodeInfo) -> EntryModel {
    EntryModel { name, file_type: FileType::Directory, ino_info: Some(node) }
}

/// The entries of the files that a directory always holds.
pub open spec fn fixed_entries(dir: ProcDir) -> Seq<EntryModel> {
    Seq::new(
        fixed_names(dir).len(),
        |i: int|
            EntryModel {
                name: fixed_names(dir)[i],
                file_type: FileType::RegularFile,
                ino_info: None,
            },
    )
}

/// The entries of processes at the root of the tree.
pub open spec fn process_entries<S: ProcSources>(proc: &Proc<S>, pids: Seq<i32>) -> Seq<EntryModel> {
    Seq::new(
        pids.len(),
        |i: int| dir_entry(signed(pids[i] as int), pid_node_of(proc, pids[i], SLOT_DIR as int)),
    )
}

/// The entries of the caller's own directories, once there is a caller.
pub open spec fn caller_entries<S: ProcSources>(proc: &Proc<S>) -> Seq<EntryModel> {
    if proc.caller@.pid > 0 {
        seq![
            dir_entry("self"@, pid_node_of(proc, proc.caller@.pid, SLOT_DIR as int)),
            dir_entry("thread-self"@, tid_node_of(proc, proc.caller_tid, SLOT_DIR as int)),
        ]
    } else {
        Seq::empty()
    }
}

/// The entries at the root of the tree, given the live processes.
pub open spec fn root_entries<S: ProcSources>(proc: &Proc<S>, pids: Seq<i32>) -> Seq<EntryModel> {
    fixed_entries(ProcDir::Root) + process_entries(proc, pids) + caller_entries(proc) + seq![
        dir_entry("sys"@, proc.nodes.sys_dir),
        dir_entry("net"@, proc.nodes.net_dir),
        dir_entry("litebox"@, proc.nodes.litebox_dir),
    ]
}

/// The entries of the files of a process.
pub open spec fn pid_file_entries<S: ProcSources>(proc: &Proc<S>, pid: i32) -> Seq<EntryModel> {
    Seq::new(
        all_pid_files().len(),
        |i: int|
            EntryModel {
                name: pid_file_name(all_pid_files()[i]),
                file_type: pid_file_type(all_pid_files()[i]),
                ino_info: Some(pid_node_of(proc, pid, slot_of(all_pid_files()[i]))),
            },
    )
}

/// The entries of the files of a thread.
pub open spec fn tid_file_entries<S: ProcSources>(proc: &Proc<S>, tid: i32) -> Seq<EntryModel> {
    Seq::new(
        all_pid_files().len(),
        |i: int|
            EntryModel {
                name: pid_file_name(all_pid_files()[i]),
                file_type: pid_file_type(all_pid_files()[i]),
                ino_info: Some(tid_node_of(proc, tid, slot_of(all_pid_files()[i]))),
            },
    )
}

/// The entries of a process's directory.
pub open spec fn pid_entries<S: ProcSources>(proc: &Proc<S>, pid: i32) -> Seq<EntryModel> {
    pid_file_entries(proc, pid) + seq![
        dir_entry("fd"@, pid_node_of(proc, pid, SLOT_FD_DIR as int)),
        dir_entry("fdinfo"@, pid_node_of(proc, pid, SLOT_FDINFO_DIR as int)),
        dir_entry("task"@, pid_node_of(proc, pid, SLOT_TASK_DIR as int)),
        dir_entry("ns"@, pid_node_of(proc, pid, SLOT_NS_DIR as int)),
    ]
}

/// The entries of the threads of a process.
pub open spec fn thread_entries<S: ProcSources>(proc: &Proc<S>, task: Option<TaskModel>) -> Seq<EntryModel> {
    match task {
        Some(task) => Seq::new(
            task.threads.len(),
            |i: int|
                dir_entry(
                    signed(task.threads[i].tid as int),
                    tid_node_of(proc, task.threads[i].tid, SLOT_DIR as int),
                ),
        ),
        None => Seq::empty(),
    }
}

/// The threads of a process were listed.
pub open spec fn threads_listed<S: ProcSources>(proc: &Proc<S>, pid: i32, list: Seq<EntryModel>) -> bool {
    exists|task: Option<TaskModel>| #[trigger]
        task_found(proc, pid, task) && list == thread_entries(proc, task)
}

/// The entries of descriptors.
pub open spec fn fd_entries<S: ProcSources>(
    proc: &Proc<S>,
    fds: Seq<u32>,
    file_type: FileType,
    base: u64,
) -> Seq<EntryModel> {
    Seq::new(
        fds.len(),
        |i: int|
            EntryModel {
                name: decimal(fds[i] as nat),
                file_type,
                ino_info: Some(fd_node_of(proc, base, fds[i])),
            },
    )
}

/// The open descriptors of a process were listed: only the caller's own has any.
pub open spec fn fds_listed<S: ProcSources>(proc: &Proc<S>, pid: i32, fds: Seq<u32>) -> bool {
    if proc.caller@.pid != pid {
        fds == Seq::<u32>::empty()
    } else {
        match proc.fds {
            Some(table) => exists|answer: Vec<u32>| #[trigger]
                call_ensures(<S::Fds as ProcFdTable>::fds, (&table,), answer) && answer@ == fds,
            None => fds == Seq::<u32>::empty(),
        }
    }
}

/// An entry for a magic link.
pub open spec fn link_entry(name: Seq<char>, node: NodeInfo) -> EntryModel {
    EntryModel { name, file_type: FileType::SymLink, ino_info: Some(node) }
}

/// A directory was listed.
pub open spec fn listed<S: ProcSources>(proc: &Proc<S>, dir: ProcDir, list: Seq<EntryModel>) -> bool {
    match dir {
        ProcDir::Root => exists|pids: Seq<i32>| #[trigger]
            pids_listed(proc, pids) && list == root_entries(proc, pids),
        ProcDir::Pid(pid) => list == pid_entries(proc, pid),
        ProcDir::Task(pid) => threads_listed(proc, pid, list),
        ProcDir::Tid(_, tid) => list == tid_file_entries(proc, tid),
        ProcDir::Fd(pid) => exists|fds: Seq<u32>| #[trigger]
            fds_listed(proc, pid, fds) && list == fd_entries(
                proc,
                fds,
                FileType::SymLink,
                FD_LINK_INODE_BASE,
            ),
        ProcDir::FdInfo(pid) => exists|fds: Seq<u32>| #[trigger]
            fds_listed(proc, pid, fds) && list == fd_entries(
                proc,
                fds,
                FileType::RegularFile,
                FD_INFO_INODE_BASE,
            ),
        ProcDir::Ns(pid) => list == seq![
            link_entry("user"@, pid_node_of(proc, pid, SLOT_NS_USER as int)),
            link_entry("net"@, pid_node_of(proc, pid, SLOT_NS_NET as int)),
        ],
        ProcDir::SysDir => list == seq![
            dir_entry("kernel"@, proc.nodes.sys_kernel_dir),
            dir_entry("fs"@, proc.nodes.sys_fs_dir),
        ],
        ProcDir::SysFsDir => list == seq![dir_entry("inotify"@, proc.nodes.sys_fs_inotify_dir)],
        _ => list == fixed_entries(dir),
    }
}

/// Everything that a process's directory lists leads somewhere: what is listed as a directory into
/// a directory, and everything else to a file.
pub proof fn lemma_listed_entries_lead_somewhere<S: ProcSources>(
    proc: &Proc<S>,
    pid: i32,
    seen: Sighting,
    caller: (i32, i32),
    i: int,
)
    requires
        0 <= i < pid_entries(proc, pid).len(),
    ensures
        ({
            let entry = pid_entries(proc, pid)[i];
            match step_of(ProcDir::Pid(pid), entry.name, seen, caller) {
                Step::Enter(_, _, _) => entry.file_type == FileType::Directory,
                Step::NotADirectory => entry.file_type != FileType::Directory && file_in_dir(
                    ProcDir::Pid(pid),
                    entry.name,
                ) is Some,
                Step::Missing => false,
            }
        }),
{
    reveal_strlit("stat");
    reveal_strlit("statm");
    reveal_strlit("status");
    reveal_strlit("cmdline");
    reveal_strlit("comm");
    reveal_strlit("exe");
    reveal_strlit("uid_map");
    reveal_strlit("gid_map");
    reveal_strlit("setgroups");
    reveal_strlit("auxv");
    reveal_strlit("maps");
    reveal_strlit("mem");
    reveal_strlit("fd");
    reveal_strlit("fdinfo");
    reveal_strlit("task");
    reveal_strlit("ns");
    assert("stat"@.len() != "fd"@.len());
    assert("statm"@.len() != "fd"@.len());
    assert("status"@.len() != "fd"@.len());
    assert("cmdline"@.len() != "fd"@.len());
    assert("comm"@.len() != "fd"@.len());
    assert("exe"@.len() != "fd"@.len());
    assert("uid_map"@.len() != "fd"@.len());
    assert("gid_map"@.len() != "fd"@.len());
    assert("setgroups"@.len() != "fd"@.len());
    assert("auxv"@.len() != "fd"@.len());
    assert("maps"@.len() != "fd"@.len());
    assert("mem"@.len() != "fd"@.len());
    assert("fdinfo"@.len() != "fd"@.len());
    assert("task"@.len() != "fd"@.len());
    assert("ns"@[0] != "fd"@[0]);
    assert("stat"@.len() != "fdinfo"@.len());
    assert("statm"@.len() != "fdinfo"@.len());
    assert("status"@[0] != "fdinfo"@[0]);
    assert("cmdline"@.len() != "fdinfo"@.len());
    assert("comm"@.len() != "fdinfo"@.len());
    assert("exe"@.len() != "fdinfo"@.len());
    assert("uid_map"@.len() != "fdinfo"@.len());
    assert("gid_map"@.len() != "fdinfo"@.len());
    assert("setgroups"@.len() != "fdinfo"@.len());
    assert("auxv"@.len() != "fdinfo"@.len());
    assert("maps"@.len() != "fdinfo"@.len());
    assert("mem"@.len() != "fdinfo"@.len());
    assert("fd"@.len() != "fdinfo"@.len());
    assert("task"@.len() != "fdinfo"@.len());
    assert("ns"@.len() != "fdinfo"@.len());
    assert("stat"@[0] != "task"@[0]);
    assert("statm"@.len() != "task"@.len());
    assert("status"@.len() != "task"@.len());
    assert("cmdline"@.len() != "task"@.len());
    assert("comm"@[0] != "task"@[0]);
    assert("exe"@.len() != "task"@.len());
    assert("uid_map"@.len() != "task"@.len());
    assert("gid_map"@.len() != "task"@.len());
    assert("setgroups"@.len() != "task"@.len());
    assert("auxv"@[0] != "task"@[0]);
    assert("maps"@[0] != "task"@[0]);
    assert("mem"@.len() != "task"@.len());
    assert("fd"@.len() != "task"@.len());
    assert("fdinfo"@.len() != "task"@.len());
    assert("ns"@.len() != "task"@.len());
    assert("stat"@.len() != "ns"@.len());
    assert("statm"@.len() != "ns"@.len());
    assert("status"@.len() != "ns"@.len());
    assert("cmdline"@.len() != "ns"@.len());
    assert("comm"@.len() != "ns"@.len());
    assert("exe"@.len() != "ns"@.len());
    assert("uid_map"@.len() != "ns"@.len());
    assert("gid_map"@.len() != "ns"@.len());
    assert("setgroups"@.len() != "ns"@.len());
    assert("auxv"@.len() != "ns"@.len());
    assert("maps"@.len() != "ns"@.len());
    assert("mem"@.len() != "ns"@.len());
    assert("fd"@[0] != "ns"@[0]);
    assert("fdinfo"@.len() != "ns"@.len());
    assert("task"@.len() != "ns"@.len());
    if i < all_pid_files().len() {
        lemma_pid_files_are_found(i);
    }
}

/// Adds an entry.
fn put_entry(list: &mut Vec<DirEntry>, name: &str, file_type: FileType, ino_info: Option<NodeInfo>)
    ensures
        entry_models(final(list)@) == entry_models(old(list)@).push(
            EntryModel { name: name@, file_type, ino_info },
        ),
{
    list.push(DirEntry { name: String::from_str(name), file_type, ino_info });
    proof {
        assert(entry_models(list@) =~= entry_models(old(list)@).push(
            EntryModel { name: name@, file_type, ino_info },
        ));
    }
}

/// Adds an entry for a directory.
fn put_dir(list: &mut Vec<DirEntry>, name: &str, node: NodeInfo)
    ensures
        entry_models(final(list)@) == entry_models(old(list)@).push(dir_entry(name@, node)),
{
    put_entry(list, name, FileType::Directory, Some(node));
}

/// Adds an entry for a file that is always there.
fn put_fixed(list: &mut Vec<DirEntry>, name: &str)
    ensures
        entry_models(final(list)@) == entry_models(old(list)@).push(
            EntryModel { name: name@, file_type: FileType::RegularFile, ino_info: None },
        ),
{
    put_entry(list, name, FileType::RegularFile, None);
}

/// The entries of the files that a directory always holds.
fn list_fixed(dir: ProcDir) -> (list: Vec<DirEntry>)
    ensures
        entry_models(list@) == fixed_entries(dir),
{
    let mut list: Vec<DirEntry> = Vec::new();
    match dir {
        ProcDir::Root => {
            put_fixed(&mut list, "meminfo");
            put_fixed(&mut list, "mounts");
            put_fixed(&mut list, "stat");
            put_fixed(&mut list, "cpuinfo");
            put_fixed(&mut list, "version");
            put_fixed(&mut list, "uptime");
        },
        ProcDir::SysKernelDir => {
            put_fixed(&mut list, "overflowuid");
            put_fixed(&mut list, "overflowgid");
            put_fixed(&mut list, "pid_max");
            put_fixed(&mut list, "threads-max");
        },
        ProcDir::SysFsInotifyDir => {
            put_fixed(&mut list, "max_user_watches");
            put_fixed(&mut list, "max_user_instances");
            put_fixed(&mut list, "max_queued_events");
        },
        ProcDir::NetDir => {
            put_fixed(&mut list, "dev");
            put_fixed(&mut list, "route");
        },
        ProcDir::LiteboxDir => {
            put_fixed(&mut list, "counters");
        },
        _ => {},
    }
    proof {
        assert(entry_models(list@) =~= fixed_entries(dir));
    }
    list
}

/// The per-process files, in the order in which they are listed.
fn pid_files() -> (files: Vec<PidFile>)
    ensures
        files@ == all_pid_files(),
{
    let mut files: Vec<PidFile> = Vec::new();
    files.push(PidFile::Stat);
    files.push(PidFile::Statm);
    files.push(PidFile::Status);
    files.push(PidFile::Cmdline);
    files.push(PidFile::Comm);
    files.push(PidFile::Exe);
    files.push(PidFile::UidMap);
    files.push(PidFile::GidMap);
    files.push(PidFile::Setgroups);
    files.push(PidFile::Auxv);
    files.push(PidFile::Maps);
    files.push(PidFile::Mem);
    proof {
        assert(files@ =~= all_pid_files());
    }
    files
}

impl<S: ProcSources> Proc<S> {
    /// The entries of the files of a process.
    fn list_pid_files(&self, pid: i32) -> (list: Vec<DirEntry>)
        ensures
            entry_models(list@) == pid_file_entries(self, pid),
    {
        let files = pid_files();
        let ghost all = pid_file_entries(self, pid);
        let mut list: Vec<DirEntry> = Vec::new();
        let mut i: usize = 0;
        proof {
            assert(entry_models(list@) =~= all.take(0));
        }
        while i < files.len()
            invariant
                i <= files@.len(),
                files@ == all_pid_files(),
                all == pid_file_entries(self, pid),
                entry_models(list@) == all.take(i as int),
            decreases files@.len() - i,
        {
            let file = files[i];
            put_entry(
                &mut list,
                file.name(),
                file.file_type(),
                Some(self.pid_node(pid, file.slot())),
            );
            proof {
                assert(all.take(i + 1) =~= all.take(i as int).push(all[i as int]));
            }
            i += 1;
        }
        proof {
            assert(all.take(i as int) =~= all);
        }
        list
    }

    /// The entries of the files of a thread.
    fn list_tid_files(&self, tid: i32) -> (list: Vec<DirEntry>)
        ensures
            entry_models(list@) == tid_file_entries(self, tid),
    {
        let files = pid_files();
        let ghost all = tid_file_entries(self, tid);
        let mut list: Vec<DirEntry> = Vec::new();
        let mut i: usize = 0;
        proof {
            assert(entry_models(list@) =~= all.take(0));
        }
        while i < files.len()
            invariant
                i <= files@.len(),
                files@ == all_pid_files(),
                all == tid_file_entries(self, tid),
                entry_models(list@) == all.take(i as int),
            decreases files@.len() - i,
        {
            let file = files[i];
            put_entry(
                &mut list,
                file.name(),
                file.file_type(),
                Some(self.tid_node(tid, file.slot())),
            );
            proof {
                assert(all.take(i + 1) =~= all.take(i as int).push(all[i as int]));
            }
            i += 1;
        }
        proof {
            assert(all.take(i as int) =~= all);
        }
        list
    }

    /// The entries at the root of the tree.
    fn list_root(&self) -> (list: Vec<DirEntry>)
        ensures
            listed(self, ProcDir::Root, entry_models(list@)),
    {
        let pids = self.pids();
        let mut list = list_fixed(ProcDir::Root);
        let ghost start = entry_models(list@);
        let ghost all = process_entries(self, pids@);
        let mut i: usize = 0;
        proof {
            assert(start + all.take(0) =~= start);
        }
        while i < pids.len()
            invariant
                i <= pids@.len(),
                all == process_entries(self, pids@),
                entry_models(list@) == start + all.take(i as int),
            decreases pids@.len() - i,
        {
            let pid: i32 = pids[i];
            let name = signed_text(pid);
            put_dir(&mut list, name.as_str(), self.pid_node(pid, SLOT_DIR));
            proof {
                assert(start + all.take(i + 1) =~= (start + all.take(i as int)).push(all[i as int]));
            }
            i += 1;
        }
        proof {
            assert(all.take(i as int) =~= all);
        }
        let caller: i32 = self.caller_pid();
        if caller > 0 {
            put_dir(&mut list, "self", self.pid_node(caller, SLOT_DIR));
            put_dir(&mut list, "thread-self", self.tid_node(self.caller_tid, SLOT_DIR));
        }
        put_dir(&mut list, "sys", self.nodes.sys_dir);
        put_dir(&mut list, "net", self.nodes.net_dir);
        put_dir(&mut list, "litebox", self.nodes.litebox_dir);
        proof {
            assert(entry_models(list@) =~= root_entries(self, pids@));
            assert(pids_listed(self, pids@));
        }
        list
    }

    /// The entries of the threads of a process.
    fn list_threads(&self, pid: i32) -> (list: Vec<DirEntry>)
        ensures
            listed(self, ProcDir::Task(pid), entry_models(list@)),
    {
        let found = self.task_info(pid);
        let ghost model = task_model(found);
        let ghost all = thread_entries(self, model);
        let mut list: Vec<DirEntry> = Vec::new();
        proof {
            assert(task_found(self, pid, model));
            assert(entry_models(list@) =~= all.take(0));
        }
        if let Some(task) = found {
            let mut i: usize = 0;
            while i < task.threads.len()
                invariant
                    i <= task.threads@.len(),
                    model == Some(task@),
                    all == thread_entries(self, model),
                    entry_models(list@) == all.take(i as int),
                decreases task.threads@.len() - i,
            {
                let tid: i32 = task.threads[i].tid;
                let name = signed_text(tid);
                put_dir(&mut list, name.as_str(), self.tid_node(tid, SLOT_DIR));
                proof {
                    assert(task@.threads[i as int].tid == tid);
                    assert(all.take(i + 1) =~= all.take(i as int).push(all[i as int]));
                }
                i += 1;
            }
            proof {
                assert(all.take(i as int) =~= all);
            }
        } else {
            proof {
                assert(all.take(0) =~= all);
            }
        }
        proof {
            assert(threads_listed(self, pid, entry_models(list@)));
        }
        list
    }

    /// The entries of the open descriptors of a process.
    fn list_fds(&self, pid: i32, file_type: FileType, base: u64) -> (list: Vec<DirEntry>)
        requires
            base <= crate::fs::proc::tree::PID_INODE_BASE,
        ensures
            exists|fds: Seq<u32>| #[trigger]
                fds_listed(self, pid, fds) && entry_models(list@) == fd_entries(
                    self,
                    fds,
                    file_type,
                    base,
                ),
    {
        let fds: Vec<u32> = if self.is_caller(pid) {
            match &self.fds {
                Some(table) => table.fds(),
                None => Vec::new(),
            }
        } else {
            Vec::new()
        };
        proof {
            if self.caller@.pid != pid || self.fds is None {
                assert(fds@ =~= Seq::<u32>::empty());
            }
            assert(fds_listed(self, pid, fds@));
        }
        let ghost all = fd_entries(self, fds@, file_type, base);
        let mut list: Vec<DirEntry> = Vec::new();
        let mut i: usize = 0;
        proof {
            assert(entry_models(list@) =~= all.take(0));
        }
        while i < fds.len()
            invariant
                i <= fds@.len(),
                base <= crate::fs::proc::tree::PID_INODE_BASE,
                all == fd_entries(self, fds@, file_type, base),
                entry_models(list@) == all.take(i as int),
            decreases fds@.len() - i,
        {
            let fd: u32 = fds[i];
            let name = decimal_text(fd as u64);
            put_entry(&mut list, name.as_str(), file_type, Some(self.fd_node(base, fd)));
            proof {
                assert(all.take(i + 1) =~= all.take(i as int).push(all[i as int]));
            }
            i += 1;
        }
        proof {
            assert(all.take(i as int) =~= all);
        }
        list
    }

    /// Lists a directory.
    pub fn list_dir_at(&self, dir: ProcDir) -> (list: Vec<DirEntry>)
        ensures
            listed(self, dir, entry_models(list@)),
    {
        let mut list: Vec<DirEntry> = Vec::new();
        match dir {
            ProcDir::Root => {
                return self.list_root();
            },
            ProcDir::Pid(pid) => {
                let mut list = self.list_pid_files(pid);
                put_dir(&mut list, "fd", self.pid_node(pid, SLOT_FD_DIR));
                put_dir(&mut list, "fdinfo", self.pid_node(pid, SLOT_FDINFO_DIR));
                put_dir(&mut list, "task", self.pid_node(pid, SLOT_TASK_DIR));
                put_dir(&mut list, "ns", self.pid_node(pid, SLOT_NS_DIR));
                proof {
                    assert(entry_models(list@) =~= pid_entries(self, pid));
                }
                return list;
            },
            ProcDir::Task(pid) => {
                return self.list_threads(pid);
            },
            ProcDir::Tid(_, tid) => {
                return self.list_tid_files(tid);
            },
            ProcDir::Fd(pid) => {
                return self.list_fds(pid, FileType::SymLink, FD_LINK_INODE_BASE);
            },
            ProcDir::FdInfo(pid) => {
                return self.list_fds(pid, FileType::RegularFile, FD_INFO_INODE_BASE);
            },
            ProcDir::Ns(pid) => {
                put_entry(
                    &mut list,
                    "user",
                    FileType::SymLink,
                    Some(self.pid_node(pid, SLOT_NS_USER)),
                );
                put_entry(
                    &mut list,
                    "net",
                    FileType::SymLink,
                    Some(self.pid_node(pid, SLOT_NS_NET)),
                );
                proof {
                    assert(entry_models(list@) =~= seq![
                        link_entry("user"@, pid_node_of(self, pid, SLOT_NS_USER as int)),
                        link_entry("net"@, pid_node_of(self, pid, SLOT_NS_NET as int)),
                    ]);
                }
            },
            ProcDir::SysDir => {
                put_dir(&mut list, "kernel", self.nodes.sys_kernel_dir);
                put_dir(&mut list, "fs", self.nodes.sys_fs_dir);
                proof {
                    assert(entry_models(list@) =~= seq![
                        dir_entry("kernel"@, self.nodes.sys_kernel_dir),
                        dir_entry("fs"@, self.nodes.sys_fs_dir),
                    ]);
                }
            },
            ProcDir::SysFsDir => {
                put_dir(&mut list, "inotify", self.nodes.sys_fs_inotify_dir);
                proof {
                    assert(entry_models(list@) =~= seq![
                        dir_entry("inotify"@, self.nodes.sys_fs_inotify_dir),
                    ]);
                }
            },
            _ => {
                return list_fixed(dir);
            },
        }
        list
    }
}

} // verus!
