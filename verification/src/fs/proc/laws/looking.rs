//! Who is found under a number, and what may be opened.
use crate::fs::proc::tree::{PidFile, ProcDir, ProcFile};
use crate::fs::proc::walk::Sighting;
use crate::fs::proc::{Proc, ProcSources, ProcTaskInfo, ProcTaskTable, ProcUserNs};
use crate::fs::{FileType, OFlags, OpenError, PathError, UserInfo};
use vstd::prelude::*;

verus! {

use crate::fs::proc::content::{exe_linked, fd_linked, rendered, user_ns_says};
use crate::fs::proc::listing::{listed, thread_entries, threads_listed};
use crate::fs::proc::lookup::{
    fd_found, fd_named, fd_value, owner_among, owner_found, pids_listed, task_found, thread_found, user_found,
    FdModel,
};
use crate::fs::proc::open::open_refusal;
use crate::fs::proc::laws::numbers::{lemma_number_is_plain, spelled};
use crate::fs::proc::status::{bare_thread_links, status_rights};
use crate::fs::proc::tree::{file_in_dir, is_link};
use crate::fs::proc::walk::{holder_found, sighted};
use crate::fs::proc::{TaskModel, ThreadModel};
use crate::fs::text::{bytes_of, lemma_pid_round_trip, pid_value, signed};
use crate::fs::EntryModel;

/// The caller is always found, as it was published, and under its own number only. Another process is
/// found exactly if there is a table and the table knows it, and then as the table says.
pub proof fn lemma_processes_are_looked_up<S: ProcSources>(proc: &Proc<S>, pid: i32, found: Option<TaskModel>)
    requires
        task_found(proc, pid, found),
    ensures
        pid == proc.caller@.pid ==> found == Some(proc.caller@),
        pid != proc.caller@.pid && proc.tasks is None ==> found is None,
        pid != proc.caller@.pid ==> (proc.tasks matches Some(table) ==> exists|answer: Option<ProcTaskInfo>|
         #[trigger]
            call_ensures(<S::Tasks as ProcTaskTable>::task, (&table, pid), answer) && match answer {
                Some(info) => found == Some(info@),
                None => found is None,
            }),
{
}

proof fn lemma_owner_is_among<S: ProcSources>(
    proc: &Proc<S>,
    pids: Seq<i32>,
    tid: i32,
    owner: Option<i32>,
)
    requires
        owner_among(proc, pids, tid, owner),
    ensures
        owner matches Some(pid) ==> pids.contains(pid) && exists|found: Option<(TaskModel, ThreadModel)>|
         #[trigger]
            thread_found(proc, pid, tid, found) && found is Some,
        owner is None ==> forall|i: int|
            #![trigger pids[i]]
            0 <= i < pids.len() ==> thread_found(proc, pids[i], tid, None),
    decreases pids.len(),
{
    reveal(owner_among);
    if pids.len() > 0 {
        let found = choose|found: Option<(TaskModel, ThreadModel)>| #[trigger]
            thread_found(proc, pids[0], tid, found) && if found is Some {
                owner == Some(pids[0])
            } else {
                owner_among(proc, pids.drop_first(), tid, owner)
            };
        if found is None {
            let rest = pids.drop_first();
            lemma_owner_is_among(proc, rest, tid, owner);
            if let Some(pid) = owner {
                let i = rest.index_of(pid);
                assert(pids[i + 1] == pid);
            } else {
                assert forall|i: int| #![trigger pids[i]] 0 <= i < pids.len() implies thread_found(
                    proc,
                    pids[i],
                    tid,
                    None,
                ) by {
                    if i > 0 {
                        assert(rest[i - 1] == pids[i]);
                    }
                }
            }
        } else {
            assert(pids.contains(pids[0]));
        }
    }
}

/// The process of a thread is a live one that has such a thread; none is found only if no live process
/// was found to have it.
pub proof fn lemma_thread_belongs_to_its_owner<S: ProcSources>(proc: &Proc<S>, tid: i32, owner: Option<i32>)
    requires
        owner_found(proc, tid, owner),
    ensures
        exists|pids: Seq<i32>| #[trigger]
            pids_listed(proc, pids) && (owner matches Some(pid) ==> pids.contains(pid)) && (owner is None
                ==> forall|i: int|
                #![trigger pids[i]]
                0 <= i < pids.len() ==> thread_found(proc, pids[i], tid, None)),
        owner matches Some(pid) ==> exists|found: Option<(TaskModel, ThreadModel)>| #[trigger]
            thread_found(proc, pid, tid, found) && found is Some,
{
    let pids = choose|pids: Seq<i32>| #[trigger]
        pids_listed(proc, pids) && owner_among(proc, pids, tid, owner);
    lemma_owner_is_among(proc, pids, tid, owner);
}

/// What belongs to no process belongs to the superuser, and what belongs to the caller to the caller's own
/// user and group.
pub proof fn lemma_entries_belong_to_their_process<S: ProcSources>(proc: &Proc<S>, user: UserInfo)
    requires
        proc.caller@.uid <= u16::MAX,
        proc.caller@.gid <= u16::MAX,
    ensures
        holder_found(proc, None, user) ==> user.user == 0 && user.group == 0,
        holder_found(proc, Some(proc.caller@.pid), user) ==> user.user == proc.caller@.uid && user.group
            == proc.caller@.gid,
        user_found(proc, proc.caller@.pid, user) ==> user.user == proc.caller@.uid && user.group
            == proc.caller@.gid,
{
}

/// The threads of a process are listed as directories, one for each, under names that read back as their
/// numbers; a process that is not found has none.
pub proof fn lemma_threads_are_listed<S: ProcSources>(proc: &Proc<S>, pid: i32, list: Seq<EntryModel>)
    requires
        listed(proc, ProcDir::Task(pid), list),
    ensures
        exists|task: Option<TaskModel>| #[trigger]
            task_found(proc, pid, task) && match task {
                None => list.len() == 0,
                Some(task) => list.len() == task.threads.len() && forall|i: int|
                    0 <= i < list.len() ==> (#[trigger] list[i]).file_type == FileType::Directory && (
                    task.threads[i].tid > 0 ==> pid_value(list[i].name) == Some(task.threads[i].tid)),
            },
        pid == proc.caller@.pid ==> list.len() == proc.caller@.threads.len(),
{
    assert(threads_listed(proc, pid, list));
    let task = choose|task: Option<TaskModel>| #[trigger]
        task_found(proc, pid, task) && list == thread_entries(proc, task);
    if let Some(known) = task {
        assert forall|i: int| 0 <= i < list.len() implies (#[trigger] list[i]).file_type
            == FileType::Directory && (known.threads[i].tid > 0 ==> pid_value(list[i].name) == Some(
            known.threads[i].tid,
        )) by {
            if known.threads[i].tid > 0 {
                lemma_pid_round_trip(known.threads[i].tid, signed(known.threads[i].tid as int));
            }
        }
    }
}

/// A descriptor is found by name only in the caller's own directory, under the number that the name
/// spells, and only while it is open; its link leads where the table says.
pub proof fn lemma_descriptors_are_the_callers<S: ProcSources>(
    proc: &Proc<S>,
    pid: i32,
    name: Seq<char>,
    found: Option<u32>,
    fd: u32,
    target: Option<Seq<char>>,
)
    ensures
        fd_named(proc, pid, name, found) ==> (found matches Some(known) ==> {
            &&& pid == proc.caller@.pid
            &&& fd_value(name) == Some(known)
            &&& exists|entry: Option<FdModel>| #[trigger] fd_found(proc, known, entry) && entry is Some
        }),
        fd_named(proc, pid, name, found) && fd_value(name) is None ==> found is None,
        fd_linked(proc, pid, fd, target) && pid != proc.caller@.pid ==> target is None,
        fd_linked(proc, pid, fd, target) ==> (target matches Some(text) ==> exists|entry: Option<FdModel>|
         #[trigger]
            fd_found(proc, fd, entry) && (entry matches Some(entry) && entry.target == text)),
{
}

/// The program link of a process leads to the program that the process was found with, and nowhere
/// without one.
pub proof fn lemma_program_link_leads_to_the_program<S: ProcSources>(
    proc: &Proc<S>,
    pid: i32,
    target: Option<Seq<char>>,
)
    requires
        exe_linked(proc, pid, target),
    ensures
        pid == proc.caller@.pid ==> target == proc.caller@.exe,
        target matches Some(text) ==> exists|task: Option<TaskModel>| #[trigger]
            task_found(proc, pid, task) && (task matches Some(task) && task.exe == Some(text)),
        pid != proc.caller@.pid && proc.tasks is None ==> target is None,
{
}

/// Each of the three files of a user namespace holds what the namespace says under that very name, and no
/// other file holds anything of it.
pub proof fn lemma_user_ns_files_are_told_apart<U: ProcUserNs>(handle: &U, answer: Vec<u8>)
    ensures
        user_ns_says(handle, PidFile::UidMap, answer) ==> call_ensures(U::read_uid_map, (handle,), answer),
        user_ns_says(handle, PidFile::GidMap, answer) ==> call_ensures(U::read_gid_map, (handle,), answer),
        user_ns_says(handle, PidFile::Setgroups, answer) ==> call_ensures(
            U::read_setgroups,
            (handle,),
            answer,
        ),
        user_ns_says(handle, PidFile::Status, answer) ==> answer@.len() == 0,
{
}

/// No file is a directory, a link is not opened but as itself, and nothing but a file of a user namespace
/// is opened to be changed; everything else is opened. A link that was to be made anew exists already.
pub proof fn lemma_opening_is_refused_for_a_reason(file: ProcFile, flags: OFlags)
    ensures
        ({
            let bits = flags.bits;
            let directory = bits & 0o200000 != 0;
            let through_link = is_link(file) && bits & 0o10000000 == 0;
            let changing = bits & 0o1103 != 0;
            let configures = match file {
                ProcFile::Pid(_, kind) | ProcFile::Tid(_, _, kind) => kind == PidFile::UidMap || kind
                    == PidFile::GidMap || kind == PidFile::Setgroups,
                _ => false,
            };
            &&& open_refusal(file, flags) is None <==> !directory && !through_link && (changing ==> configures)
            &&& directory ==> open_refusal(file, flags) == Some(
                OpenError::PathError(PathError::ComponentNotADirectory),
            )
            &&& !directory && through_link ==> open_refusal(file, flags) == Some(
                if bits & 0o100 != 0 && bits & 0o200 != 0 {
                    OpenError::AlreadyExists
                } else {
                    OpenError::TooManySymbolicLinks
                },
            )
            &&& !directory && !through_link && changing && !configures ==> open_refusal(file, flags) == Some(
                OpenError::ReadOnlyFileSystem,
            )
        }),
{
    let bits = flags.bits;
    assert((bits & 0o200000 == 0o200000 <==> bits & 0o200000 != 0) && (bits & 0o10000000 == 0o10000000
        <==> bits & 0o10000000 != 0) && (0o100u32 | 0o200u32) == 0o300u32 && (bits & 0o300 == 0o300 <==> bits
        & 0o100 != 0 && bits & 0o200 != 0) && (0o100u32 | 0o1000u32 | 0o1u32 | 0o2u32) == 0o1103u32) by (bit_vector);
}

/// The name of a file that a directory always holds.
pub open spec fn known_as(file: ProcFile) -> Seq<char> {
    match file {
        ProcFile::Meminfo => "meminfo"@,
        ProcFile::Mounts => "mounts"@,
        ProcFile::StatSystem => "stat"@,
        ProcFile::Cpuinfo => "cpuinfo"@,
        ProcFile::Version => "version"@,
        ProcFile::Uptime => "uptime"@,
        ProcFile::OverflowUid => "overflowuid"@,
        ProcFile::OverflowGid => "overflowgid"@,
        ProcFile::PidMax => "pid_max"@,
        ProcFile::ThreadsMax => "threads-max"@,
        ProcFile::InotifyMaxUserWatches => "max_user_watches"@,
        ProcFile::InotifyMaxUserInstances => "max_user_instances"@,
        ProcFile::InotifyMaxQueuedEvents => "max_queued_events"@,
        ProcFile::NetDev => "dev"@,
        ProcFile::NetRoute => "route"@,
        ProcFile::LiteboxCounters => "counters"@,
        ProcFile::Pid(_, kind) | ProcFile::Tid(_, _, kind) => match kind {
            PidFile::Stat => "stat"@,
            PidFile::Statm => "statm"@,
            PidFile::Status => "status"@,
            PidFile::Cmdline => "cmdline"@,
            PidFile::Comm => "comm"@,
            PidFile::Exe => "exe"@,
            PidFile::UidMap => "uid_map"@,
            PidFile::GidMap => "gid_map"@,
            PidFile::Setgroups => "setgroups"@,
            PidFile::Auxv => "auxv"@,
            PidFile::Maps => "maps"@,
            PidFile::Mem => "mem"@,
        },
        _ => Seq::empty(),
    }
}

/// A name leads to the file that is known by it and to no other, and in the directory of a process or a
/// thread to a file of that very process or thread.
pub proof fn lemma_file_is_known_by_its_name(dir: ProcDir, name: Seq<char>)
    ensures
        file_in_dir(dir, name) matches Some(file) ==> name == known_as(file),
        file_in_dir(dir, name) matches Some(file) ==> match dir {
            ProcDir::Pid(pid) => file matches ProcFile::Pid(of, _) && of == pid,
            ProcDir::Tid(pid, tid) => file matches ProcFile::Tid(of, thread, _) && of == pid && thread == tid,
            _ => file !is Pid && file !is Tid && file !is FdLink && file !is FdInfo && file !is NsUser
                && file !is NsNet,
        },
{
}

/// The rights of the files: memory is its owner's alone, the files that configure a user namespace can be
/// written by their owner, and the links let everybody through, but for those of descriptors, which are
/// their owner's. Everything else is there for everybody to read. What is no process's is the superuser's.
pub proof fn lemma_files_have_these_rights(file: ProcFile)
    ensures
        ({
            let (mode, who) = status_rights(file);
            match file {
                ProcFile::Pid(pid, kind) | ProcFile::Tid(pid, _, kind) => who == Some(pid) && mode == (match kind {
                    PidFile::Exe => 0o777u32,
                    PidFile::UidMap | PidFile::GidMap | PidFile::Setgroups => 0o644u32,
                    PidFile::Mem => 0o400u32,
                    _ => 0o444u32,
                }),
                ProcFile::FdLink(pid, _) => who == Some(pid) && mode == 0o700,
                ProcFile::FdInfo(pid, _) => who == Some(pid) && mode == 0o400,
                ProcFile::NsUser(pid) => who == Some(pid) && mode == 0o777,
                ProcFile::NsNet(pid) => who == Some(pid) && mode == 0o777,
                _ => who is None && mode == 0o444,
            }
        }),
{
}

/// A name spells a descriptor exactly if it is the plain decimal of a number of at most 32 bits, and then
/// that number.
pub proof fn lemma_descriptor_names_are_plain(name: Seq<char>)
    ensures
        fd_value(name) matches Some(fd) ==> spelled(name, 10) == fd,
        fd_value(name) is Some <==> (name.len() > 0 && (name.len() == 1 || name[0] != '0') && (forall|i: int|
            0 <= i < name.len() ==> '0' <= #[trigger] name[i] <= '9') && spelled(name, 10) <= 0xffff_ffff),
{
    lemma_number_is_plain(name);
}

/// At the root a number is taken for a process exactly if such a process is found, and the caller's always
/// is; only without one is it taken for a thread. Among the threads of a process it is taken for one
/// exactly if the process has it. A name that is no number is taken for neither.
pub proof fn lemma_numbers_are_sighted<S: ProcSources>(proc: &Proc<S>, dir: ProcDir, name: Seq<char>, seen: Sighting)
    requires
        sighted(proc, dir, name, seen),
    ensures
        dir == ProcDir::Root ==> (pid_value(name) matches Some(pid) ==> {
            &&& pid == proc.caller@.pid ==> seen.task
            &&& exists|task: Option<TaskModel>| #[trigger]
                task_found(proc, pid, task) && (task is Some <==> seen.task)
            &&& seen.owner is Some ==> !seen.task && owner_found(proc, pid, seen.owner)
        }),
        dir matches ProcDir::Task(pid) ==> (pid_value(name) matches Some(tid) ==> exists|
            found: Option<(TaskModel, ThreadModel)>,
        | #[trigger]
            thread_found(proc, pid, tid, found) && (found is Some <==> seen.thread)),
        (dir == ProcDir::Root || dir is Task) && pid_value(name) is None ==> !seen.task && !seen.thread
            && seen.owner is None,
{
}

/// What the files say that always say the same.
pub proof fn lemma_limits_are_shown<S: ProcSources>(proc: &Proc<S>, file: ProcFile, content: Seq<u8>)
    requires
        rendered(proc, file, content),
    ensures
        file == ProcFile::OverflowUid || file == ProcFile::OverflowGid ==> content == bytes_of("65534\n"@),
        file == ProcFile::PidMax ==> content == bytes_of("4194304\n"@),
        file == ProcFile::ThreadsMax ==> content == bytes_of("16384\n"@),
        file == ProcFile::InotifyMaxUserWatches ==> content == bytes_of("8192\n"@),
        file == ProcFile::InotifyMaxUserInstances ==> content == bytes_of("128\n"@),
        file == ProcFile::InotifyMaxQueuedEvents ==> content == bytes_of("16384\n"@),
        is_link(file) && (file is FdLink || file is NsUser || file is NsNet) ==> content.len() == 0,
{
}

/// The namespaces of a process are listed as two links.
pub proof fn lemma_namespaces_are_listed<S: ProcSources>(proc: &Proc<S>, pid: i32, list: Seq<EntryModel>)
    requires
        listed(proc, ProcDir::Ns(pid), list),
    ensures
        list.len() == 2,
        list[0].name == "user"@,
        list[1].name == "net"@,
        list[0].file_type == FileType::SymLink,
        list[1].file_type == FileType::SymLink,
{
}

/// A thread's own directory holds no other, and there is none without a process that has the thread.
pub proof fn lemma_thread_directory_is_bare<S: ProcSources>(proc: &Proc<S>, tid: i32, count: Option<u64>)
    requires
        bare_thread_links(proc, tid, count),
    ensures
        count is Some ==> count == Some(2u64),
        count is Some ==> exists|pid: i32, found: Option<(TaskModel, ThreadModel)>| #[trigger]
            thread_found(proc, pid, tid, found) && found is Some,
{
}

} // verus!
