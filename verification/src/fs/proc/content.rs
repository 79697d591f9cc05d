//! Reading, writing and following files.
use crate::fs::proc::render::{
    render_cpuinfo, render_maps, render_meminfo, render_mounts, render_net_dev, render_net_route,
    render_pid_file, render_stat_system, render_uptime, render_version,
};
use crate::fs::proc::tree::{PidFile, ProcFile};
use crate::fs::proc::{
    Proc, ProcCounters, ProcFdEntry, ProcMapEntry, ProcMemAccess, ProcMemMap, ProcNetNs,
    ProcSources, ProcTaskInfo, ProcThreadInfo, ProcUserNs, SYNTHETIC_NUM_CPUS,
};
use crate::fs::text::{into_bytes, put_decimal, put_in_base};
use crate::fs::{PathError, ReadError, ReadlinkError, WriteError};
use vstd::prelude::*;
use vstd::string::StringExecFns;

verus! {

use crate::fs::proc::lookup::{
    fd_model, live_task_found, own_fd_found, pair_model, task_found, thread_found, thread_in,
    FdModel,
};
use crate::fs::proc::render::{
    cpu_stanzas, maps_text, meminfo_text, net_route_text, pid_file_bytes, stat_system_text,
    uptime_text, version_text, MOUNTS, NET_DEV,
};
use crate::fs::proc::tree::configures_user_ns;
use crate::fs::proc::{task_model, TaskModel, ThreadModel};
use crate::fs::text::{bytes_of, decimal, in_base};

/// The number under which Linux knows the initial user namespace.
pub const INITIAL_USER_NS_INO: u64 = 4_026_531_837;

/// The number under which Linux knows the initial network namespace.
pub const INITIAL_NET_NS_INO: u64 = 4_026_531_992;

/// The state of a descriptor. There is one mount, with the number 1.
pub open spec fn fd_info_text(entry: FdModel) -> Seq<char> {
    "pos:\t"@ + decimal(entry.pos as nat) + "\nflags:\t0"@ + in_base(entry.flags as nat, 8)
        + "\nmnt_id:\t1\nino:\t"@ + decimal(entry.ino as nat) + "\n"@
}

/// The file of a descriptor that is open or not.
pub open spec fn fd_info_bytes(entry: Option<FdModel>) -> Seq<u8> {
    match entry {
        Some(entry) => bytes_of(fd_info_text(entry)),
        None => Seq::empty(),
    }
}

/// A user namespace was asked what one of its files holds.
pub open spec fn user_ns_says<U: ProcUserNs>(handle: &U, file: PidFile, answer: Vec<u8>) -> bool {
    match file {
        PidFile::Setgroups => call_ensures(U::read_setgroups, (handle,), answer),
        PidFile::UidMap => call_ensures(U::read_uid_map, (handle,), answer),
        PidFile::GidMap => call_ensures(U::read_gid_map, (handle,), answer),
        _ => answer@ == Seq::<u8>::empty(),
    }
}

/// What one of the files that configure a user namespace holds was read: of the caller's own
/// namespace, and nothing of any other process's.
pub open spec fn user_ns_content<S: ProcSources>(
    proc: &Proc<S>,
    pid: i32,
    file: PidFile,
    content: Seq<u8>,
) -> bool {
    if proc.caller@.pid != pid {
        content == Seq::<u8>::empty()
    } else {
        match proc.user_ns {
            None => content == Seq::<u8>::empty(),
            Some(handle) => exists|answer: Vec<u8>| #[trigger]
                user_ns_says(&handle, file, answer) && content == answer@,
        }
    }
}

/// The map of a process's address space was read.
pub open spec fn maps_content<S: ProcSources>(proc: &Proc<S>, pid: i32, content: Seq<u8>) -> bool {
    match proc.mem_map {
        Some(handle) => exists|maps: Vec<ProcMapEntry>| #[trigger]
            call_ensures(<S::MemMap as ProcMemMap>::maps, (&handle, pid), maps) && content
                == bytes_of(maps_text(maps@)),
        None => content == Seq::<u8>::empty(),
    }
}

/// The diagnostic counters were read; without a provider there are none.
pub open spec fn counters_content<S: ProcSources>(proc: &Proc<S>, content: Seq<u8>) -> bool {
    match proc.counters {
        Some(handle) => exists|text: String| #[trigger]
            call_ensures(<S::Counters as ProcCounters>::snapshot_json, (&handle,), text) && content
                == bytes_of(text@),
        None => content == bytes_of("{}"@),
    }
}

/// A file of a process that is there or not.
pub open spec fn task_bytes(task: Option<TaskModel>, file: PidFile) -> Seq<u8> {
    match task {
        Some(task) => pid_file_bytes(task, None, file),
        None => Seq::empty(),
    }
}

/// A file of a thread that is there or not.
pub open spec fn thread_bytes(found: Option<(TaskModel, ThreadModel)>, file: PidFile) -> Seq<u8> {
    match found {
        Some((task, thread)) => pid_file_bytes(task, Some(thread), file),
        None => Seq::empty(),
    }
}

/// A file of a process was read. Its status is looked up live.
pub open spec fn task_content<S: ProcSources>(
    proc: &Proc<S>,
    pid: i32,
    file: PidFile,
    content: Seq<u8>,
) -> bool {
    if file == PidFile::Status {
        exists|task: Option<TaskModel>| #[trigger]
            live_task_found(proc, pid, task) && content == task_bytes(task, file)
    } else {
        exists|task: Option<TaskModel>| #[trigger]
            task_found(proc, pid, task) && content == task_bytes(task, file)
    }
}

/// A file of a thread was read. Its status is looked up live.
pub open spec fn thread_content<S: ProcSources>(
    proc: &Proc<S>,
    pid: i32,
    tid: i32,
    file: PidFile,
    content: Seq<u8>,
) -> bool {
    if file == PidFile::Status {
        exists|task: Option<TaskModel>| #[trigger]
            live_task_found(proc, pid, task) && content == thread_bytes(thread_in(task, tid), file)
    } else {
        exists|found: Option<(TaskModel, ThreadModel)>| #[trigger]
            thread_found(proc, pid, tid, found) && content == thread_bytes(found, file)
    }
}

/// The state of a descriptor was read.
pub open spec fn fd_content<S: ProcSources>(proc: &Proc<S>, pid: i32, fd: u32, content: Seq<u8>) -> bool {
    exists|entry: Option<FdModel>| #[trigger]
        own_fd_found(proc, pid, fd, entry) && content == fd_info_bytes(entry)
}

/// The content of a file was computed.
pub open spec fn rendered<S: ProcSources>(proc: &Proc<S>, file: ProcFile, content: Seq<u8>) -> bool {
    match file {
        ProcFile::Meminfo => content == bytes_of(meminfo_text()),
        ProcFile::Mounts => content == bytes_of(MOUNTS@),
        ProcFile::StatSystem => content == bytes_of(stat_system_text()),
        ProcFile::Cpuinfo => content == bytes_of(cpu_stanzas(SYNTHETIC_NUM_CPUS as nat)),
        ProcFile::Version => content == bytes_of(version_text()),
        ProcFile::Uptime => content == bytes_of(uptime_text(proc.uptime_secs)),
        ProcFile::OverflowUid => content == bytes_of("65534\n"@),
        ProcFile::OverflowGid => content == bytes_of("65534\n"@),
        ProcFile::PidMax => content == bytes_of("4194304\n"@),
        ProcFile::ThreadsMax => content == bytes_of("16384\n"@),
        ProcFile::InotifyMaxUserWatches => content == bytes_of("8192\n"@),
        ProcFile::InotifyMaxUserInstances => content == bytes_of("128\n"@),
        ProcFile::InotifyMaxQueuedEvents => content == bytes_of("16384\n"@),
        ProcFile::LiteboxCounters => counters_content(proc, content),
        ProcFile::Pid(pid, kind) => if configures_user_ns(kind) {
            user_ns_content(proc, pid, kind, content)
        } else if kind == PidFile::Maps {
            maps_content(proc, pid, content)
        } else {
            task_content(proc, pid, kind, content)
        },
        ProcFile::Tid(pid, tid, kind) => if configures_user_ns(kind) {
            user_ns_content(proc, pid, kind, content)
        } else if kind == PidFile::Maps {
            maps_content(proc, pid, content)
        } else {
            thread_content(proc, pid, tid, kind, content)
        },
        ProcFile::NetDev => content == bytes_of(NET_DEV@),
        ProcFile::NetRoute => content == bytes_of(
            net_route_text(proc.net_addrs.0@, proc.net_addrs.1@),
        ),
        ProcFile::FdInfo(pid, fd) => fd_content(proc, pid, fd, content),
        ProcFile::FdLink(_, _) => content == Seq::<u8>::empty(),
        ProcFile::NsUser(_) => content == Seq::<u8>::empty(),
        ProcFile::NsNet(_) => content == Seq::<u8>::empty(),
    }
}

/// The part of a content that a read at an offset sees.
pub open spec fn window(content: Seq<u8>, offset: int, len: int) -> Seq<u8> {
    let n = content.len() as int;
    let start = if offset < n {
        offset
    } else {
        n
    };
    let end = if offset + len < n {
        offset + len
    } else {
        n
    };
    content.subrange(start, end)
}

/// Two reads in a row see what one longer read sees, and a read that is long enough sees
/// everything.
pub proof fn lemma_reads_concatenate(content: Seq<u8>, offset: int, first: int, second: int)
    requires
        0 <= offset,
        0 <= first,
        0 <= second,
    ensures
        window(content, offset, first) + window(content, offset + first, second) == window(
            content,
            offset,
            first + second,
        ),
        first >= content.len() ==> window(content, 0, first) == content,
{
    assert(window(content, offset, first) + window(content, offset + first, second) =~= window(
        content,
        offset,
        first + second,
    ));
    if first >= content.len() {
        assert(window(content, 0, first) =~= content);
    }
}

/// The memory of a process was read at an address.
pub open spec fn memory_read<S: ProcSources>(
    proc: &Proc<S>,
    pid: i32,
    addr: usize,
    len: usize,
    result: Result<Seq<u8>, ReadError>,
) -> bool {
    if len == 0 {
        result == Ok::<Seq<u8>, ReadError>(Seq::empty())
    } else {
        match proc.mem_access {
            Some(handle) => exists|answer: Option<Vec<u8>>| #[trigger]
                call_ensures(
                    <S::MemAccess as ProcMemAccess>::read_mem,
                    (&handle, pid, addr, len),
                    answer,
                ) && result == (match answer {
                    Some(bytes) => Ok::<Seq<u8>, ReadError>(bytes@),
                    None => Err::<Seq<u8>, ReadError>(ReadError::Io),
                }),
            None => result == Err::<Seq<u8>, ReadError>(ReadError::Io),
        }
    }
}

/// The process whose memory a file is, if it is one.
pub open spec fn memory_of(file: ProcFile) -> Option<i32> {
    match file {
        ProcFile::Pid(pid, PidFile::Mem) => Some(pid),
        ProcFile::Tid(pid, _, PidFile::Mem) => Some(pid),
        _ => None,
    }
}

/// A file was read.
pub open spec fn file_read<S: ProcSources>(
    proc: &Proc<S>,
    file: ProcFile,
    len: usize,
    offset: usize,
    result: Result<Seq<u8>, ReadError>,
) -> bool {
    match memory_of(file) {
        Some(pid) => memory_read(proc, pid, offset, len, result),
        None => exists|content: Seq<u8>| #[trigger]
            rendered(proc, file, content) && result == Ok::<Seq<u8>, ReadError>(
                window(content, offset as int, len as int),
            ),
    }
}

/// The result of a read, as a mathematical value.
pub open spec fn read_model(result: Result<Vec<u8>, ReadError>) -> Result<Seq<u8>, ReadError> {
    match result {
        Ok(bytes) => Ok(bytes@),
        Err(error) => Err(error),
    }
}

/// One of the files that configure a user namespace was written: only a task's own may be.
pub open spec fn user_ns_written<S: ProcSources>(
    proc: &Proc<S>,
    pid: i32,
    file: PidFile,
    data: &[u8],
    result: Result<usize, WriteError>,
) -> bool {
    if proc.caller@.pid != pid {
        result == Err::<usize, WriteError>(WriteError::PermissionDenied)
    } else {
        match proc.user_ns {
            None => result == Err::<usize, WriteError>(WriteError::PermissionDenied),
            Some(handle) => match file {
                PidFile::Setgroups => call_ensures(
                    <S::UserNs as ProcUserNs>::write_setgroups,
                    (&handle, data),
                    result,
                ),
                PidFile::UidMap => call_ensures(
                    <S::UserNs as ProcUserNs>::write_uid_map,
                    (&handle, data),
                    result,
                ),
                PidFile::GidMap => call_ensures(
                    <S::UserNs as ProcUserNs>::write_gid_map,
                    (&handle, data),
                    result,
                ),
                _ => result == Err::<usize, WriteError>(WriteError::NotForWriting),
            },
        }
    }
}

/// A file was written, all of it at once.
pub open spec fn file_written<S: ProcSources>(
    proc: &Proc<S>,
    file: ProcFile,
    data: &[u8],
    offset: usize,
    result: Result<usize, WriteError>,
) -> bool {
    if offset != 0 {
        result == Err::<usize, WriteError>(WriteError::InvalidArgument)
    } else {
        match file {
            ProcFile::Pid(pid, kind) => if configures_user_ns(kind) {
                user_ns_written(proc, pid, kind, data, result)
            } else {
                result == Err::<usize, WriteError>(WriteError::NotForWriting)
            },
            ProcFile::Tid(pid, _, kind) => if configures_user_ns(kind) {
                user_ns_written(proc, pid, kind, data, result)
            } else {
                result == Err::<usize, WriteError>(WriteError::NotForWriting)
            },
            _ => result == Err::<usize, WriteError>(WriteError::NotForWriting),
        }
    }
}

/// The number of a namespace: the initial one's, moved on by the instance if it is not that.
pub open spec fn namespace_number(initial: u64, instance: u64) -> u64 {
    initial.wrapping_add(instance)
}

/// The user namespace of a process was looked up. Only the caller's own is known; every other
/// process shows the initial one.
pub open spec fn user_ns_found<S: ProcSources>(proc: &Proc<S>, pid: i32, number: u64) -> bool {
    match proc.user_ns {
        Some(handle) if proc.caller@.pid == pid => exists|instance: u64| #[trigger]
            call_ensures(<S::UserNs as ProcUserNs>::instance_id, (&handle,), instance) && number
                == namespace_number(INITIAL_USER_NS_INO, instance),
        _ => number == INITIAL_USER_NS_INO,
    }
}

/// The network namespace of a process was looked up.
pub open spec fn net_ns_found<S: ProcSources>(proc: &Proc<S>, pid: i32, number: u64) -> bool {
    match proc.net_ns {
        Some(handle) if proc.caller@.pid == pid => exists|instance: u64| #[trigger]
            call_ensures(<S::NetNs as ProcNetNs>::instance_id, (&handle,), instance) && number
                == namespace_number(INITIAL_NET_NS_INO, instance),
        _ => number == INITIAL_NET_NS_INO,
    }
}

/// The link to a user namespace was followed.
pub open spec fn user_ns_linked<S: ProcSources>(proc: &Proc<S>, pid: i32, target: Seq<char>) -> bool {
    exists|number: u64| #[trigger]
        user_ns_found(proc, pid, number) && target == "user:["@ + decimal(number as nat) + "]"@
}

/// The link to a network namespace was followed.
pub open spec fn net_ns_linked<S: ProcSources>(proc: &Proc<S>, pid: i32, target: Seq<char>) -> bool {
    exists|number: u64| #[trigger]
        net_ns_found(proc, pid, number) && target == "net:["@ + decimal(number as nat) + "]"@
}

/// The link to a descriptor's file was followed.
pub open spec fn fd_linked<S: ProcSources>(
    proc: &Proc<S>,
    pid: i32,
    fd: u32,
    target: Option<Seq<char>>,
) -> bool {
    exists|entry: Option<FdModel>| #[trigger]
        own_fd_found(proc, pid, fd, entry) && target == (match entry {
            Some(entry) => Some(entry.target),
            None => None,
        })
}

/// The link to a process's program image was followed.
pub open spec fn exe_linked<S: ProcSources>(proc: &Proc<S>, pid: i32, target: Option<Seq<char>>) -> bool {
    exists|task: Option<TaskModel>| #[trigger]
        task_found(proc, pid, task) && target == (match task {
            Some(task) => task.exe,
            None => None,
        })
}

/// A magic link was followed; `None` where it leads nowhere.
pub open spec fn linked<S: ProcSources>(proc: &Proc<S>, file: ProcFile, target: Option<Seq<char>>) -> bool {
    match file {
        ProcFile::FdLink(pid, fd) => fd_linked(proc, pid, fd, target),
        ProcFile::Pid(pid, PidFile::Exe) => exe_linked(proc, pid, target),
        ProcFile::Tid(pid, _, PidFile::Exe) => exe_linked(proc, pid, target),
        ProcFile::NsUser(pid) => target matches Some(target) && user_ns_linked(proc, pid, target),
        ProcFile::NsNet(pid) => target matches Some(target) && net_ns_linked(proc, pid, target),
        _ => target is None,
    }
}

/// A text that may be missing.
pub open spec fn target_model(target: Option<String>) -> Option<Seq<char>> {
    match target {
        Some(target) => Some(target@),
        None => None,
    }
}

/// The result of following a link, as a mathematical value.
pub open spec fn link_model(result: Result<String, ReadlinkError>) -> Result<Seq<char>, ReadlinkError> {
    match result {
        Ok(target) => Ok(target@),
        Err(error) => Err(error),
    }
}

/// What following a link that leads somewhere or nowhere comes to.
pub open spec fn link_result(target: Option<Seq<char>>) -> Result<Seq<char>, ReadlinkError> {
    match target {
        Some(target) => Ok(target),
        None => Err(ReadlinkError::PathError(PathError::NoSuchFileOrDirectory)),
    }
}

/// A file was followed as a link: to where it leads if it is one, else it is refused.
pub open spec fn link_read<S: ProcSources>(
    proc: &Proc<S>,
    file: ProcFile,
    result: Result<Seq<char>, ReadlinkError>,
) -> bool {
    if crate::fs::proc::tree::is_link(file) {
        exists|target: Option<Seq<char>>| #[trigger]
            linked(proc, file, target) && result == link_result(target)
    } else {
        result == Err::<Seq<char>, ReadlinkError>(ReadlinkError::NotASymlink)
    }
}

/// Nothing.
fn nothing() -> (bytes: Vec<u8>)
    ensures
        bytes@ == Seq::<u8>::empty(),
{
    Vec::new()
}

/// A fixed text's bytes.
fn fixed(text: &str) -> (bytes: Vec<u8>)
    ensures
        bytes@ == bytes_of(text@),
{
    into_bytes(String::from_str(text))
}

/// The file of a descriptor that is open or not.
pub fn render_fd_info(entry: &Option<ProcFdEntry>) -> (content: Vec<u8>)
    ensures
        content@ == fd_info_bytes(fd_model(*entry)),
{
    match entry {
        Some(entry) => {
            let mut out = String::from_str("pos:\t");
            put_decimal(&mut out, entry.pos);
            out.append("\nflags:\t0");
            put_in_base(&mut out, entry.flags as u64, 8);
            out.append("\nmnt_id:\t1\nino:\t");
            put_decimal(&mut out, entry.ino);
            out.append("\n");
            into_bytes(out)
        },
        None => nothing(),
    }
}

/// The part of a content that a read at an offset sees.
pub fn read_window(content: &Vec<u8>, offset: usize, len: usize) -> (part: Vec<u8>)
    ensures
        part@ == window(content@, offset as int, len as int),
{
    let n: usize = content.len();
    let start: usize = if offset < n {
        offset
    } else {
        n
    };
    let end: usize = match offset.checked_add(len) {
        Some(end) => if end < n {
            end
        } else {
            n
        },
        None => n,
    };
    let mut part: Vec<u8> = Vec::new();
    let mut i: usize = start;
    proof {
        assert(part@ =~= content@.subrange(start as int, start as int));
    }
    while i < end
        invariant
            start <= i <= end <= content@.len(),
            part@ == content@.subrange(start as int, i as int),
        decreases end - i,
    {
        part.push(content[i]);
        proof {
            assert(content@.subrange(start as int, i + 1) =~= content@.subrange(
                start as int,
                i as int,
            ).push(content@[i as int]));
        }
        i += 1;
    }
    part
}

/// The text of a link to a namespace.
fn namespace_text(prefix: &str, number: u64) -> (text: String)
    ensures
        text@ == prefix@ + decimal(number as nat) + "]"@,
{
    let mut out = String::from_str(prefix);
    put_decimal(&mut out, number);
    out.append("]");
    out
}

impl<S: ProcSources> Proc<S> {
    /// One of the files that configure a user namespace.
    fn render_user_ns_file(&self, pid: i32, file: PidFile) -> (content: Vec<u8>)
        requires
            configures_user_ns(file),
        ensures
            user_ns_content(self, pid, file, content@),
    {
        if !self.is_caller(pid) {
            return nothing();
        }
        match &self.user_ns {
            Some(handle) => {
                let answer = match file {
                    PidFile::Setgroups => handle.read_setgroups(),
                    PidFile::UidMap => handle.read_uid_map(),
                    _ => handle.read_gid_map(),
                };
                proof {
                    assert(user_ns_says(handle, file, answer));
                }
                answer
            },
            None => nothing(),
        }
    }

    /// The map of a process's address space.
    fn render_maps_file(&self, pid: i32) -> (content: Vec<u8>)
        ensures
            maps_content(self, pid, content@),
    {
        match &self.mem_map {
            Some(handle) => {
                let maps = handle.maps(pid);
                render_maps(&maps)
            },
            None => nothing(),
        }
    }

    /// The diagnostic counters.
    fn render_counters(&self) -> (content: Vec<u8>)
        ensures
            counters_content(self, content@),
    {
        match &self.counters {
            Some(handle) => {
                let text = handle.snapshot_json();
                into_bytes(text)
            },
            None => fixed("{}"),
        }
    }

    /// A file of a process.
    fn render_task_file(&self, pid: i32, file: PidFile) -> (content: Vec<u8>)
        ensures
            task_content(self, pid, file, content@),
    {
        let task = if file == PidFile::Status {
            self.status_task_info(pid)
        } else {
            self.task_info(pid)
        };
        let content = match &task {
            Some(task) => render_pid_file(task, None, file),
            None => nothing(),
        };
        proof {
            let found = task_model(task);
            assert(content@ == task_bytes(found, file));
            if file == PidFile::Status {
                assert(live_task_found(self, pid, found));
            } else {
                assert(task_found(self, pid, found));
            }
        }
        content
    }

    /// A file of a thread.
    fn render_thread_file(&self, pid: i32, tid: i32, file: PidFile) -> (content: Vec<u8>)
        ensures
            thread_content(self, pid, tid, file, content@),
    {
        let pair: Option<(ProcTaskInfo, ProcThreadInfo)> = if file == PidFile::Status {
            let task = self.status_task_info(pid);
            let ghost found = task_model(task);
            let pair = match task {
                Some(task) => Self::thread_of(task, tid),
                None => None,
            };
            let content = match &pair {
                Some((task, thread)) => render_pid_file(task, Some(thread), file),
                None => nothing(),
            };
            proof {
                assert(pair_model(pair) == thread_in(found, tid));
                assert(content@ == thread_bytes(thread_in(found, tid), file));
                assert(live_task_found(self, pid, found));
            }
            return content;
        } else {
            self.thread_info(pid, tid)
        };
        let content = match &pair {
            Some((task, thread)) => render_pid_file(task, Some(thread), file),
            None => nothing(),
        };
        proof {
            let found = pair_model(pair);
            assert(content@ == thread_bytes(found, file));
            assert(thread_found(self, pid, tid, found));
        }
        content
    }

    /// The content of a file. A link has none: it is followed.
    pub fn render(&self, file: ProcFile) -> (content: Vec<u8>)
        ensures
            rendered(self, file, content@),
    {
        match file {
            ProcFile::Meminfo => render_meminfo(),
            ProcFile::Mounts => render_mounts(),
            ProcFile::StatSystem => render_stat_system(),
            ProcFile::Cpuinfo => render_cpuinfo(),
            ProcFile::Version => render_version(),
            ProcFile::Uptime => render_uptime(self.uptime_secs),
            ProcFile::OverflowUid => fixed("65534\n"),
            ProcFile::OverflowGid => fixed("65534\n"),
            ProcFile::PidMax => fixed("4194304\n"),
            ProcFile::ThreadsMax => fixed("16384\n"),
            ProcFile::InotifyMaxUserWatches => fixed("8192\n"),
            ProcFile::InotifyMaxUserInstances => fixed("128\n"),
            ProcFile::InotifyMaxQueuedEvents => fixed("16384\n"),
            ProcFile::LiteboxCounters => self.render_counters(),
            ProcFile::Pid(pid, kind) => if kind.is_user_ns_file() {
                self.render_user_ns_file(pid, kind)
            } else if kind == PidFile::Maps {
                self.render_maps_file(pid)
            } else {
                self.render_task_file(pid, kind)
            },
            ProcFile::Tid(pid, tid, kind) => if kind.is_user_ns_file() {
                self.render_user_ns_file(pid, kind)
            } else if kind == PidFile::Maps {
                self.render_maps_file(pid)
            } else {
                self.render_thread_file(pid, tid, kind)
            },
            ProcFile::NetDev => render_net_dev(),
            ProcFile::NetRoute => render_net_route(self.net_addrs.0, self.net_addrs.1),
            ProcFile::FdInfo(pid, fd) => {
                let entry = self.own_fd_entry(pid, fd);
                let content = render_fd_info(&entry);
                proof {
                    assert(own_fd_found(self, pid, fd, fd_model(entry)));
                    assert(fd_content(self, pid, fd, content@));
                }
                content
            },
            ProcFile::FdLink(_, _) => nothing(),
            ProcFile::NsUser(_) => nothing(),
            ProcFile::NsNet(_) => nothing(),
        }
    }

    /// The memory of a process. Nothing readable at the address is an error, so that it cannot be
    /// mistaken for the end of a file.
    fn read_mem_file(&self, pid: i32, addr: usize, len: usize) -> (result: Result<Vec<u8>, ReadError>)
        ensures
            memory_read(self, pid, addr, len, read_model(result)),
    {
        if len == 0 {
            return Ok(nothing());
        }
        match &self.mem_access {
            Some(handle) => match handle.read_mem(pid, addr, len) {
                Some(bytes) => Ok(bytes),
                None => Err(ReadError::Io),
            },
            None => Err(ReadError::Io),
        }
    }

    /// Up to `len` bytes of a file from an offset on. For the memory of a process the offset is a
    /// guest virtual address.
    pub fn read(&self, file: ProcFile, len: usize, offset: usize) -> (result: Result<Vec<u8>, ReadError>)
        ensures
            file_read(self, file, len, offset, read_model(result)),
    {
        let memory: Option<i32> = match file {
            ProcFile::Pid(pid, PidFile::Mem) => Some(pid),
            ProcFile::Tid(pid, _, PidFile::Mem) => Some(pid),
            _ => None,
        };
        if let Some(pid) = memory {
            return self.read_mem_file(pid, offset, len);
        }
        let content = self.render(file);
        let part = read_window(&content, offset, len);
        proof {
            assert(rendered(self, file, content@));
        }
        Ok(part)
    }

    /// Writes one of the files that configure a user namespace.
    fn write_user_ns_file(&self, pid: i32, file: PidFile, data: &[u8]) -> (result: Result<
        usize,
        WriteError,
    >)
        requires
            configures_user_ns(file),
        ensures
            user_ns_written(self, pid, file, data, result),
    {
        if !self.is_caller(pid) {
            return Err(WriteError::PermissionDenied);
        }
        match &self.user_ns {
            Some(handle) => match file {
                PidFile::Setgroups => handle.write_setgroups(data),
                PidFile::UidMap => handle.write_uid_map(data),
                _ => handle.write_gid_map(data),
            },
            None => Err(WriteError::PermissionDenied),
        }
    }

    /// Writes a file, all of it at once.
    pub fn write(&self, file: ProcFile, data: &[u8], offset: usize) -> (result: Result<usize, WriteError>)
        ensures
            file_written(self, file, data, offset, result),
    {
        if offset != 0 {
            return Err(WriteError::InvalidArgument);
        }
        match file {
            ProcFile::Pid(pid, kind) => if kind.is_user_ns_file() {
                self.write_user_ns_file(pid, kind, data)
            } else {
                Err(WriteError::NotForWriting)
            },
            ProcFile::Tid(pid, _, kind) => if kind.is_user_ns_file() {
                self.write_user_ns_file(pid, kind, data)
            } else {
                Err(WriteError::NotForWriting)
            },
            _ => Err(WriteError::NotForWriting),
        }
    }

    /// The text of the link to a process's user namespace.
    fn user_ns_link_target(&self, pid: i32) -> (target: String)
        ensures
            user_ns_linked(self, pid, target@),
    {
        let number: u64 = match &self.user_ns {
            Some(handle) => if self.is_caller(pid) {
                INITIAL_USER_NS_INO.wrapping_add(handle.instance_id())
            } else {
                INITIAL_USER_NS_INO
            },
            None => INITIAL_USER_NS_INO,
        };
        proof {
            assert(user_ns_found(self, pid, number));
        }
        namespace_text("user:[", number)
    }

    /// The text of the link to a process's network namespace.
    fn net_ns_link_target(&self, pid: i32) -> (target: String)
        ensures
            net_ns_linked(self, pid, target@),
    {
        let number: u64 = match &self.net_ns {
            Some(handle) => if self.is_caller(pid) {
                INITIAL_NET_NS_INO.wrapping_add(handle.instance_id())
            } else {
                INITIAL_NET_NS_INO
            },
            None => INITIAL_NET_NS_INO,
        };
        proof {
            assert(net_ns_found(self, pid, number));
        }
        namespace_text("net:[", number)
    }

    /// Follows the link to a descriptor's file.
    fn fd_link_target(&self, pid: i32, fd: u32) -> (target: Option<String>)
        ensures
            fd_linked(self, pid, fd, target_model(target)),
    {
        let entry = self.own_fd_entry(pid, fd);
        let ghost found = fd_model(entry);
        proof {
            assert(own_fd_found(self, pid, fd, found));
        }
        match entry {
            Some(entry) => Some(entry.target),
            None => None,
        }
    }

    /// Follows the link to a process's program image.
    fn exe_link_target(&self, pid: i32) -> (target: Option<String>)
        ensures
            exe_linked(self, pid, target_model(target)),
    {
        let task = self.task_info(pid);
        let ghost found = task_model(task);
        proof {
            assert(task_found(self, pid, found));
        }
        match task {
            Some(task) => task.exe,
            None => None,
        }
    }

    /// Follows a magic link; `None` where it leads nowhere.
    pub(crate) fn link_target(&self, file: ProcFile) -> (target: Option<String>)
        ensures
            linked(self, file, target_model(target)),
    {
        match file {
            ProcFile::FdLink(pid, fd) => self.fd_link_target(pid, fd),
            ProcFile::Pid(pid, PidFile::Exe) => self.exe_link_target(pid),
            ProcFile::Tid(pid, _, PidFile::Exe) => self.exe_link_target(pid),
            ProcFile::NsUser(pid) => Some(self.user_ns_link_target(pid)),
            ProcFile::NsNet(pid) => Some(self.net_ns_link_target(pid)),
            _ => None,
        }
    }

    /// The target of a magic link.
    pub fn read_link(&self, file: ProcFile) -> (result: Result<String, ReadlinkError>)
        ensures
            link_read(self, file, link_model(result)),
    {
        if !file.is_magic_link() {
            return Err(ReadlinkError::NotASymlink);
        }
        let target = self.link_target(file);
        let ghost found = target_model(target);
        proof {
            assert(linked(self, file, found));
        }
        match target {
            Some(target) => Ok(target),
            None => Err(ReadlinkError::PathError(PathError::NoSuchFileOrDirectory)),
        }
    }
}

} // verus!
