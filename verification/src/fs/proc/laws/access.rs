//! Who may open, read and write which file, and what comes of it.
use crate::fs::proc::tree::{PidFile, ProcDir, ProcFile};
use crate::fs::proc::{Proc, ProcSources};
use crate::fs::{OFlags, OpenError, PathError, PermissionInfo, ReadError, WriteError};
use vstd::prelude::*;

verus! {

use crate::fs::proc::content::{
    fd_content, file_read, file_written, linked, memory_of, net_ns_linked, rendered, user_ns_content,
    user_ns_linked, window,
};
use crate::fs::proc::laws::numbers::{is_lower_numeral, lemma_number_reads_back, spelled};
use crate::fs::proc::lookup::thread_at;
use crate::fs::proc::open::{dir_rights, file_at, file_rights, opened};
use crate::fs::proc::status::status_rights;
use crate::fs::proc::walk::holder_found;
use crate::fs::proc::ThreadModel;

/// A read shows the content from its offset on, byte for byte: as much as was asked for, or as much as
/// there is.
pub proof fn lemma_read_shows_the_content(content: Seq<u8>, offset: int, len: int, i: int)
    requires
        0 <= offset,
        0 <= len,
    ensures
        window(content, offset, len).len() == (if offset >= content.len() {
            0
        } else if offset + len <= content.len() {
            len
        } else {
            content.len() - offset
        }),
        0 <= i < window(content, offset, len).len() ==> window(content, offset, len)[i] == content[offset
            + i],
{
}

/// Two reads of a file whose content does not change in between show what one read of both lengths
/// shows, and nothing comes behind the end.
pub proof fn lemma_reads_of_a_file<S: ProcSources>(
    proc: &Proc<S>,
    file: ProcFile,
    len: usize,
    offset: usize,
    result: Result<Seq<u8>, ReadError>,
)
    requires
        file_read(proc, file, len, offset, result),
        memory_of(file) is None,
    ensures
        result matches Ok(shown) && shown.len() <= len && exists|content: Seq<u8>| #[trigger]
            rendered(proc, file, content) && (offset >= content.len() ==> shown.len() == 0) && (offset + len
                <= content.len() ==> shown.len() == len) && forall|i: int|
            0 <= i < shown.len() ==> #[trigger] shown[i] == content[offset + i],
{
    let content = choose|content: Seq<u8>| #[trigger]
        rendered(proc, file, content) && result == Ok::<Seq<u8>, ReadError>(
            window(content, offset as int, len as int),
        );
    let shown = window(content, offset as int, len as int);
    assert forall|i: int| 0 <= i < shown.len() implies #[trigger] shown[i] == content[offset + i] by {
        lemma_read_shows_the_content(content, offset as int, len as int, i);
    }
    assert(rendered(proc, file, content));
}

/// A process's memory file reads memory, whatever its name is reached by, and no other file does; a read
/// of nothing gives nothing, and without a way to read memory any other read fails.
pub proof fn lemma_memory_is_read_through_its_file<S: ProcSources>(
    proc: &Proc<S>,
    file: ProcFile,
    len: usize,
    offset: usize,
    result: Result<Seq<u8>, ReadError>,
)
    requires
        file_read(proc, file, len, offset, result),
    ensures
        memory_of(file) is Some <==> (file matches ProcFile::Pid(_, kind) && kind == PidFile::Mem) || (
        file matches ProcFile::Tid(_, _, kind) && kind == PidFile::Mem),
        memory_of(file) is Some && len == 0 ==> result == Ok::<Seq<u8>, ReadError>(Seq::empty()),
        memory_of(file) is Some && len > 0 && proc.mem_access is None ==> result == Err::<Seq<u8>, ReadError>(
            ReadError::Io,
        ),
{
}

/// A write goes through only at the start of a file that configures a user namespace, and only for the
/// caller's own process. Every other write is refused: away from the start as invalid, to any other file
/// as not open for writing, and for another process as not permitted.
pub proof fn lemma_only_own_user_ns_is_written<S: ProcSources>(
    proc: &Proc<S>,
    file: ProcFile,
    data: &[u8],
    offset: usize,
    result: Result<usize, WriteError>,
)
    requires
        file_written(proc, file, data, offset, result),
    ensures
        offset != 0 ==> result == Err::<usize, WriteError>(WriteError::InvalidArgument),
        offset == 0 ==> match file {
            ProcFile::Pid(pid, kind) | ProcFile::Tid(pid, _, kind) => if kind == PidFile::UidMap || kind
                == PidFile::GidMap || kind == PidFile::Setgroups {
                proc.caller@.pid != pid || proc.user_ns is None ==> result == Err::<usize, WriteError>(
                    WriteError::PermissionDenied,
                )
            } else {
                result == Err::<usize, WriteError>(WriteError::NotForWriting)
            },
            _ => result == Err::<usize, WriteError>(WriteError::NotForWriting),
        },
{
}

/// What a process's own user namespace or descriptors say is shown to nobody else: another process's
/// files of that kind are empty.
pub proof fn lemma_private_files_are_empty_for_others<S: ProcSources>(
    proc: &Proc<S>,
    pid: i32,
    kind: PidFile,
    fd: u32,
    content: Seq<u8>,
    target: Option<Seq<char>>,
)
    requires
        proc.caller@.pid != pid,
    ensures
        user_ns_content(proc, pid, kind, content) ==> content.len() == 0,
        fd_content(proc, pid, fd, content) ==> content.len() == 0,
        linked(proc, ProcFile::FdLink(pid, fd), target) ==> target is None,
{
}

/// The digits of a namespace link spell its number: the number of the initial namespace for any process
/// but the caller, which is always the same.
pub proof fn lemma_namespace_links_tell_namespaces_apart<S: ProcSources>(
    proc: &Proc<S>,
    pid: i32,
    target: Seq<char>,
)
    requires
        proc.caller@.pid != pid,
    ensures
        user_ns_linked(proc, pid, target) ==> exists|digits: Seq<char>|
            target == "user:["@ + digits + "]"@ && #[trigger] is_lower_numeral(digits, 10) && spelled(
                digits,
                10,
            ) == crate::fs::proc::content::INITIAL_USER_NS_INO,
        net_ns_linked(proc, pid, target) ==> exists|digits: Seq<char>|
            target == "net:["@ + digits + "]"@ && #[trigger] is_lower_numeral(digits, 10) && spelled(
                digits,
                10,
            ) == crate::fs::proc::content::INITIAL_NET_NS_INO,
        crate::fs::proc::content::INITIAL_USER_NS_INO != crate::fs::proc::content::INITIAL_NET_NS_INO,
{
    let (user, net) = (
        crate::fs::proc::content::INITIAL_USER_NS_INO as nat,
        crate::fs::proc::content::INITIAL_NET_NS_INO as nat,
    );
    lemma_number_reads_back(user, 10);
    lemma_number_reads_back(net, 10);
    assert(is_lower_numeral(crate::fs::text::decimal(user), 10));
    assert(is_lower_numeral(crate::fs::text::decimal(net), 10));
}

/// Opening a file and asking for its status tell the same mode and the same owner. The caller's memory
/// and descriptor details are readable by the owner alone; the files that configure a user namespace are
/// writable by the owner alone; every other file that is no link can be read by all and written by none.
pub proof fn lemma_open_and_status_agree(dir: ProcDir, name: Seq<char>, fd: Option<u32>)
    requires
        file_at(dir, name, fd) is Some,
    ensures
        file_rights(dir, file_at(dir, name, fd)->0) == status_rights(file_at(dir, name, fd)->0),
        match file_at(dir, name, fd)->0 {
            ProcFile::Pid(pid, kind) | ProcFile::Tid(pid, _, kind) => status_rights(
                file_at(dir, name, fd)->0,
            ) == (
                match kind {
                    PidFile::Exe => 0o777u32,
                    PidFile::UidMap | PidFile::GidMap | PidFile::Setgroups => 0o644u32,
                    PidFile::Mem => 0o400u32,
                    _ => 0o444u32,
                },
                Some(pid),
            ),
            ProcFile::FdLink(pid, _) => status_rights(file_at(dir, name, fd)->0) == (0o700u32, Some(pid)),
            ProcFile::FdInfo(pid, _) => status_rights(file_at(dir, name, fd)->0) == (0o400u32, Some(pid)),
            ProcFile::NsUser(pid) => status_rights(file_at(dir, name, fd)->0) == (0o777u32, Some(pid)),
            ProcFile::NsNet(pid) => status_rights(file_at(dir, name, fd)->0) == (0o777u32, Some(pid)),
            _ => status_rights(file_at(dir, name, fd)->0) == (0o444u32, None::<i32>),
        },
{
}

/// A process's directories belong to the process's user, and its descriptors are the owner's alone.
pub proof fn lemma_directories_have_owners(dir: ProcDir)
    ensures
        match dir {
            ProcDir::Fd(pid) | ProcDir::FdInfo(pid) => dir_rights(dir) == (0o500u32, Some(pid)),
            ProcDir::Pid(pid) | ProcDir::Task(pid) | ProcDir::Tid(pid, _) | ProcDir::Ns(pid) => dir_rights(
                dir,
            ) == (0o755u32, Some(pid)),
            _ => dir_rights(dir) == (0o755u32, None::<i32>),
        },
{
}

/// Opening a name gives a file only where the directory holds one by that name. It refuses to open
/// anything as a directory, to follow a link unless only the path is asked for, and to change anything
/// but the files that configure a user namespace.
pub proof fn lemma_open_is_lawful<S: ProcSources>(
    proc: &Proc<S>,
    dir: ProcDir,
    name: Seq<char>,
    flags: OFlags,
    result: Result<(ProcFile, PermissionInfo), OpenError>,
)
    requires
        opened(proc, dir, name, flags, result),
    ensures
        flags.bits & 0o200000 == 0o200000 ==> result is Err,
        result matches Ok((file, rights)) ==> {
            &&& flags.bits & 0o200000 != 0o200000
            &&& crate::fs::proc::tree::is_link(file) ==> flags.bits & 0o10000000 == 0o10000000
            &&& crate::fs::proc::open::changes(flags) ==> match file {
                ProcFile::Pid(_, kind) | ProcFile::Tid(_, _, kind) => kind == PidFile::UidMap || kind
                    == PidFile::GidMap || kind == PidFile::Setgroups,
                _ => false,
            }
            &&& exists|fd: Option<u32>| #[trigger] file_at(dir, name, fd) == Some(file)
            &&& rights.mode == status_rights(file).0
        },
        result == Err::<(ProcFile, PermissionInfo), OpenError>(
            OpenError::PathError(PathError::NoSuchFileOrDirectory),
        ) ==> exists|fd: Option<u32>| (#[trigger] file_at(dir, name, fd)) is None,
{
    let fd = choose|fd: Option<u32>| #[trigger]
        crate::fs::proc::open::fd_sought(proc, dir, name, fd) && match file_at(dir, name, fd) {
            None => result == Err::<(ProcFile, PermissionInfo), OpenError>(
                OpenError::PathError(PathError::NoSuchFileOrDirectory),
            ),
            Some(file) => match crate::fs::proc::open::open_refusal(file, flags) {
                Some(error) => result == Err::<(ProcFile, PermissionInfo), OpenError>(error),
                None => {
                    let (mode, who) = file_rights(dir, file);
                    exists|owner: crate::fs::UserInfo| #[trigger]
                        holder_found(proc, who, owner) && result == Ok::<
                            (ProcFile, PermissionInfo),
                            OpenError,
                        >((file, PermissionInfo { mode, owner }))
                },
            },
        };
    if file_at(dir, name, fd) is Some {
        lemma_open_and_status_agree(dir, name, fd);
    }
}

/// The thread that is found has the number that was asked for and is among the threads; and one is found
/// wherever there is one.
pub proof fn lemma_thread_is_found(threads: Seq<ThreadModel>, tid: i32)
    ensures
        thread_at(threads, tid) matches Some(thread) ==> thread.tid == tid && threads.contains(thread),
        thread_at(threads, tid) is None <==> forall|i: int|
            0 <= i < threads.len() ==> (#[trigger] threads[i]).tid != tid,
    decreases threads.len(),
{
    if threads.len() > 0 {
        let rest = threads.drop_first();
        lemma_thread_is_found(rest, tid);
        if threads[0].tid == tid {
            assert(threads.contains(threads[0]));
        } else {
            if let Some(thread) = thread_at(rest, tid) {
                let i = choose|i: int| 0 <= i < rest.len() && rest[i] == thread;
                assert(threads[i + 1] == thread);
            }
            if thread_at(rest, tid) is None {
                assert forall|i: int| 0 <= i < threads.len() implies (#[trigger] threads[i]).tid != tid by {
                    if i > 0 {
                        assert(rest[i - 1] == threads[i]);
                    }
                }
            } else {
                let i = choose|i: int| 0 <= i < rest.len() && rest[i] == thread_at(rest, tid)->0;
                assert(threads[i + 1].tid == tid);
            }
        }
    }
}

} // verus!
