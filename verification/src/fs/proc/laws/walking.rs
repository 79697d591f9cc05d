//! Where a path leads, and what is listed along it.
use crate::fs::proc::tree::ProcDir;
use crate::fs::proc::walk::{Sighting, Step};
use crate::fs::proc::{Proc, ProcSources};
use crate::fs::{FileType, PathError, PermissionInfo, UserInfo, WalkError, WalkStopReason};
use vstd::prelude::*;

verus! {

use crate::fs::proc::laws::numbers::{is_lower_numeral, lemma_number_reads_back, spelled};
use crate::fs::proc::listing::{fd_entries, fds_listed, listed, process_entries};
use crate::fs::proc::open::dir_rights;
use crate::fs::proc::status::{links_counted, pid_links, root_links, task_links};
use crate::fs::proc::walk::{holder_found, sighted, step_of, walked, WalkModel};
use crate::fs::proc::TaskModel;
use crate::fs::EntryModel;
use crate::fs::text::{decimal, lemma_pid_round_trip, pid_value, signed};

/// A directory that a walk enters has the rights that its own status tells.
pub proof fn lemma_walk_and_status_agree(dir: ProcDir, name: Seq<char>, seen: Sighting, caller: (i32, i32))
    ensures
        step_of(dir, name, seen, caller) matches Step::Enter(next, mode, who) ==> (mode, who) == dir_rights(
            next,
        ),
{
}

/// The caller finds itself under its own name, and its thread likewise. A number leads into a process or a
/// thread only if one was seen there, and then into the one of that number; and a process's directory
/// leads on only into directories of the same process.
pub proof fn lemma_steps_lead_where_they_say(dir: ProcDir, name: Seq<char>, seen: Sighting, caller: (i32, i32))
    ensures
        dir == ProcDir::Root && name == "self"@ ==> (step_of(dir, name, seen, caller) matches Step::Enter(
            next,
            _,
            _,
        ) && next == ProcDir::Pid(caller.0)),
        dir == ProcDir::Root && name == "thread-self"@ && name != "self"@ ==> (step_of(
            dir,
            name,
            seen,
            caller,
        ) matches Step::Enter(next, _, _) && next == ProcDir::Tid(caller.0, caller.1)),
        dir == ProcDir::Root && name != "self"@ && name != "thread-self"@ ==> (step_of(
            dir,
            name,
            seen,
            caller,
        ) matches Step::Enter(next, _, _) ==> match next {
            ProcDir::Pid(pid) => seen.task && pid_value(name) == Some(pid),
            ProcDir::Tid(pid, tid) => !seen.task && seen.owner == Some(pid) && pid_value(name) == Some(tid),
            ProcDir::SysDir => name == "sys"@,
            ProcDir::NetDir => name == "net"@,
            ProcDir::LiteboxDir => name == "litebox"@,
            _ => false,
        }),
        dir matches ProcDir::Pid(pid) ==> (step_of(dir, name, seen, caller) matches Step::Enter(next, _, _)
            ==> next == ProcDir::Fd(pid) && name == "fd"@ || next == ProcDir::FdInfo(pid) && name
            == "fdinfo"@ || next == ProcDir::Task(pid) && name == "task"@ || next == ProcDir::Ns(pid) && name
            == "ns"@),
        dir matches ProcDir::Task(pid) ==> (step_of(dir, name, seen, caller) matches Step::Enter(next, _, _)
            ==> seen.thread && (pid_value(name) matches Some(tid) && next == ProcDir::Tid(pid, tid))),
        dir is Tid || dir is Fd || dir is FdInfo || dir is Ns || dir is SysKernelDir || dir is NetDir
            || dir is LiteboxDir ==> !(step_of(dir, name, seen, caller) is Enter),
{
}

/// A walk that ends in a directory entered one directory for each name, and one that a file stopped
/// entered fewer; what was entered before stays first. A walk fails only for want of a name.
pub proof fn lemma_walk_enters_each_name<S: ProcSources>(
    proc: &Proc<S>,
    dir: ProcDir,
    names: Seq<Seq<char>>,
    entered: Seq<PermissionInfo>,
    result: Result<WalkModel, WalkError>,
)
    requires
        walked(proc, dir, names, entered, result),
    ensures
        match result {
            Ok(outcome) => {
                &&& entered.len() <= outcome.components.len() <= entered.len() + names.len()
                &&& forall|i: int|
                    0 <= i < entered.len() ==> #[trigger] outcome.components[i] == entered[i]
                &&& match outcome.stop_reason {
                    WalkStopReason::CompleteDirectory => outcome.components.len() == entered.len()
                        + names.len(),
                    WalkStopReason::StoppedAtNonDirectory => outcome.components.len() < entered.len()
                        + names.len(),
                }
            },
            Err(error) => error == WalkError::PathError(PathError::NoSuchFileOrDirectory) && names.len() > 0,
        },
        names.len() == 0 ==> (result matches Ok(outcome) && outcome.last == dir),
    decreases names.len(),
{
    reveal(walked);
    if names.len() > 0 {
        let seen = choose|seen: Sighting| #[trigger]
            sighted(proc, dir, names[0], seen) && match step_of(
                dir,
                names[0],
                seen,
                (proc.caller@.pid, proc.caller_tid),
            ) {
                Step::Missing => result == Err::<WalkModel, WalkError>(
                    WalkError::PathError(PathError::NoSuchFileOrDirectory),
                ),
                Step::NotADirectory => result == Ok::<WalkModel, WalkError>(
                    WalkModel {
                        components: entered,
                        last: dir,
                        stop_reason: WalkStopReason::StoppedAtNonDirectory,
                    },
                ),
                Step::Enter(next, mode, who) => exists|owner: UserInfo| #[trigger]
                    holder_found(proc, who, owner) && walked(
                        proc,
                        next,
                        names.drop_first(),
                        entered.push(PermissionInfo { mode, owner }),
                        result,
                    ),
            };
        if let Step::Enter(next, mode, who) = step_of(
            dir,
            names[0],
            seen,
            (proc.caller@.pid, proc.caller_tid),
        ) {
            let owner = choose|owner: UserInfo| #[trigger]
                holder_found(proc, who, owner) && walked(
                    proc,
                    next,
                    names.drop_first(),
                    entered.push(PermissionInfo { mode, owner }),
                    result,
                );
            let more = entered.push(PermissionInfo { mode, owner });
            lemma_walk_enters_each_name(proc, next, names.drop_first(), more, result);
            if let Ok(outcome) = result {
                assert forall|i: int| 0 <= i < entered.len() implies #[trigger] outcome.components[i]
                    == entered[i] by {
                    assert(outcome.components[i] == more[i]);
                }
            }
        }
    }
}

/// Every process is listed once at the root, as a directory whose name reads back as its number, in
/// ascending order; the caller is among them.
pub proof fn lemma_processes_are_listed<S: ProcSources>(proc: &Proc<S>, list: Seq<EntryModel>)
    requires
        listed(proc, ProcDir::Root, list),
    ensures
        exists|pids: Seq<i32>|
            {
                &&& #[trigger] crate::fs::proc::lookup::pids_listed(proc, pids)
                &&& list.len() == pids.len() + 9 + (if proc.caller@.pid > 0 {
                    2int
                } else {
                    0int
                })
                &&& proc.caller@.pid > 0 ==> pids.contains(proc.caller@.pid)
                &&& forall|i: int, j: int| 0 <= i < j < pids.len() ==> #[trigger] pids[i] < #[trigger] pids[j]
                &&& forall|i: int|
                    0 <= i < pids.len() ==> (#[trigger] list[6 + i]).file_type == FileType::Directory
                        && list[6 + i].name == signed(pids[i] as int) && (pids[i] > 0 ==> pid_value(
                        list[6 + i].name,
                    ) == Some(pids[i]))
            },
{
    let pids = choose|pids: Seq<i32>| #[trigger]
        crate::fs::proc::lookup::pids_listed(proc, pids) && list
            == crate::fs::proc::listing::root_entries(proc, pids);
    assert forall|i: int| 0 <= i < pids.len() implies (#[trigger] list[6 + i]).file_type
        == FileType::Directory && list[6 + i].name == signed(pids[i] as int) && (pids[i] > 0 ==> pid_value(
        list[6 + i].name,
    ) == Some(pids[i])) by {
        assert(list[6 + i] == process_entries(proc, pids)[i]);
        if pids[i] > 0 {
            lemma_pid_round_trip(pids[i], signed(pids[i] as int));
        }
    }
    if proc.caller@.pid > 0 {
        assert(pids.contains(proc.caller@.pid));
    }
}

/// The descriptors of a process are listed for itself alone: as links under one directory and as files
/// under the other, each under the decimal of its number.
pub proof fn lemma_descriptors_are_listed<S: ProcSources>(proc: &Proc<S>, pid: i32, list: Seq<EntryModel>)
    ensures
        listed(proc, ProcDir::Fd(pid), list) && proc.caller@.pid != pid ==> list.len() == 0,
        listed(proc, ProcDir::FdInfo(pid), list) && proc.caller@.pid != pid ==> list.len() == 0,
        listed(proc, ProcDir::Fd(pid), list) ==> exists|fds: Seq<u32>| #[trigger]
            fds_listed(proc, pid, fds) && list.len() == fds.len() && forall|i: int|
            0 <= i < list.len() ==> (#[trigger] list[i]).file_type == FileType::SymLink && is_lower_numeral(
                list[i].name,
                10,
            ) && spelled(list[i].name, 10) == fds[i],
        listed(proc, ProcDir::FdInfo(pid), list) ==> exists|fds: Seq<u32>| #[trigger]
            fds_listed(proc, pid, fds) && list.len() == fds.len() && forall|i: int|
            0 <= i < list.len() ==> (#[trigger] list[i]).file_type == FileType::RegularFile
                && is_lower_numeral(list[i].name, 10) && spelled(list[i].name, 10) == fds[i],
{
    assert forall|value: u32| #[trigger] is_lower_numeral(decimal(value as nat), 10) && spelled(
        decimal(value as nat),
        10,
    ) == value by {
        lemma_number_reads_back(value as nat, 10);
    }
    if listed(proc, ProcDir::Fd(pid), list) {
        let fds = choose|fds: Seq<u32>| #[trigger]
            fds_listed(proc, pid, fds) && list == fd_entries(
                proc,
                fds,
                FileType::SymLink,
                crate::fs::proc::tree::FD_LINK_INODE_BASE,
            );
        assert forall|i: int| 0 <= i < list.len() implies (#[trigger] list[i]).file_type
            == FileType::SymLink && is_lower_numeral(list[i].name, 10) && spelled(list[i].name, 10)
            == fds[i] by {
            assert(is_lower_numeral(decimal(fds[i] as nat), 10));
        }
        assert(fds_listed(proc, pid, fds));
    }
    if listed(proc, ProcDir::FdInfo(pid), list) {
        let fds = choose|fds: Seq<u32>| #[trigger]
            fds_listed(proc, pid, fds) && list == fd_entries(
                proc,
                fds,
                FileType::RegularFile,
                crate::fs::proc::tree::FD_INFO_INODE_BASE,
            );
        assert forall|i: int| 0 <= i < list.len() implies (#[trigger] list[i]).file_type
            == FileType::RegularFile && is_lower_numeral(list[i].name, 10) && spelled(list[i].name, 10)
            == fds[i] by {
            assert(is_lower_numeral(decimal(fds[i] as nat), 10));
        }
        assert(fds_listed(proc, pid, fds));
    }
}

/// A directory counts two links of its own and one for each directory in it: a process's has four in it,
/// its thread directory one for each thread, and the root one for each process and three more. Where
/// there is no such process there is nothing to count.
pub proof fn lemma_links_count_directories<S: ProcSources>(
    proc: &Proc<S>,
    pid: i32,
    task: Option<TaskModel>,
    rest: Seq<Seq<char>>,
    count: Option<u64>,
)
    ensures
        task_links(proc, pid, task, rest, count) && task is None ==> count is None,
        task_links(proc, pid, task, rest, count) && task is Some && rest.len() == 0 ==> count == Some(6u64),
        task_links(proc, pid, task, rest, count) && task is Some && rest.len() == 1 && rest[0] == "task"@
            && rest[0] != "fd"@ && rest[0] != "fdinfo"@ && rest[0] != "ns"@ && task->0.threads.len()
            < 0xffff_ffff ==> count == Some((task->0.threads.len() + 2) as u64),
        root_links(proc, count) ==> exists|pids: Seq<i32>| #[trigger]
            crate::fs::proc::lookup::pids_listed(proc, pids) && (pids.len() < 0xffff_ffff ==> count == Some(
                (pids.len() + 5) as u64,
            )),
        links_counted(proc, Seq::empty(), count) ==> root_links(proc, count),
{
}

} // verus!
