//! Walking the directories, and opening what is in them.
use crate::fs::proc::tree::{PidFile, ProcDir, ProcFile};
use crate::fs::proc::{Proc, ProcSources};
use crate::fs::text::{is_text, parse_pid};
use crate::fs::{PathError, PermissionInfo, UserInfo, WalkError, WalkStopReason};
use vstd::prelude::*;

verus! {

use crate::fs::proc::lookup::{
    fd_named, owner_found, pair_model, task_found, thread_found, user_found,
};
use crate::fs::proc::tree::{file_in_dir, pid_file_named};
use crate::fs::proc::{task_model, TaskModel, ThreadModel};
use crate::fs::root_user;
use crate::fs::text::{
    is_digit, lemma_decimal_reads_back, lemma_pid_round_trip, pid_value, signed,
};

/// The mode of a directory that everybody may look into.
pub const READONLY_DIR_MODE: u32 = 0o755;

/// The mode of a file that everybody may read.
pub const READONLY_FILE_MODE: u32 = 0o444;

/// The mode of the descriptor directories: a task's descriptors are its own.
pub const OWNER_ONLY_DIR_MODE: u32 = 0o500;

/// The mode of a file that only its owner may read.
pub const OWNER_ONLY_FILE_MODE: u32 = 0o400;

/// The mode of a magic link to a descriptor.
pub const FD_LINK_MODE: u32 = 0o700;

/// The mode of the magic link to the program image.
pub const EXE_LINK_MODE: u32 = 0o777;

/// The mode of a magic link to a namespace.
pub const NS_LINK_MODE: u32 = 0o777;

/// The mode of the files that configure a user namespace.
pub const USER_NS_FILE_MODE: u32 = 0o644;

/// What was found of a name, as far as a directory's entries depend on what is live.
#[derive(Clone, Copy, Debug, PartialEq, Eq, Structural)]
pub struct Sighting {
    /// The name is that of a live process.
    pub task: bool,
    /// The name is that of a live thread of this process.
    pub owner: Option<i32>,
    /// The name is that of a live thread of the directory's process.
    pub thread: bool,
    /// The name is that of this open descriptor.
    pub fd: Option<u32>,
}

/// Nothing live was found.
pub open spec fn no_sighting() -> Sighting {
    Sighting { task: false, owner: None, thread: false, fd: None }
}

/// A name at the root of the tree was looked up: a process first, and then a thread.
pub open spec fn root_sighted<S: ProcSources>(proc: &Proc<S>, pid: i32, seen: Sighting) -> bool {
    exists|task: Option<TaskModel>| #[trigger]
        task_found(proc, pid, task) && if task is Some {
            seen == (Sighting { task: true, ..no_sighting() })
        } else {
            exists|owner: Option<i32>| #[trigger]
                owner_found(proc, pid, owner) && seen == (Sighting { owner, ..no_sighting() })
        }
}

/// A name among the threads of a process was looked up.
pub open spec fn thread_sighted<S: ProcSources>(
    proc: &Proc<S>,
    pid: i32,
    tid: i32,
    seen: Sighting,
) -> bool {
    exists|found: Option<(TaskModel, ThreadModel)>| #[trigger]
        thread_found(proc, pid, tid, found) && seen == (Sighting {
            thread: found is Some,
            ..no_sighting()
        })
}

/// A name among the descriptors of a process was looked up.
pub open spec fn fd_sighted<S: ProcSources>(
    proc: &Proc<S>,
    pid: i32,
    name: Seq<char>,
    seen: Sighting,
) -> bool {
    exists|fd: Option<u32>| #[trigger]
        fd_named(proc, pid, name, fd) && seen == (Sighting { fd, ..no_sighting() })
}

/// What is live of a name in a directory was looked up.
pub open spec fn sighted<S: ProcSources>(
    proc: &Proc<S>,
    dir: ProcDir,
    name: Seq<char>,
    seen: Sighting,
) -> bool {
    match dir {
        ProcDir::Root => match pid_value(name) {
            Some(pid) => root_sighted(proc, pid, seen),
            None => seen == no_sighting(),
        },
        ProcDir::Task(pid) => match pid_value(name) {
            Some(tid) => thread_sighted(proc, pid, tid, seen),
            None => seen == no_sighting(),
        },
        ProcDir::Fd(pid) => fd_sighted(proc, pid, name, seen),
        ProcDir::FdInfo(pid) => fd_sighted(proc, pid, name, seen),
        _ => seen == no_sighting(),
    }
}

/// Where one component leads.
#[derive(Clone, Copy, Debug, PartialEq, Eq, Structural)]
pub enum Step {
    /// Into a directory with a mode, owned by a process's user or by the superuser.
    Enter(ProcDir, u32, Option<i32>),
    /// To something that is no directory.
    NotADirectory,
    Missing,
}

/// A step to a file, if there is one.
pub open spec fn file_step(there: bool) -> Step {
    if there {
        Step::NotADirectory
    } else {
        Step::Missing
    }
}

/// Where a name at the root of the tree leads. `self` and `thread-self` are directories of the
/// caller.
pub open spec fn root_step(name: Seq<char>, seen: Sighting, caller: (i32, i32)) -> Step {
    if name == "self"@ {
        Step::Enter(ProcDir::Pid(caller.0), READONLY_DIR_MODE, Some(caller.0))
    } else if name == "thread-self"@ {
        Step::Enter(ProcDir::Tid(caller.0, caller.1), READONLY_DIR_MODE, Some(caller.0))
    } else if pid_value(name) is Some && seen.task {
        Step::Enter(ProcDir::Pid(pid_value(name)->0), READONLY_DIR_MODE, Some(pid_value(name)->0))
    } else if pid_value(name) is Some && seen.owner is Some {
        Step::Enter(
            ProcDir::Tid(seen.owner->0, pid_value(name)->0),
            READONLY_DIR_MODE,
            Some(seen.owner->0),
        )
    } else if name == "sys"@ {
        Step::Enter(ProcDir::SysDir, READONLY_DIR_MODE, None)
    } else if name == "net"@ {
        Step::Enter(ProcDir::NetDir, READONLY_DIR_MODE, None)
    } else if name == "litebox"@ {
        Step::Enter(ProcDir::LiteboxDir, READONLY_DIR_MODE, None)
    } else {
        file_step(file_in_dir(ProcDir::Root, name) is Some)
    }
}

/// Where a name in a process's directory leads.
pub open spec fn pid_step(pid: i32, name: Seq<char>) -> Step {
    if name == "fd"@ {
        Step::Enter(ProcDir::Fd(pid), OWNER_ONLY_DIR_MODE, Some(pid))
    } else if name == "fdinfo"@ {
        Step::Enter(ProcDir::FdInfo(pid), OWNER_ONLY_DIR_MODE, Some(pid))
    } else if name == "task"@ {
        Step::Enter(ProcDir::Task(pid), READONLY_DIR_MODE, Some(pid))
    } else if name == "ns"@ {
        Step::Enter(ProcDir::Ns(pid), READONLY_DIR_MODE, Some(pid))
    } else {
        file_step(pid_file_named(name) is Some)
    }
}

/// Where a name in a directory leads, given what is live of it.
pub open spec fn step_of(dir: ProcDir, name: Seq<char>, seen: Sighting, caller: (i32, i32)) -> Step {
    match dir {
        ProcDir::Root => root_step(name, seen, caller),
        ProcDir::Pid(pid) => pid_step(pid, name),
        ProcDir::Task(pid) => if pid_value(name) is Some && seen.thread {
            Step::Enter(ProcDir::Tid(pid, pid_value(name)->0), READONLY_DIR_MODE, Some(pid))
        } else {
            Step::Missing
        },
        ProcDir::Fd(_) => file_step(seen.fd is Some),
        ProcDir::FdInfo(_) => file_step(seen.fd is Some),
        ProcDir::Ns(_) => file_step(name == "user"@ || name == "net"@),
        ProcDir::SysDir => if name == "kernel"@ {
            Step::Enter(ProcDir::SysKernelDir, READONLY_DIR_MODE, None)
        } else if name == "fs"@ {
            Step::Enter(ProcDir::SysFsDir, READONLY_DIR_MODE, None)
        } else {
            Step::Missing
        },
        ProcDir::SysFsDir => if name == "inotify"@ {
            Step::Enter(ProcDir::SysFsInotifyDir, READONLY_DIR_MODE, None)
        } else {
            Step::Missing
        },
        _ => file_step(file_in_dir(dir, name) is Some),
    }
}

/// A live process is entered under the name under which it is listed, and a live thread that is no
/// process under its own number.
pub proof fn lemma_listed_process_is_entered(pid: i32, seen: Sighting, caller: (i32, i32))
    requires
        pid > 0,
        seen.task || seen.owner is Some,
    ensures
        root_step(signed(pid as int), seen, caller) == (if seen.task {
            Step::Enter(ProcDir::Pid(pid), READONLY_DIR_MODE, Some(pid))
        } else {
            Step::Enter(ProcDir::Tid(seen.owner->0, pid), READONLY_DIR_MODE, Some(seen.owner->0))
        }),
{
    let name = signed(pid as int);
    lemma_pid_round_trip(pid, name);
    lemma_decimal_reads_back(pid as nat);
    reveal_strlit("self");
    reveal_strlit("thread-self");
    assert(is_digit(name[0]));
    assert("self"@[0] == 's');
    assert("thread-self"@[0] == 't');
}

/// Where a walk ended.
#[derive(Debug)]
pub struct WalkOutcome {
    /// The rights of every directory that was entered.
    pub components: Vec<PermissionInfo>,
    pub last: ProcDir,
    pub stop_reason: WalkStopReason,
}

/// The mathematical value of a walk's end.
#[verifier::ext_equal]
pub struct WalkModel {
    pub components: Seq<PermissionInfo>,
    pub last: ProcDir,
    pub stop_reason: WalkStopReason,
}

/// A walk's result, as a mathematical value.
pub open spec fn walk_model(result: Result<WalkOutcome, WalkError>) -> Result<WalkModel, WalkError> {
    match result {
        Ok(outcome) => Ok(
            WalkModel {
                components: outcome.components@,
                last: outcome.last,
                stop_reason: outcome.stop_reason,
            },
        ),
        Err(error) => Err(error),
    }
}

/// Who owns what was found was looked up.
pub open spec fn holder_found<S: ProcSources>(proc: &Proc<S>, who: Option<i32>, user: UserInfo) -> bool {
    match who {
        Some(pid) => user_found(proc, pid, user),
        None => user == root_user(),
    }
}

/// The components of a path were walked, each looked up as it was reached.
#[verifier::opaque]
pub open spec fn walked<S: ProcSources>(
    proc: &Proc<S>,
    dir: ProcDir,
    names: Seq<Seq<char>>,
    entered: Seq<PermissionInfo>,
    result: Result<WalkModel, WalkError>,
) -> bool
    decreases names.len(),
{
    if names.len() == 0 {
        result == Ok::<WalkModel, WalkError>(
            WalkModel {
                components: entered,
                last: dir,
                stop_reason: WalkStopReason::CompleteDirectory,
            },
        )
    } else {
        exists|seen: Sighting| #[trigger]
            sighted(proc, dir, names[0], seen) && match step_of(
                dir,
                names[0],
                seen,
                (proc.caller@.pid, proc.caller_tid),
            ) {
                Step::Missing => result == Err::<WalkModel, WalkError>(
                    WalkError::PathError(PathError::NoSuchFileOrDirectory),
                ),
                Step::NotADirectory => result == Ok::<WalkModel, WalkError>(
                    WalkModel {
                        components: entered,
                        last: dir,
                        stop_reason: WalkStopReason::StoppedAtNonDirectory,
                    },
                ),
                Step::Enter(next, mode, who) => exists|owner: UserInfo| #[trigger]
                    holder_found(proc, who, owner) && walked(
                        proc,
                        next,
                        names.drop_first(),
                        entered.push(PermissionInfo { mode, owner }),
                        result,
                    ),
            }
    }
}

/// Names, as mathematical values.
pub open spec fn texts(names: Seq<&str>) -> Seq<Seq<char>> {
    Seq::new(names.len(), |i: int| names[i]@)
}

/// Where a name leads, given what is live of it.
pub fn next_step(dir: ProcDir, name: &str, seen: Sighting, caller_pid: i32, caller_tid: i32) -> (step: Step)
    ensures
        step == step_of(dir, name@, seen, (caller_pid, caller_tid)),
{
    let there: bool = match dir {
        ProcDir::Root => {
            if is_text(name, "self") {
                return Step::Enter(ProcDir::Pid(caller_pid), READONLY_DIR_MODE, Some(caller_pid));
            }
            if is_text(name, "thread-self") {
                return Step::Enter(
                    ProcDir::Tid(caller_pid, caller_tid),
                    READONLY_DIR_MODE,
                    Some(caller_pid),
                );
            }
            if let Some(pid) = parse_pid(name) {
                if seen.task {
                    return Step::Enter(ProcDir::Pid(pid), READONLY_DIR_MODE, Some(pid));
                }
                if let Some(owner) = seen.owner {
                    return Step::Enter(ProcDir::Tid(owner, pid), READONLY_DIR_MODE, Some(owner));
                }
            }
            if is_text(name, "sys") {
                return Step::Enter(ProcDir::SysDir, READONLY_DIR_MODE, None);
            }
            if is_text(name, "net") {
                return Step::Enter(ProcDir::NetDir, READONLY_DIR_MODE, None);
            }
            if is_text(name, "litebox") {
                return Step::Enter(ProcDir::LiteboxDir, READONLY_DIR_MODE, None);
            }
            ProcFile::in_dir(dir, name).is_some()
        },
        ProcDir::Pid(pid) => {
            if is_text(name, "fd") {
                return Step::Enter(ProcDir::Fd(pid), OWNER_ONLY_DIR_MODE, Some(pid));
            }
            if is_text(name, "fdinfo") {
                return Step::Enter(ProcDir::FdInfo(pid), OWNER_ONLY_DIR_MODE, Some(pid));
            }
            if is_text(name, "task") {
                return Step::Enter(ProcDir::Task(pid), READONLY_DIR_MODE, Some(pid));
            }
            if is_text(name, "ns") {
                return Step::Enter(ProcDir::Ns(pid), READONLY_DIR_MODE, Some(pid));
            }
            PidFile::named(name).is_some()
        },
        ProcDir::Task(pid) => {
            if let Some(tid) = parse_pid(name) {
                if seen.thread {
                    return Step::Enter(ProcDir::Tid(pid, tid), READONLY_DIR_MODE, Some(pid));
                }
            }
            false
        },
        ProcDir::Fd(_) => seen.fd.is_some(),
        ProcDir::FdInfo(_) => seen.fd.is_some(),
        ProcDir::Ns(_) => is_text(name, "user") || is_text(name, "net"),
        ProcDir::SysDir => {
            if is_text(name, "kernel") {
                return Step::Enter(ProcDir::SysKernelDir, READONLY_DIR_MODE, None);
            }
            if is_text(name, "fs") {
                return Step::Enter(ProcDir::SysFsDir, READONLY_DIR_MODE, None);
            }
            false
        },
        ProcDir::SysFsDir => {
            if is_text(name, "inotify") {
                return Step::Enter(ProcDir::SysFsInotifyDir, READONLY_DIR_MODE, None);
            }
            false
        },
        _ => ProcFile::in_dir(dir, name).is_some(),
    };
    if there {
        Step::NotADirectory
    } else {
        Step::Missing
    }
}

impl<S: ProcSources> Proc<S> {
    /// Looks up what is live of a name in a directory.
    pub fn sight(&self, dir: ProcDir, name: &str) -> (seen: Sighting)
        ensures
            sighted(self, dir, name@, seen),
    {
        let nothing = Sighting { task: false, owner: None, thread: false, fd: None };
        match dir {
            ProcDir::Root => match parse_pid(name) {
                Some(pid) => {
                    let task = self.task_info(pid);
                    proof {
                        assert(task_found(self, pid, task_model(task)));
                    }
                    if task.is_some() {
                        let seen = Sighting { task: true, ..nothing };
                        proof {
                            assert(root_sighted(self, pid, seen));
                        }
                        return seen;
                    }
                    let owner = self.thread_owner(pid);
                    let seen = Sighting { owner, ..nothing };
                    proof {
                        assert(owner_found(self, pid, owner));
                        assert(root_sighted(self, pid, seen));
                    }
                    seen
                },
                None => nothing,
            },
            ProcDir::Task(pid) => match parse_pid(name) {
                Some(tid) => {
                    let found = self.thread_info(pid, tid);
                    let seen = Sighting { thread: found.is_some(), ..nothing };
                    proof {
                        assert(thread_found(self, pid, tid, pair_model(found)));
                        assert(thread_sighted(self, pid, tid, seen));
                    }
                    seen
                },
                None => nothing,
            },
            ProcDir::Fd(pid) => self.sight_fd(pid, name),
            ProcDir::FdInfo(pid) => self.sight_fd(pid, name),
            _ => nothing,
        }
    }

    fn sight_fd(&self, pid: i32, name: &str) -> (seen: Sighting)
        ensures
            fd_sighted(self, pid, name@, seen),
    {
        let fd = self.caller_fd_named(pid, name);
        proof {
            assert(fd_named(self, pid, name@, fd));
        }
        Sighting { task: false, owner: None, thread: false, fd }
    }

    /// Looks up who owns what was found.
    pub(crate) fn holder(&self, who: Option<i32>) -> (user: UserInfo)
        ensures
            holder_found(self, who, user),
    {
        match who {
            Some(pid) => self.task_owner(pid),
            None => UserInfo::root(),
        }
    }

    /// Walks the components of a path from a directory on, as long as they are directories.
    pub fn walk_directories(&self, from: ProcDir, components: &[&str]) -> (result: Result<
        WalkOutcome,
        WalkError,
    >)
        ensures
            walked(self, from, texts(components@), Seq::empty(), walk_model(result)),
    {
        let ghost names = texts(components@);
        let mut current: ProcDir = from;
        let mut entered: Vec<PermissionInfo> = Vec::new();
        let mut i: usize = 0;
        proof {
            assert(names.skip(0) =~= names);
            assert(entered@ =~= Seq::<PermissionInfo>::empty());
        }
        while i < components.len()
            invariant
                i <= components@.len(),
                names == texts(components@),
                forall|result: Result<WalkModel, WalkError>| #[trigger]
                    walked(self, current, names.skip(i as int), entered@, result) ==> walked(
                        self,
                        from,
                        names,
                        Seq::empty(),
                        result,
                    ),
            decreases components@.len() - i,
        {
            let name: &str = components[i];
            let ghost here = current;
            let ghost before = entered@;
            let ghost rest = names.skip(i as int);
            let ghost caller = (self.caller@.pid, self.caller_tid);
            proof {
                assert(rest[0] == name@);
                assert(rest.drop_first() =~= names.skip(i + 1));
            }
            let seen = self.sight(current, name);
            proof {
                assert(sighted(self, here, rest[0], seen));
            }
            match next_step(current, name, seen, self.caller_pid(), self.caller_tid) {
                Step::Missing => {
                    let result: Result<WalkOutcome, WalkError> = Err(
                        WalkError::PathError(PathError::NoSuchFileOrDirectory),
                    );
                    proof {
                        reveal(walked);
                        assert(walked(self, here, rest, before, walk_model(result)));
                    }
                    return result;
                },
                Step::NotADirectory => {
                    let result: Result<WalkOutcome, WalkError> = Ok(
                        WalkOutcome {
                            components: entered,
                            last: current,
                            stop_reason: WalkStopReason::StoppedAtNonDirectory,
                        },
                    );
                    proof {
                        reveal(walked);
                        assert(walked(self, here, rest, before, walk_model(result)));
                    }
                    return result;
                },
                Step::Enter(next, mode, who) => {
                    let owner = self.holder(who);
                    entered.push(PermissionInfo { mode, owner });
                    current = next;
                    proof {
                        assert(holder_found(self, who, owner));
                        let now = entered@;
                        assert forall|result: Result<WalkModel, WalkError>| #[trigger]
                            walked(self, next, names.skip(i + 1), now, result) implies walked(
                            self,
                            from,
                            names,
                            Seq::empty(),
                            result,
                        ) by {
                            reveal(walked);
                            assert(walked(self, here, rest, before, result));
                        }
                    }
                },
            }
            i += 1;
        }
        let ghost done = entered@;
        let ghost last = current;
        let result: Result<WalkOutcome, WalkError> = Ok(
            WalkOutcome {
                components: entered,
                last: current,
                stop_reason: WalkStopReason::CompleteDirectory,
            },
        );
        proof {
            reveal(walked);
            assert(walked(self, last, names.skip(i as int), done, walk_model(result)));
        }
        result
    }
}

} // verus!
