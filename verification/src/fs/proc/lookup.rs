//! Finding processes, threads and descriptors through what was published.
use crate::fs::proc::tree::{PID_INODE_BASE, PID_INODE_STRIDE, TID_INODE_BASE};
use crate::fs::proc::{
    Proc, ProcFdEntry, ProcFdTable, ProcSources, ProcTaskInfo, ProcTaskTable, ProcThreadInfo,
};
use crate::fs::text::parse_canonical_decimal;
use crate::fs::{NodeInfo, UserInfo};
use vstd::prelude::*;

verus! {

use crate::fs::proc::tree::{pid_ino, tid_ino};
use crate::fs::proc::{task_model, thread_models, TaskModel, ThreadModel};
use crate::fs::text::canonical_value;
use crate::fs::{node, root_user};

/// What the task table says of a process; nothing where no table was published.
pub open spec fn table_says<S: ProcSources>(proc: &Proc<S>, pid: i32, found: Option<TaskModel>) -> bool {
    match proc.tasks {
        Some(table) => exists|answer: Option<ProcTaskInfo>| #[trigger]
            call_ensures(<S::Tasks as ProcTaskTable>::task, (&table, pid), answer) && found
                == task_model(answer),
        None => found is None,
    }
}

/// A process was looked up: the caller's own is the one that was published, every other one is
/// what the table says.
pub open spec fn task_found<S: ProcSources>(proc: &Proc<S>, pid: i32, found: Option<TaskModel>) -> bool {
    if proc.caller@.pid == pid {
        found == Some(proc.caller@)
    } else {
        table_says(proc, pid, found)
    }
}

/// A process was looked up for its status: the live table comes first, even for the caller, so that
/// what it says of the security state is not stale.
pub open spec fn live_task_found<S: ProcSources>(proc: &Proc<S>, pid: i32, found: Option<TaskModel>) -> bool {
    exists|said: Option<TaskModel>| #[trigger]
        table_says(proc, pid, said) && found == (match said {
            Some(task) => Some(task),
            None => if proc.caller@.pid == pid {
                Some(proc.caller@)
            } else {
                None
            },
        })
}

/// The thread of a number in a list.
pub open spec fn thread_at(threads: Seq<ThreadModel>, tid: i32) -> Option<ThreadModel>
    decreases threads.len(),
{
    if threads.len() == 0 {
        None
    } else if threads[0].tid == tid {
        Some(threads[0])
    } else {
        thread_at(threads.drop_first(), tid)
    }
}

/// The thread of a number in a process that is there or not, with the process.
pub open spec fn thread_in(task: Option<TaskModel>, tid: i32) -> Option<(TaskModel, ThreadModel)> {
    match task {
        Some(task) => match thread_at(task.threads, tid) {
            Some(thread) => Some((task, thread)),
            None => None,
        },
        None => None,
    }
}

/// A thread was looked up in a process.
pub open spec fn thread_found<S: ProcSources>(
    proc: &Proc<S>,
    pid: i32,
    tid: i32,
    found: Option<(TaskModel, ThreadModel)>,
) -> bool {
    exists|task: Option<TaskModel>| #[trigger]
        task_found(proc, pid, task) && found == thread_in(task, tid)
}

/// A process with one of its threads, as mathematical values.
pub open spec fn pair_model(pair: Option<(ProcTaskInfo, ProcThreadInfo)>) -> Option<
    (TaskModel, ThreadModel),
> {
    match pair {
        Some((task, thread)) => Some((task@, thread@)),
        None => None,
    }
}

/// A list that ascends strictly.
pub open spec fn ascending(list: Seq<i32>) -> bool {
    forall|i: int, j: int| 0 <= i < j < list.len() ==> #[trigger] list[i] < #[trigger] list[j]
}

/// The list holds, ascending and each once, what another holds, and one number more if it is given.
pub open spec fn is_union(list: Seq<i32>, other: Seq<i32>, more: Option<i32>) -> bool {
    &&& ascending(list)
    &&& forall|pid: i32| #[trigger] list.contains(pid) <==> other.contains(pid) || more == Some(pid)
}

/// Every live process was listed: those of the table, and the caller's own.
pub open spec fn pids_listed<S: ProcSources>(proc: &Proc<S>, list: Seq<i32>) -> bool {
    let own = if proc.caller@.pid > 0 {
        Some(proc.caller@.pid)
    } else {
        None
    };
    match proc.tasks {
        Some(table) => exists|answer: Vec<i32>| #[trigger]
            call_ensures(<S::Tasks as ProcTaskTable>::pids, (&table,), answer) && is_union(
                list,
                answer@,
                own,
            ),
        None => is_union(list, Seq::empty(), own),
    }
}

/// A thread was looked up in each of a list of processes, in order, until one has it.
#[verifier::opaque]
pub open spec fn owner_among<S: ProcSources>(
    proc: &Proc<S>,
    pids: Seq<i32>,
    tid: i32,
    owner: Option<i32>,
) -> bool
    decreases pids.len(),
{
    if pids.len() == 0 {
        owner is None
    } else {
        exists|found: Option<(TaskModel, ThreadModel)>| #[trigger]
            thread_found(proc, pids[0], tid, found) && if found is Some {
                owner == Some(pids[0])
            } else {
                owner_among(proc, pids.drop_first(), tid, owner)
            }
    }
}

/// The process of a live thread was looked up, wherever it lives.
pub open spec fn owner_found<S: ProcSources>(proc: &Proc<S>, tid: i32, owner: Option<i32>) -> bool {
    exists|pids: Seq<i32>| #[trigger]
        pids_listed(proc, pids) && owner_among(proc, pids, tid, owner)
}

/// Who owns the entries of a process; the superuser where there is none.
pub open spec fn owner_of(task: Option<TaskModel>) -> UserInfo {
    match task {
        Some(task) => UserInfo { user: task.uid as u16, group: task.gid as u16 },
        None => root_user(),
    }
}

/// The owner of a process's entries was looked up.
pub open spec fn user_found<S: ProcSources>(proc: &Proc<S>, pid: i32, user: UserInfo) -> bool {
    exists|task: Option<TaskModel>| #[trigger]
        task_found(proc, pid, task) && user == owner_of(task)
}

/// The mathematical value of a descriptor.
#[verifier::ext_equal]
pub struct FdModel {
    pub target: Seq<char>,
    pub pos: u64,
    pub flags: u32,
    pub ino: u64,
}

impl View for ProcFdEntry {
    type V = FdModel;

    open spec fn view(&self) -> FdModel {
        FdModel { target: self.target@, pos: self.pos, flags: self.flags, ino: self.ino }
    }
}

/// A descriptor that is there or not.
pub open spec fn fd_model(entry: Option<ProcFdEntry>) -> Option<FdModel> {
    match entry {
        Some(entry) => Some(entry@),
        None => None,
    }
}

/// A descriptor was looked up in the published table.
pub open spec fn fd_found<S: ProcSources>(proc: &Proc<S>, fd: u32, found: Option<FdModel>) -> bool {
    match proc.fds {
        Some(table) => exists|answer: Option<ProcFdEntry>| #[trigger]
            call_ensures(<S::Fds as ProcFdTable>::entry, (&table, fd), answer) && found == fd_model(
                answer,
            ),
        None => found is None,
    }
}

/// A descriptor was looked up in a process's directory, where only the caller's own has any.
pub open spec fn own_fd_found<S: ProcSources>(
    proc: &Proc<S>,
    pid: i32,
    fd: u32,
    found: Option<FdModel>,
) -> bool {
    if proc.caller@.pid == pid {
        fd_found(proc, fd, found)
    } else {
        found is None
    }
}

/// The descriptor that a name spells.
pub open spec fn fd_value(name: Seq<char>) -> Option<u32> {
    match canonical_value(name) {
        Some(value) if value <= u32::MAX => Some(value as u32),
        _ => None,
    }
}

/// A descriptor was looked up in a process's directory, and answered if it is open.
pub open spec fn fd_answered<S: ProcSources>(
    proc: &Proc<S>,
    pid: i32,
    fd: u32,
    found: Option<u32>,
) -> bool {
    exists|entry: Option<FdModel>| #[trigger]
        own_fd_found(proc, pid, fd, entry) && found == (if entry is Some {
            Some(fd)
        } else {
            None
        })
}

/// The open descriptor of a name in a process's directory was looked up.
pub open spec fn fd_named<S: ProcSources>(
    proc: &Proc<S>,
    pid: i32,
    name: Seq<char>,
    found: Option<u32>,
) -> bool {
    match fd_value(name) {
        Some(fd) => fd_answered(proc, pid, fd, found),
        None => found is None,
    }
}

/// The node of an entry of a process.
pub open spec fn pid_node_of<S: ProcSources>(proc: &Proc<S>, pid: i32, slot: int) -> NodeInfo {
    node(proc.nodes.root.dev, pid_ino(pid as int, slot))
}

/// The node of an entry of a thread.
pub open spec fn tid_node_of<S: ProcSources>(proc: &Proc<S>, tid: i32, slot: int) -> NodeInfo {
    node(proc.nodes.root.dev, tid_ino(tid as int, slot))
}

/// The node of an entry of a descriptor.
pub open spec fn fd_node_of<S: ProcSources>(proc: &Proc<S>, base: u64, fd: u32) -> NodeInfo {
    node(proc.nodes.root.dev, base + fd)
}

/// Puts a number into its place in an ascending list, unless it is there.
fn insert_sorted(list: &mut Vec<i32>, value: i32)
    requires
        ascending(old(list)@),
    ensures
        is_union(final(list)@, old(list)@, Some(value)),
{
    let mut at: usize = list.len();
    while at > 0 && list[at - 1] > value
        invariant
            at <= list@.len(),
            list@ == old(list)@,
            forall|j: int| at <= j < list@.len() ==> list@[j] > value,
        decreases at,
    {
        at -= 1;
    }
    let ghost before = list@;
    if at > 0 && list[at - 1] == value {
        proof {
            assert forall|pid: i32| #[trigger] list@.contains(pid) <==> before.contains(pid) || Some(
                value,
            ) == Some(pid) by {
                if pid == value {
                    assert(list@[at - 1] == pid);
                }
            }
        }
        return;
    }
    list.insert(at, value);
    proof {
        assert forall|i: int, j: int| 0 <= i < j < list@.len() implies #[trigger] list@[i]
            < #[trigger] list@[j] by {
            let a = if i > at {
                i - 1
            } else {
                i
            };
            let b = if j > at {
                j - 1
            } else {
                j
            };
            if i != at && j != at {
                assert(before[a] < before[b]);
            } else if j == at {
                if i < at - 1 {
                    assert(before[i] < before[at - 1]);
                }
                assert(before[at - 1] < value);
            } else {
                assert(before[b] > value);
            }
        }
        assert forall|pid: i32| #[trigger] list@.contains(pid) <==> before.contains(pid) || Some(value)
            == Some(pid) by {
            if before.contains(pid) {
                let i = before.index_of(pid);
                if i < at {
                    assert(list@[i] == pid);
                } else {
                    assert(list@[i + 1] == pid);
                }
            }
            if pid == value {
                assert(list@[at as int] == pid);
            }
            if list@.contains(pid) {
                let i = list@.index_of(pid);
                if i < at {
                    assert(before[i] == pid);
                } else if i > at {
                    assert(before[i - 1] == pid);
                }
            }
        }
    }
}

impl<S: ProcSources> Proc<S> {
    /// The number of the calling process.
    pub fn caller_pid(&self) -> (pid: i32)
        ensures
            pid == self.caller@.pid,
    {
        self.caller.pid
    }

    /// Whether a number is that of the calling process.
    pub fn is_caller(&self, pid: i32) -> (yes: bool)
        ensures
            yes == (self.caller@.pid == pid),
    {
        self.caller.pid == pid
    }

    /// What the task table says of a process.
    fn ask_table(&self, pid: i32) -> (found: Option<ProcTaskInfo>)
        ensures
            table_says(self, pid, task_model(found)),
    {
        match &self.tasks {
            Some(table) => table.task(pid),
            None => None,
        }
    }

    /// Identity of live process `pid`.
    pub fn task_info(&self, pid: i32) -> (found: Option<ProcTaskInfo>)
        ensures
            task_found(self, pid, task_model(found)),
    {
        if self.caller.pid == pid {
            return Some(self.caller.clone());
        }
        self.ask_table(pid)
    }

    /// Identity of live process `pid`, as of now.
    pub fn status_task_info(&self, pid: i32) -> (found: Option<ProcTaskInfo>)
        ensures
            live_task_found(self, pid, task_model(found)),
    {
        let said = self.ask_table(pid);
        proof {
            assert(table_says(self, pid, task_model(said)));
        }
        match said {
            Some(task) => Some(task),
            None => if self.caller.pid == pid {
                Some(self.caller.clone())
            } else {
                None
            },
        }
    }

    /// The thread of a number in a process.
    pub fn thread_of(task: ProcTaskInfo, tid: i32) -> (found: Option<(ProcTaskInfo, ProcThreadInfo)>)
        ensures
            pair_model(found) == thread_in(Some(task@), tid),
    {
        let ghost all = task@.threads;
        let mut i: usize = 0;
        proof {
            assert(all.skip(0) =~= all);
        }
        while i < task.threads.len()
            invariant
                i <= task.threads@.len(),
                all == thread_models(task.threads@),
                thread_at(all.skip(i as int), tid) == thread_at(all, tid),
            decreases task.threads@.len() - i,
        {
            proof {
                assert(all.skip(i as int)[0] == task.threads@[i as int]@);
                assert(all.skip(i as int).drop_first() =~= all.skip(i + 1));
            }
            if task.threads[i].tid == tid {
                let thread = task.threads[i].clone();
                return Some((task, thread));
            }
            i += 1;
        }
        None
    }

    /// A live thread of a process, with the process.
    pub fn thread_info(&self, pid: i32, tid: i32) -> (found: Option<(ProcTaskInfo, ProcThreadInfo)>)
        ensures
            thread_found(self, pid, tid, pair_model(found)),
    {
        let task = self.task_info(pid);
        proof {
            assert(task_found(self, pid, task_model(task)));
        }
        match task {
            Some(task) => Self::thread_of(task, tid),
            None => None,
        }
    }

    /// Every live process, ascending.
    pub fn pids(&self) -> (list: Vec<i32>)
        ensures
            pids_listed(self, list@),
    {
        let asked: Vec<i32> = match &self.tasks {
            Some(table) => table.pids(),
            None => Vec::new(),
        };
        let mut list: Vec<i32> = Vec::new();
        let mut i: usize = 0;
        while i < asked.len()
            invariant
                i <= asked@.len(),
                is_union(list@, asked@.take(i as int), None),
            decreases asked@.len() - i,
        {
            let ghost before = list@;
            let value: i32 = asked[i];
            insert_sorted(&mut list, value);
            proof {
                assert(asked@.take(i + 1) =~= asked@.take(i as int).push(value));
                assert forall|pid: i32| #[trigger] list@.contains(pid) <==> asked@.take(i + 1).contains(
                    pid,
                ) by {
                    let shorter = asked@.take(i as int);
                    if shorter.contains(pid) {
                        let k = shorter.index_of(pid);
                        assert(asked@.take(i + 1)[k] == pid);
                    }
                    if pid == value {
                        assert(asked@.take(i + 1)[i as int] == pid);
                    }
                    if asked@.take(i + 1).contains(pid) {
                        let k = asked@.take(i + 1).index_of(pid);
                        if k < i {
                            assert(shorter[k] == pid);
                        }
                    }
                    assert(before.contains(pid) <==> shorter.contains(pid));
                }
            }
            i += 1;
        }
        proof {
            assert(asked@.take(i as int) =~= asked@);
        }
        let caller: i32 = self.caller.pid;
        if caller > 0 {
            insert_sorted(&mut list, caller);
        }
        proof {
            if self.tasks is None {
                assert(asked@ =~= Seq::<i32>::empty());
            }
        }
        list
    }

    /// The process of live thread `tid`, wherever it lives. Every thread has an entry of its own at
    /// the root of the tree, though only processes are listed there.
    pub fn thread_owner(&self, tid: i32) -> (owner: Option<i32>)
        ensures
            owner_found(self, tid, owner),
    {
        let pids = self.pids();
        let ghost list = pids@;
        let mut i: usize = 0;
        proof {
            assert(list.skip(0) =~= list);
            assert(pids_listed(self, list));
        }
        while i < pids.len()
            invariant
                i <= pids@.len(),
                list == pids@,
                pids_listed(self, list),
                forall|owner: Option<i32>| #[trigger]
                    owner_among(self, list.skip(i as int), tid, owner) ==> owner_among(
                        self,
                        list,
                        tid,
                        owner,
                    ),
            decreases pids@.len() - i,
        {
            let ghost rest = list.skip(i as int);
            let pid: i32 = pids[i];
            proof {
                assert(rest[0] == pid);
                assert(rest.drop_first() =~= list.skip(i + 1));
            }
            let found = self.thread_info(pid, tid);
            proof {
                assert(thread_found(self, pid, tid, pair_model(found)));
            }
            if found.is_some() {
                proof {
                    reveal(owner_among);
                    assert(owner_among(self, rest, tid, Some(pid)));
                }
                return Some(pid);
            }
            proof {
                assert forall|owner: Option<i32>| #[trigger]
                    owner_among(self, list.skip(i + 1), tid, owner) implies owner_among(
                    self,
                    list,
                    tid,
                    owner,
                ) by {
                    reveal(owner_among);
                    assert(owner_among(self, rest, tid, owner));
                }
            }
            i += 1;
        }
        proof {
            reveal(owner_among);
            assert(owner_among(self, list.skip(i as int), tid, None));
        }
        None
    }

    /// Who owns the entries of process `pid`.
    pub fn task_owner(&self, pid: i32) -> (user: UserInfo)
        ensures
            user_found(self, pid, user),
    {
        let task = self.task_info(pid);
        proof {
            assert(task_found(self, pid, task_model(task)));
        }
        match task {
            Some(task) => UserInfo { user: task.uid as u16, group: task.gid as u16 },
            None => UserInfo::root(),
        }
    }

    /// One open descriptor of the published table.
    pub fn fd_entry(&self, fd: u32) -> (found: Option<ProcFdEntry>)
        ensures
            fd_found(self, fd, fd_model(found)),
    {
        match &self.fds {
            Some(table) => table.entry(fd),
            None => None,
        }
    }

    /// One open descriptor of a process.
    pub fn own_fd_entry(&self, pid: i32, fd: u32) -> (found: Option<ProcFdEntry>)
        ensures
            own_fd_found(self, pid, fd, fd_model(found)),
    {
        if self.is_caller(pid) {
            self.fd_entry(fd)
        } else {
            None
        }
    }

    /// The open descriptor that a name in a process's directory refers to: a plain decimal.
    pub fn caller_fd_named(&self, pid: i32, name: &str) -> (found: Option<u32>)
        ensures
            fd_named(self, pid, name@, found),
    {
        let value = match parse_canonical_decimal(name) {
            Some(value) => value,
            None => {
                return None;
            },
        };
        if value > u32::MAX as u64 {
            return None;
        }
        let fd: u32 = value as u32;
        let entry = self.own_fd_entry(pid, fd);
        let found: Option<u32> = if entry.is_some() {
            Some(fd)
        } else {
            None
        };
        proof {
            let said = fd_model(entry);
            assert(fd_value(name@) == Some(fd));
            assert(own_fd_found(self, pid, fd, said));
            assert(fd_answered(self, pid, fd, found));
        }
        found
    }

    /// A number without its sign.
    fn unsigned(value: i32) -> (result: u64)
        ensures
            result == crate::fs::proc::tree::magnitude(value as int),
            result <= 0x8000_0000,
    {
        if value < 0 {
            (0 - (value as i64)) as u64
        } else {
            value as u64
        }
    }

    /// The node of an entry of a process.
    pub fn pid_node(&self, pid: i32, slot: u64) -> (result: NodeInfo)
        requires
            slot < PID_INODE_STRIDE,
        ensures
            result == pid_node_of(self, pid, slot as int),
    {
        let ino: u64 = PID_INODE_BASE + Self::unsigned(pid) * PID_INODE_STRIDE + slot;
        NodeInfo { dev: self.nodes.root.dev, ino, rdev: None }
    }

    /// The node of an entry of a thread.
    pub fn tid_node(&self, tid: i32, slot: u64) -> (result: NodeInfo)
        requires
            slot < PID_INODE_STRIDE,
        ensures
            result == tid_node_of(self, tid, slot as int),
    {
        let ino: u64 = TID_INODE_BASE + Self::unsigned(tid) * PID_INODE_STRIDE + slot;
        NodeInfo { dev: self.nodes.root.dev, ino, rdev: None }
    }

    /// The node of an entry of a descriptor.
    pub fn fd_node(&self, base: u64, fd: u32) -> (result: NodeInfo)
        requires
            base <= PID_INODE_BASE,
        ensures
            result == fd_node_of(self, base, fd),
    {
        NodeInfo { dev: self.nodes.root.dev, ino: base + fd as u64, rdev: None }
    }
}

} // verus!
