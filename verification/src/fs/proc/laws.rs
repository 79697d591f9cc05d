//! What holds of the operations on files taken together.
use crate::fs::proc::tree::ProcFile;
use crate::fs::proc::{
    Proc, ProcFdEntry, ProcFdTable, ProcNetNs, ProcSources, ProcTaskInfo, ProcTaskTable, ProcUserNs,
};
use crate::fs::{FileStatus, FileType, ReadlinkError};
use vstd::prelude::*;

pub mod access;
pub mod looking;
pub mod numbers;
pub mod texts;
pub mod walking;

verus! {

use crate::fs::proc::content::{link_read, linked};
use crate::fs::proc::lookup::fd_model;
use crate::fs::proc::status::status_found;
use crate::fs::proc::task_model;
use crate::fs::text::bytes_of;

/// The published tables do not change: each answers the same question alike.
pub open spec fn tables_steady<S: ProcSources>(proc: &Proc<S>) -> bool {
    &&& proc.tasks matches Some(table) ==> forall|pid: i32, a: Option<ProcTaskInfo>, b: Option<ProcTaskInfo>|
        #[trigger] call_ensures(<S::Tasks as ProcTaskTable>::task, (&table, pid), a)
            && #[trigger] call_ensures(<S::Tasks as ProcTaskTable>::task, (&table, pid), b)
            ==> task_model(a) == task_model(b)
    &&& proc.fds matches Some(table) ==> forall|fd: u32, a: Option<ProcFdEntry>, b: Option<ProcFdEntry>|
        #[trigger] call_ensures(<S::Fds as ProcFdTable>::entry, (&table, fd), a)
            && #[trigger] call_ensures(<S::Fds as ProcFdTable>::entry, (&table, fd), b) ==> fd_model(a)
            == fd_model(b)
    &&& proc.user_ns matches Some(handle) ==> forall|a: u64, b: u64|
        #[trigger] call_ensures(<S::UserNs as ProcUserNs>::instance_id, (&handle,), a)
            && #[trigger] call_ensures(<S::UserNs as ProcUserNs>::instance_id, (&handle,), b) ==> a == b
    &&& proc.net_ns matches Some(handle) ==> forall|a: u64, b: u64|
        #[trigger] call_ensures(<S::NetNs as ProcNetNs>::instance_id, (&handle,), a)
            && #[trigger] call_ensures(<S::NetNs as ProcNetNs>::instance_id, (&handle,), b) ==> a == b
}

/// While the tables do not change, a link leads to one place, however often it is followed.
pub proof fn lemma_link_leads_to_one_place<S: ProcSources>(
    proc: &Proc<S>,
    file: ProcFile,
    a: Option<Seq<char>>,
    b: Option<Seq<char>>,
)
    requires
        tables_steady(proc),
        linked(proc, file, a),
        linked(proc, file, b),
    ensures
        a == b,
{
}

/// While the tables do not change, what a file reports of itself agrees with following it: a link
/// that leads somewhere is a symbolic link as long as its target, and what cannot be followed because
/// it is no link is a regular file without a size.
pub proof fn lemma_status_agrees_with_link<S: ProcSources>(
    proc: &Proc<S>,
    file: ProcFile,
    followed: Result<Seq<char>, ReadlinkError>,
    status: FileStatus,
)
    requires
        tables_steady(proc),
        link_read(proc, file, followed),
        status_found(proc, file, status),
    ensures
        followed matches Ok(target) ==> status.file_type == FileType::SymLink && status.size
            == bytes_of(target).len() as usize,
        followed == Err::<Seq<char>, ReadlinkError>(ReadlinkError::NotASymlink) ==> status.file_type
            == FileType::RegularFile && status.size == 0,
{
    let target = choose|target: Option<Seq<char>>| #[trigger]
        linked(proc, file, target) && status == crate::fs::proc::status::status_of(
            proc,
            file,
            target,
            status.owner,
        );
    if crate::fs::proc::tree::is_link(file) {
        let other = choose|other: Option<Seq<char>>| #[trigger]
            linked(proc, file, other) && followed == crate::fs::proc::content::link_result(other);
        lemma_link_leads_to_one_place(proc, file, target, other);
    }
}

} // verus!
