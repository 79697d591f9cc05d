//! The procfs tree: walking, opening, listing, reading, linking and stating.
use litebox::fs::proc::content::{read_window, render_fd_info};
use litebox::fs::proc::readonly::{ChangeError, SeekBehavior, TreeChange, TruncateError};
use litebox::fs::proc::render::{
    render_auxv, render_cpuinfo, render_maps, render_meminfo, render_mounts, render_named_stat,
    render_named_status, render_net_dev,
    render_net_route, render_pid_file, render_stat, render_stat_system, render_statm, render_status,
    render_uptime, render_version,
};
use litebox::fs::proc::tree::{PidFile, ProcDir, ProcFile};
use litebox::fs::proc::{
    Proc, ProcCounters, ProcFdEntry, ProcFdTable, ProcMapEntry, ProcMemAccess, ProcMemMap, ProcNetNs,
    ProcSources, ProcTaskInfo, ProcTaskState, ProcTaskTable, ProcThreadInfo, ProcUserNs, SeccompMode,
    SecurityStatusSnapshot,
};
use litebox::fs::{
    FileType, InodeAllocator, OFlags, OpenError, PathError, ReadError, ReadlinkError, Timestamp, UserInfo,
    WalkError, WalkStopReason, WriteError,
};
use std::sync::Mutex;

const PLAIN: SecurityStatusSnapshot = SecurityStatusSnapshot {
    no_new_privs: false,
    seccomp_mode: SeccompMode::Disabled,
    seccomp_filter_count: 0,
};

const FILTERED: SecurityStatusSnapshot = SecurityStatusSnapshot {
    no_new_privs: true,
    seccomp_mode: SeccompMode::Filter,
    seccomp_filter_count: 3,
};

fn thread(tid: i32, comm: &str) -> ProcThreadInfo {
    ProcThreadInfo {
        tid,
        comm: comm.as_bytes().to_vec(),
        security: PLAIN,
        state: ProcTaskState::Sleeping,
    }
}

fn task(pid: i32) -> ProcTaskInfo {
    ProcTaskInfo {
        pid,
        ppid: 1,
        pgid: pid,
        sid: 4,
        uid: 1000,
        gid: 100,
        groups: vec![100, 27],
        state: ProcTaskState::Running,
        comm: b"node".to_vec(),
        cmdline: b"node\0-v\0".to_vec(),
        exe: Some(String::from("/usr/bin/node")),
        threads: vec![thread(pid, "node"), thread(pid + 1, "worker")],
        ns_pids: vec![2],
        auxv: vec![(6, 4096), (9, 0x4000)],
        leader_security: FILTERED,
    }
}

struct Tasks(Vec<i32>);

impl ProcTaskTable for Tasks {
    fn pids(&self) -> Vec<i32> {
        self.0.clone()
    }

    fn task(&self, pid: i32) -> Option<ProcTaskInfo> {
        if self.0.contains(&pid) {
            Some(task(pid))
        } else {
            None
        }
    }
}

struct Fds;

impl ProcFdTable for Fds {
    fn fds(&self) -> Vec<u32> {
        vec![0, 5]
    }

    fn entry(&self, fd: u32) -> Option<ProcFdEntry> {
        match fd {
            0 => Some(ProcFdEntry { target: String::from("/dev/null"), pos: 0, flags: 0o2, ino: 3 }),
            5 => Some(ProcFdEntry {
                target: String::from("/tmp/x"),
                pos: 17,
                flags: 0o100002,
                ino: 99,
            }),
            _ => None,
        }
    }
}

struct UserNs(Mutex<Vec<u8>>);

impl ProcUserNs for UserNs {
    fn instance_id(&self) -> u64 {
        7
    }

    fn read_setgroups(&self) -> Vec<u8> {
        b"allow\n".to_vec()
    }

    fn write_setgroups(&self, _data: &[u8]) -> Result<usize, WriteError> {
        Err(WriteError::PermissionDenied)
    }

    fn read_uid_map(&self) -> Vec<u8> {
        self.0.lock().unwrap().clone()
    }

    fn write_uid_map(&self, data: &[u8]) -> Result<usize, WriteError> {
        *self.0.lock().unwrap() = data.to_vec();
        Ok(data.len())
    }

    fn read_gid_map(&self) -> Vec<u8> {
        b"gids".to_vec()
    }

    fn write_gid_map(&self, data: &[u8]) -> Result<usize, WriteError> {
        Ok(data.len())
    }
}

struct NetNs;

impl ProcNetNs for NetNs {
    fn instance_id(&self) -> u64 {
        3
    }
}

struct Memory;

impl ProcMemMap for Memory {
    fn maps(&self, pid: i32) -> Vec<ProcMapEntry> {
        vec![map_entry(pid as usize * 0x1000)]
    }
}

impl ProcMemAccess for Memory {
    fn read_mem(&self, _pid: i32, addr: usize, len: usize) -> Option<Vec<u8>> {
        if addr == 0x1000 {
            Some(vec![0xab; len.min(2)])
        } else {
            None
        }
    }
}

struct Counts;

impl ProcCounters for Counts {
    fn snapshot_json(&self) -> String {
        String::from("{\"faults\":1}")
    }
}

struct Sources;

impl ProcSources for Sources {
    type Tasks = Tasks;

    type Fds = Fds;

    type UserNs = UserNs;

    type NetNs = NetNs;

    type MemMap = Memory;

    type MemAccess = Memory;

    type Counters = Counts;
}

fn map_entry(start: usize) -> ProcMapEntry {
    ProcMapEntry {
        start,
        end: start + 0x2000,
        read: true,
        write: true,
        execute: false,
        shared: false,
        name: Some("[stack]"),
    }
}

fn bare() -> Proc<Sources> {
    let mut inodes = InodeAllocator::new(9);
    Proc::new(&mut inodes, [10, 0, 0, 2], [10, 0, 0, 1])
}

/// A procfs whose caller is process 10, thread 11, beside process 20.
fn proc_fs() -> Proc<Sources> {
    let mut proc = bare();
    proc.set_caller(11, task(10));
    proc.set_task_table(Tasks(vec![10, 20]));
    proc.set_fd_table(Fds);
    proc.set_user_ns(UserNs(Mutex::new(b"map".to_vec())));
    proc.set_net_ns(NetNs);
    proc.set_mem_map(Memory);
    proc.set_mem_access(Memory);
    proc.set_counters(Counts);
    proc.set_uptime(61);
    proc
}

fn text(bytes: Vec<u8>) -> String {
    String::from_utf8(bytes).unwrap()
}

fn no_flags() -> OFlags {
    OFlags { bits: 0 }
}

fn names(proc: &Proc<Sources>, dir: ProcDir) -> Vec<String> {
    proc.list_dir_at(dir).into_iter().map(|e| e.name).collect()
}

const MISSING: OpenError = OpenError::PathError(PathError::NoSuchFileOrDirectory);

#[test]
fn stat_line_lists_the_fields() {
    let line = text(render_stat(&task(10), 11, &b"wor ker".to_vec(), ProcTaskState::Sleeping));
    assert_eq!(
        line,
        "11 (wor ker) S 1 10 4 0 -1 0 0 0 0 0 0 0 0 0 20 0 2 0 0 4194304 256 18446744073709551615 \
         0 0 0 0 0 0 0 0 0 0 0 0 0 17 0 0 0 0 0 0 0 0 0 0 0 0 0\n"
    );
}

#[test]
fn bad_command_name_bytes_are_replaced() {
    let line = text(render_stat(&task(10), 10, &vec![b'a', 0xff, b'b'], ProcTaskState::Zombie));
    assert!(line.starts_with("10 (a\u{fffd}b) Z "));
}

#[test]
fn status_names_groups_and_seccomp() {
    let content =
        text(render_status(&task(10), 11, &b"worker".to_vec(), ProcTaskState::Sleeping, FILTERED));
    assert_eq!(
        content,
        "Name:\tworker\nState:\tS (sleeping)\nTgid:\t10\nPid:\t11\nPPid:\t1\nNSpid:\t10\t2\n\
         Uid:\t1000\t1000\t1000\t1000\nGid:\t100\t100\t100\t100\nGroups:\t100 27 \nThreads:\t2\n\
         VmSize:\t    4096 kB\nVmRSS:\t     1024 kB\nNoNewPrivs:\t1\nSeccomp:\t2\nSeccomp_filters:\t3\n"
    );
    let mut alone = task(10);
    alone.groups = Vec::new();
    alone.threads = Vec::new();
    alone.ns_pids = Vec::new();
    let content =
        text(render_status(&alone, 10, &b"x".to_vec(), ProcTaskState::Running, PLAIN));
    assert!(content.contains("Groups:\t \nThreads:\t1\n"));
    assert!(content.contains("NSpid:\t10\nUid"));
    assert!(content.contains("NoNewPrivs:\t0\nSeccomp:\t0\nSeccomp_filters:\t0\n"));
}

#[test]
fn system_files_have_their_fixed_content() {
    assert_eq!(
        text(render_meminfo()),
        "MemTotal:          4194304 kB\nMemFree:           2097152 kB\n\
         MemAvailable:      2097152 kB\nBuffers:                 0 kB\n\
         Cached:                  0 kB\nSwapCached:              0 kB\n\
         SwapTotal:               0 kB\nSwapFree:                0 kB\n\
         Shmem:                   0 kB\nSReclaimable:            0 kB\n"
    );
    assert_eq!(
        text(render_mounts()),
        "litebox / litebox rw 0 0\ndevtmpfs /dev devtmpfs rw 0 0\nproc /proc proc rw 0 0\n"
    );
    assert_eq!(
        text(render_stat_system()),
        "cpu  0 0 0 0 0 0 0 0 0 0\ncpu0 0 0 0 0 0 0 0 0 0 0\ncpu1 0 0 0 0 0 0 0 0 0 0\n\
         intr 0\nctxt 0\nbtime 0\nprocesses 1\nprocs_running 1\nprocs_blocked 0\n"
    );
    assert_eq!(
        text(render_version()),
        "Linux version 5.11.0 (litebox@litebox) (litebox) #1 SMP PREEMPT Mon Jan 1 00:00:00 UTC 2024\n"
    );
    assert_eq!(text(render_statm()), "512 256 64 64 0 256 0\n");
    let cpus = text(render_cpuinfo());
    assert!(cpus.starts_with("processor\t: 0\nBogoMIPS\t: 48.00\n"));
    assert!(cpus.contains("CPU revision\t: 0\n\nprocessor\t: 1\n"));
    assert!(cpus.ends_with("CPU revision\t: 0\n\n"));
    let dev = text(render_net_dev());
    assert_eq!(dev.lines().count(), 4);
    assert!(dev.lines().next().unwrap().starts_with("Inter-|   Receive  "));
    assert!(dev.lines().nth(2).unwrap().starts_with(" lo:       0       0    0"));
    assert!(dev.lines().nth(3).unwrap().starts_with("eth0:      0       0    0"));
}

#[test]
fn uptime_counts_idle_on_every_cpu() {
    assert_eq!(text(render_uptime(61)), "61.00 122.00\n");
    assert_eq!(
        text(render_uptime(u64::MAX)),
        "18446744073709551615.00 18446744073709551615.00\n"
    );
}

#[test]
fn route_shows_gateway_and_network() {
    assert_eq!(
        text(render_net_route([10, 0, 0, 2], [10, 0, 0, 1])),
        "Iface\tDestination\tGateway \tFlags\tRefCnt\tUse\tMetric\tMask\t\tMTU\tWindow\tIRTT\n\
         eth0\t00000000\t0100000A\t0003\t0\t0\t0\t00000000\t0\t0\t0\n\
         eth0\t0000000A\t00000000\t0001\t0\t0\t0\t00FFFFFF\t0\t0\t0\n"
    );
}

#[test]
fn maps_lines_end_with_the_name() {
    let mut anonymous = map_entry(0xabc000);
    anonymous.name = None;
    anonymous.execute = true;
    anonymous.write = false;
    anonymous.shared = true;
    assert_eq!(
        text(render_maps(&vec![map_entry(0x1000), anonymous])),
        "1000-3000 rw-p 0 00:00 0 [stack]\nabc000-abe000 r-xs 0 00:00 0 \n"
    );
    assert!(render_maps(&Vec::new()).is_empty());
}

#[test]
fn auxv_is_little_endian_and_terminated() {
    let bytes = render_auxv(&task(10));
    assert_eq!(bytes.len(), 48);
    assert_eq!(bytes[0..8], [6, 0, 0, 0, 0, 0, 0, 0]);
    assert_eq!(bytes[8..16], [0, 16, 0, 0, 0, 0, 0, 0]);
    assert_eq!(bytes[32..48], [0; 16]);
}

#[test]
fn pid_files_speak_of_leader_or_thread() {
    let worker = thread(11, "worker");
    assert_eq!(text(render_pid_file(&task(10), None, PidFile::Comm)), "node\n");
    assert_eq!(text(render_pid_file(&task(10), Some(&worker), PidFile::Comm)), "worker\n");
    assert_eq!(render_pid_file(&task(10), None, PidFile::Cmdline), b"node\0-v\0".to_vec());
    assert!(render_pid_file(&task(10), None, PidFile::Exe).is_empty());
    assert!(render_pid_file(&task(10), None, PidFile::Mem).is_empty());
}

#[test]
fn self_leads_to_the_caller() {
    let proc = proc_fs();
    let walked = proc.walk_directories(ProcDir::Root, &["self"]).unwrap();
    assert_eq!(walked.last, ProcDir::Pid(10));
    assert_eq!(walked.stop_reason, WalkStopReason::CompleteDirectory);
    assert_eq!(walked.components.len(), 1);
    assert_eq!(walked.components[0].mode, 0o755);
    assert_eq!(walked.components[0].owner, UserInfo { user: 1000, group: 100 });
    let walked = proc.walk_directories(ProcDir::Root, &["thread-self"]).unwrap();
    assert_eq!(walked.last, ProcDir::Tid(10, 11));
}

#[test]
fn walk_goes_down_the_tree() {
    let proc = proc_fs();
    let walked = proc.walk_directories(ProcDir::Root, &["20", "task", "21"]).unwrap();
    assert_eq!(walked.last, ProcDir::Tid(20, 21));
    let walked = proc.walk_directories(ProcDir::Root, &["21", "stat"]).unwrap();
    assert_eq!(walked.last, ProcDir::Tid(20, 21));
    assert_eq!(walked.stop_reason, WalkStopReason::StoppedAtNonDirectory);
    let walked = proc.walk_directories(ProcDir::Root, &["sys", "fs", "inotify"]).unwrap();
    assert_eq!(walked.last, ProcDir::SysFsInotifyDir);
    assert_eq!(walked.components[2].owner, UserInfo::root());
    let walked = proc.walk_directories(ProcDir::Root, &["10", "fd"]).unwrap();
    assert_eq!((walked.last, walked.components[1].mode), (ProcDir::Fd(10), 0o500));
    let walked = proc.walk_directories(ProcDir::Root, &["meminfo"]).unwrap();
    assert_eq!((walked.last, walked.components.len()), (ProcDir::Root, 0));
    assert_eq!(walked.stop_reason, WalkStopReason::StoppedAtNonDirectory);
}

#[test]
fn walk_does_not_find_what_is_not_there() {
    let proc = proc_fs();
    let missing = Some(WalkError::PathError(PathError::NoSuchFileOrDirectory));
    let nowhere: [&[&str]; 9] = [
        &["30"],
        &["010"],
        &["-1"],
        &["0"],
        &["10", "nothing"],
        &["10", "task", "99"],
        &["sys", "net"],
        &["20", "fd", "5"],
        &["10", "fd", "9"],
    ];
    for path in nowhere {
        assert_eq!(proc.walk_directories(ProcDir::Root, path).err(), missing);
    }
}

#[test]
fn files_open_for_reading_only() {
    let proc = proc_fs();
    let (file, permissions) =
        proc.open_file_at(ProcDir::Pid(10), "status", no_flags()).unwrap();
    assert_eq!(file, ProcFile::Pid(10, PidFile::Status));
    assert_eq!((permissions.mode, permissions.owner.user), (0o444, 1000));
    for bits in [OFlags::WRONLY, OFlags::RDWR, OFlags::CREAT, OFlags::TRUNC] {
        assert_eq!(
            proc.open_file_at(ProcDir::Root, "meminfo", OFlags { bits }).err(),
            Some(OpenError::ReadOnlyFileSystem)
        );
    }
    let (_, permissions) = proc
        .open_file_at(ProcDir::Pid(10), "uid_map", OFlags { bits: OFlags::WRONLY })
        .unwrap();
    assert_eq!(permissions.mode, 0o644);
    let (_, permissions) = proc.open_file_at(ProcDir::Pid(10), "mem", no_flags()).unwrap();
    assert_eq!(permissions.mode, 0o400);
    assert_eq!(proc.open_file_at(ProcDir::Root, "nothing", no_flags()).err(), Some(MISSING));
    assert_eq!(
        proc.open_file_at(ProcDir::Root, "meminfo", OFlags { bits: OFlags::DIRECTORY }).err(),
        Some(OpenError::PathError(PathError::ComponentNotADirectory))
    );
}

#[test]
fn magic_links_open_only_as_themselves() {
    let proc = proc_fs();
    let path = OFlags { bits: OFlags::PATH };
    let (file, permissions) = proc.open_file_at(ProcDir::Fd(10), "5", path).unwrap();
    assert_eq!((file, permissions.mode), (ProcFile::FdLink(10, 5), 0o700));
    let (file, permissions) = proc.open_file_at(ProcDir::Ns(10), "net", path).unwrap();
    assert_eq!((file, permissions.mode), (ProcFile::NsNet(10), 0o777));
    assert_eq!(
        proc.open_file_at(ProcDir::Fd(10), "5", no_flags()).err(),
        Some(OpenError::TooManySymbolicLinks)
    );
    let exclusive = OFlags { bits: OFlags::CREAT | OFlags::EXCL };
    assert_eq!(
        proc.open_file_at(ProcDir::Pid(10), "exe", exclusive).err(),
        Some(OpenError::AlreadyExists)
    );
    assert_eq!(proc.open_file_at(ProcDir::Fd(20), "5", path).err(), Some(MISSING));
}

#[test]
fn root_lists_files_processes_and_directories() {
    let proc = proc_fs();
    assert_eq!(
        names(&proc, ProcDir::Root),
        vec![
            "meminfo", "mounts", "stat", "cpuinfo", "version", "uptime", "10", "20", "self",
            "thread-self", "sys", "net", "litebox"
        ]
    );
    assert_eq!(names(&bare(), ProcDir::Root)[6..], ["sys", "net", "litebox"]);
    assert_eq!(names(&proc, ProcDir::Task(20)), vec!["20", "21"]);
    assert_eq!(names(&proc, ProcDir::Fd(10)), vec!["0", "5"]);
    assert!(names(&proc, ProcDir::Fd(20)).is_empty());
    assert_eq!(names(&proc, ProcDir::Ns(20)), vec!["user", "net"]);
    assert_eq!(names(&proc, ProcDir::SysDir), vec!["kernel", "fs"]);
    assert_eq!(names(&proc, ProcDir::SysFsDir), vec!["inotify"]);
    assert_eq!(names(&proc, ProcDir::NetDir), vec!["dev", "route"]);
    assert_eq!(names(&proc, ProcDir::LiteboxDir), vec!["counters"]);
    assert_eq!(
        names(&proc, ProcDir::SysKernelDir),
        vec!["overflowuid", "overflowgid", "pid_max", "threads-max"]
    );
}

#[test]
fn process_directory_lists_its_files() {
    let proc = proc_fs();
    let entries = proc.list_dir_at(ProcDir::Pid(10));
    let listed: Vec<&str> = entries.iter().map(|e| e.name.as_str()).collect();
    assert_eq!(
        listed,
        vec![
            "stat", "statm", "status", "cmdline", "comm", "exe", "uid_map", "gid_map", "setgroups",
            "auxv", "maps", "mem", "fd", "fdinfo", "task", "ns"
        ]
    );
    assert_eq!(entries[5].file_type, FileType::SymLink);
    assert_eq!(entries[12].file_type, FileType::Directory);
    let mut inodes: Vec<u64> = entries.iter().map(|e| e.ino_info.as_ref().unwrap().ino).collect();
    inodes.sort();
    inodes.dedup();
    assert_eq!(inodes.len(), 16);
}

#[test]
fn reads_give_windows_of_the_content() {
    let proc = proc_fs();
    assert_eq!(proc.read(ProcFile::Uptime, 100, 0), Ok(b"61.00 122.00\n".to_vec()));
    assert_eq!(proc.read(ProcFile::Uptime, 5, 3), Ok(b"00 12".to_vec()));
    assert_eq!(proc.read(ProcFile::Uptime, 5, 100), Ok(Vec::new()));
    assert_eq!(read_window(&vec![1, 2, 3], 1, usize::MAX), vec![2, 3]);
    assert_eq!(proc.render(ProcFile::PidMax), b"4194304\n".to_vec());
    assert_eq!(proc.render(ProcFile::ThreadsMax), b"16384\n".to_vec());
    assert_eq!(proc.render(ProcFile::OverflowUid), b"65534\n".to_vec());
    assert_eq!(proc.render(ProcFile::InotifyMaxUserWatches), b"8192\n".to_vec());
    assert_eq!(proc.render(ProcFile::InotifyMaxUserInstances), b"128\n".to_vec());
    assert_eq!(proc.render(ProcFile::InotifyMaxQueuedEvents), b"16384\n".to_vec());
    assert_eq!(proc.render(ProcFile::LiteboxCounters), b"{\"faults\":1}".to_vec());
    assert_eq!(bare().render(ProcFile::LiteboxCounters), b"{}".to_vec());
    assert!(proc.render(ProcFile::FdLink(10, 5)).is_empty());
    assert!(proc.render(ProcFile::Pid(30, PidFile::Stat)).is_empty());
}

#[test]
fn two_reads_in_a_row_make_one() {
    let proc = proc_fs();
    let whole = proc.read(ProcFile::Meminfo, 200, 0).unwrap();
    let mut joined = proc.read(ProcFile::Meminfo, 77, 0).unwrap();
    joined.extend(proc.read(ProcFile::Meminfo, 123, 77).unwrap());
    assert_eq!(joined, whole);
}

#[test]
fn memory_is_read_by_address() {
    let proc = proc_fs();
    assert_eq!(proc.read(ProcFile::Pid(10, PidFile::Mem), 8, 0x1000), Ok(vec![0xab, 0xab]));
    assert_eq!(proc.read(ProcFile::Pid(10, PidFile::Mem), 8, 0x2000), Err(ReadError::Io));
    assert_eq!(bare().read(ProcFile::Pid(10, PidFile::Mem), 8, 0x1000), Err(ReadError::Io));
    assert_eq!(
        text(proc.render(ProcFile::Pid(10, PidFile::Maps))),
        "a000-c000 rw-p 0 00:00 0 [stack]\n"
    );
}

#[test]
fn descriptor_info_shows_position_and_flags() {
    let proc = proc_fs();
    let content = text(proc.render(ProcFile::FdInfo(10, 5)));
    assert!(content.starts_with("pos:\t17\nflags:\t0100002\nmnt_id:\t"));
    assert!(content.ends_with("\nino:\t99\n"));
    assert!(proc.render(ProcFile::FdInfo(20, 5)).is_empty());
    assert!(render_fd_info(&None).is_empty());
}

#[test]
fn user_namespace_files_take_one_write_at_the_start() {
    let proc = proc_fs();
    let map = ProcFile::Pid(10, PidFile::UidMap);
    assert_eq!(proc.read(map, 10, 0), Ok(b"map".to_vec()));
    assert_eq!(proc.write(map, b"0 1 1", 0), Ok(5));
    assert_eq!(proc.read(map, 10, 0), Ok(b"0 1 1".to_vec()));
    assert_eq!(proc.write(map, b"0 1 1", 1), Err(WriteError::InvalidArgument));
    assert_eq!(
        proc.write(ProcFile::Pid(10, PidFile::Setgroups), b"deny", 0),
        Err(WriteError::PermissionDenied)
    );
    assert_eq!(proc.write(ProcFile::Meminfo, b"x", 0), Err(WriteError::NotForWriting));
}

#[test]
fn links_name_their_targets() {
    let proc = proc_fs();
    assert_eq!(proc.read_link(ProcFile::FdLink(10, 5)), Ok(String::from("/tmp/x")));
    assert_eq!(
        proc.read_link(ProcFile::Pid(20, PidFile::Exe)),
        Ok(String::from("/usr/bin/node"))
    );
    let missing = Err(ReadlinkError::PathError(PathError::NoSuchFileOrDirectory));
    assert_eq!(proc.read_link(ProcFile::FdLink(20, 5)), missing);
    assert_eq!(proc.read_link(ProcFile::Pid(30, PidFile::Exe)), missing);
    assert_eq!(proc.read_link(ProcFile::Meminfo), Err(ReadlinkError::NotASymlink));
    assert_eq!(
        bare().read_link(ProcFile::NsUser(10)),
        Ok(String::from("user:[4026531837]"))
    );
    assert_eq!(bare().read_link(ProcFile::NsNet(10)), Ok(String::from("net:[4026531992]")));
    assert_ne!(proc.read_link(ProcFile::NsUser(10)), bare().read_link(ProcFile::NsUser(10)));
}

#[test]
fn status_of_files_and_directories() {
    let proc = proc_fs();
    let status = proc.file_status(ProcFile::FdLink(10, 5));
    assert_eq!((status.file_type, status.mode, status.size), (FileType::SymLink, 0o700, 6));
    let status = proc.file_status(ProcFile::Meminfo);
    assert_eq!((status.file_type, status.mode, status.size), (FileType::RegularFile, 0o444, 0));
    assert_eq!(status.owner, UserInfo::root());
    let status = proc.file_status(ProcFile::Pid(20, PidFile::Exe));
    assert_eq!((status.mode, status.size, status.owner.user), (0o777, 13, 1000));
    let status = proc.dir_status(ProcDir::Pid(20));
    assert_eq!((status.file_type, status.size, status.owner.group), (FileType::Directory, 4096, 100));
    assert_eq!(status.node_info, proc.pid_node(20, 0));
    assert_eq!(proc.dir_status(ProcDir::FdInfo(10)).mode, 0o500);
}

#[test]
fn tree_cannot_be_changed() {
    let proc = proc_fs();
    assert_eq!(proc.root(), ProcDir::Root);
    assert_eq!(proc.truncate(ProcFile::Meminfo, 0), Err(TruncateError::NotForWriting));
    assert!(matches!(proc.seek_behavior(ProcFile::Meminfo), SeekBehavior::PositionBased));
    assert_eq!(
        proc.create_file_at(ProcDir::Root, "x", 0o644),
        Err(OpenError::ReadOnlyFileSystem)
    );
    for change in [TreeChange::Mkdir, TreeChange::Unlink, TreeChange::Rmdir, TreeChange::Chmod] {
        assert_eq!(
            proc.change_at(ProcDir::Root, "x", change),
            Err(ChangeError::ReadOnlyFileSystem)
        );
    }
}

#[test]
fn live_table_answers_status_and_the_snapshot_the_rest() {
    let mut proc = bare();
    proc.set_caller(10, task(10));
    assert_eq!(proc.pids(), vec![10]);
    assert!(proc.task_info(20).is_none());
    proc.set_task_table(Tasks(vec![20]));
    assert_eq!(proc.pids(), vec![10, 20]);
    assert!(proc.is_caller(10));
    assert_eq!(proc.status_task_info(20).map(|t| t.pid), Some(20));
    assert_eq!(proc.status_task_info(10).map(|t| t.pid), Some(10));
    assert_eq!(proc.thread_owner(21), Some(20));
    assert_eq!(proc.thread_owner(99), None);
    assert_eq!(proc.task_owner(99), UserInfo::root());
    assert_eq!(proc.thread_info(20, 21).map(|(t, th)| (t.pid, th.tid)), Some((20, 21)));
}

#[test]
fn directories_count_the_directories_in_them() {
    let mut proc = bare();
    proc.set_caller(7, task(7));
    assert_eq!(proc.dir_link_count_at(&["litebox"]), Some(2));
    assert_eq!(proc.dir_link_count_at(&[]), Some(6));
    assert_eq!(proc.dir_link_count_at(&["nowhere"]), None);
}

#[test]
fn text_name_is_printed_as_it_is() {
    let comm = "caf\u{e9}".as_bytes().to_vec();
    let stat = render_stat(&task(10), 10, &comm, ProcTaskState::Running);
    assert_eq!(stat, render_named_stat(&task(10), 10, "caf\u{e9}", ProcTaskState::Running));
    assert!(text(stat).starts_with("10 (caf\u{e9}) R "));
    let status = render_status(&task(10), 10, &comm, ProcTaskState::Running, PLAIN);
    assert_eq!(
        status,
        render_named_status(&task(10), 10, "caf\u{e9}", ProcTaskState::Running, PLAIN)
    );
    assert!(text(status).starts_with("Name:\tcaf\u{e9}\n"));
}

#[test]
fn times_are_those_of_the_epoch() {
    let proc = proc_fs();
    let epoch = Timestamp { secs: 0, nanos: 0 };
    assert_eq!(Timestamp::default(), epoch);
    let status = proc.file_status(ProcFile::Meminfo);
    assert_eq!((status.atime, status.mtime, status.ctime), (epoch, epoch, epoch));
    let status = proc.dir_status(ProcDir::Root);
    assert_eq!((status.atime, status.mtime, status.ctime), (epoch, epoch, epoch));
}

#[test]
fn link_is_as_long_as_its_target() {
    let proc = proc_fs();
    let links = [
        ProcFile::FdLink(10, 5),
        ProcFile::Pid(20, PidFile::Exe),
        ProcFile::NsUser(10),
        ProcFile::NsNet(10),
    ];
    for link in links {
        let target = proc.read_link(link).unwrap();
        let status = proc.file_status(link);
        assert_eq!((status.file_type, status.size), (FileType::SymLink, target.len()));
        assert_eq!(proc.read_link(link), Ok(target));
    }
}
