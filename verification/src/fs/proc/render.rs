//! The content of the computed files.
use crate::fs::proc::{
    ProcMapEntry, ProcTaskInfo, ProcTaskState, ProcThreadInfo, SecurityStatusSnapshot,
    SYNTHETIC_FREE_RAM_BYTES, SYNTHETIC_KERNEL_RELEASE, SYNTHETIC_NUM_CPUS,
    SYNTHETIC_TOTAL_RAM_BYTES,
};
use crate::fs::proc::tree::PidFile;
use crate::fs::text::{
    into_bytes, put_decimal, put_hex_byte, put_in_base, put_right_aligned, put_signed,
};
use vstd::bytes::u64_to_le_bytes;
use vstd::prelude::*;
use vstd::string::StringExecFns;

verus! {

use crate::fs::proc::{state_code, state_label, TaskModel, ThreadModel};
use crate::fs::text::{bytes_of, decimal, hex_byte, in_base, right_aligned, signed};
use vstd::bytes::spec_u64_to_le_bytes;
use vstd::utf8::{decode_utf8, valid_utf8};

/// What a byte string reads as once everything in it that is no UTF-8 was replaced.
pub uninterp spec fn lossy_text(bytes: Seq<u8>) -> Seq<char>;

/// Calls `String::from_utf8_lossy` of std: the text of a byte string, with what is no UTF-8 in it
/// replaced. What replaces what is left to the name [`lossy_text`]; a byte string that is UTF-8
/// throughout is kept as it is.
#[verifier::external_body]
fn text_from_utf8_lossy(bytes: &[u8]) -> (text: String)
    ensures
        text@ == lossy_text(bytes@),
        valid_utf8(bytes@) ==> text@ == decode_utf8(bytes@),
{
    String::from_utf8_lossy(bytes).into_owned()
}

/// One line for each synthetic mount: device, mount point, type, options, frequency and pass. The
/// root device is not named `rootfs`, which some readers skip.
pub const MOUNTS: &'static str = "litebox / litebox rw 0 0\ndevtmpfs /dev devtmpfs rw 0 0\nproc /proc proc rw 0 0\n";

/// The header and one row for each interface. All counters are zero.
pub const NET_DEV: &'static str = "Inter-|   Receive                                                |  Transmit\n face |bytes    packets errs drop fifo frame compressed multicast|bytes    packets errs drop fifo colls carrier compressed\n lo:       0       0    0    0    0     0          0         0        0       0    0    0    0     0       0          0\neth0:      0       0    0    0    0     0          0         0        0       0    0    0    0     0       0          0\n";

/// The header of the routing table.
pub const NET_ROUTE_HEADER: &'static str = "Iface\tDestination\tGateway \tFlags\tRefCnt\tUse\tMetric\tMask\t\tMTU\tWindow\tIRTT\n";

/// Sizes of a process's memory, in pages: size, resident, shared, text, library, data, dirty.
pub const STATM: &'static str = "512 256 64 64 0 256 0\n";

/// What follows the number of a CPU in its stanza.
pub const CPU_STANZA: &'static str = "\nBogoMIPS\t: 48.00\nFeatures\t: fp asimd\nCPU implementer\t: 0x61\nCPU architecture: 8\nCPU variant\t: 0x0\nCPU part\t: 0x000\nCPU revision\t: 0\n\n";

/// The end of the system-wide statistics.
pub const STAT_TAIL: &'static str = "intr 0\nctxt 0\nbtime 0\nprocesses 1\nprocs_running 1\nprocs_blocked 0\n";

/// The lines of the memory report that are always zero.
pub const MEMINFO_TAIL: &'static str = "Buffers:                 0 kB\nCached:                  0 kB\nSwapCached:              0 kB\nSwapTotal:               0 kB\nSwapFree:                0 kB\nShmem:                   0 kB\nSReclaimable:            0 kB\n";

/// The fields of a process's statistics after the number of its threads.
pub const STAT_FIELDS: &'static str = " 0 0 4194304 256 18446744073709551615 0 0 0 0 0 0 0 0 0 0 0 0 0 17 0 0 0 0 0 0 0 0 0 0 0 0 0\n";

/// The memory report.
pub open spec fn meminfo_text() -> Seq<char> {
    let total = right_aligned(decimal((SYNTHETIC_TOTAL_RAM_BYTES / 1024) as nat), 10);
    let free = right_aligned(decimal((SYNTHETIC_FREE_RAM_BYTES / 1024) as nat), 10);
    "MemTotal:       "@ + total + " kB\nMemFree:        "@ + free + " kB\nMemAvailable:   "@ + free
        + " kB\n"@ + MEMINFO_TAIL@
}

/// The lines of the first so many CPUs in the system-wide statistics.
pub open spec fn cpu_lines(count: nat) -> Seq<char>
    decreases count,
{
    if count == 0 {
        "cpu  0 0 0 0 0 0 0 0 0 0\n"@
    } else {
        cpu_lines((count - 1) as nat) + "cpu"@ + decimal((count - 1) as nat)
            + " 0 0 0 0 0 0 0 0 0 0\n"@
    }
}

/// The system-wide statistics.
pub open spec fn stat_system_text() -> Seq<char> {
    cpu_lines(SYNTHETIC_NUM_CPUS as nat) + STAT_TAIL@
}

/// The version line.
pub open spec fn version_text() -> Seq<char> {
    "Linux version "@ + SYNTHETIC_KERNEL_RELEASE@
        + " (litebox@litebox) (litebox) #1 SMP PREEMPT Mon Jan 1 00:00:00 UTC 2024\n"@
}

/// The time that all CPUs together count as idle.
pub open spec fn idle_seconds(uptime: u64) -> nat {
    if uptime * SYNTHETIC_NUM_CPUS > u64::MAX {
        u64::MAX as nat
    } else {
        (uptime * SYNTHETIC_NUM_CPUS) as nat
    }
}

/// Uptime and idle time.
pub open spec fn uptime_text(uptime: u64) -> Seq<char> {
    decimal(uptime as nat) + ".00 "@ + decimal(idle_seconds(uptime)) + ".00\n"@
}

/// The stanzas of the first so many CPUs.
pub open spec fn cpu_stanzas(count: nat) -> Seq<char>
    decreases count,
{
    if count == 0 {
        Seq::empty()
    } else {
        cpu_stanzas((count - 1) as nat) + "processor\t: "@ + decimal((count - 1) as nat)
            + CPU_STANZA@
    }
}

/// The four octets of an address, read as a little-endian number and printed as hexadecimal.
pub open spec fn address_text(octets: Seq<u8>) -> Seq<char> {
    hex_byte(octets[3]) + hex_byte(octets[2]) + hex_byte(octets[1]) + hex_byte(octets[0])
}

/// The routing table: the default route through the gateway, and the on-link route of the
/// interface's network, whose mask leaves the last octet to the hosts.
pub open spec fn net_route_text(interface: Seq<u8>, gateway: Seq<u8>) -> Seq<char> {
    NET_ROUTE_HEADER@ + "eth0\t00000000\t"@ + address_text(gateway)
        + "\t0003\t0\t0\t0\t00000000\t0\t0\t0\neth0\t"@ + address_text(
        seq![interface[0], interface[1], interface[2], 0],
    ) + "\t00000000\t0001\t0\t0\t0\t00FFFFFF\t0\t0\t0\n"@
}

/// A letter where something is so, and another where it is not.
pub open spec fn either(yes: bool, a: Seq<char>, b: Seq<char>) -> Seq<char> {
    if yes {
        a
    } else {
        b
    }
}

/// One line of the map of an address space. An anonymous mapping has a blank name.
pub open spec fn map_line(entry: ProcMapEntry) -> Seq<char> {
    in_base(entry.start as nat, 16) + "-"@ + in_base(entry.end as nat, 16) + " "@ + either(
        entry.read,
        "r"@,
        "-"@,
    ) + either(entry.write, "w"@, "-"@) + either(entry.execute, "x"@, "-"@) + either(
        entry.shared,
        "s"@,
        "p"@,
    ) + " 0 00:00 0 "@ + (match entry.name {
        Some(name) => name@,
        None => Seq::empty(),
    }) + "\n"@
}

/// The map of an address space, line by line.
pub open spec fn maps_text(entries: Seq<ProcMapEntry>) -> Seq<char>
    decreases entries.len(),
{
    if entries.len() == 0 {
        Seq::empty()
    } else {
        maps_text(entries.drop_last()) + map_line(entries.last())
    }
}

/// The pairs of an auxiliary vector, as words.
pub open spec fn auxv_words(list: Seq<(usize, usize)>) -> Seq<u8>
    decreases list.len(),
{
    if list.len() == 0 {
        Seq::empty()
    } else {
        auxv_words(list.drop_last()) + spec_u64_to_le_bytes(list.last().0 as u64)
            + spec_u64_to_le_bytes(list.last().1 as u64)
    }
}

/// An auxiliary vector with the pair that ends it.
pub open spec fn auxv_bytes(list: Seq<(usize, usize)>) -> Seq<u8> {
    auxv_words(list) + spec_u64_to_le_bytes(0) + spec_u64_to_le_bytes(0)
}

/// How many threads are reported: one at least.
pub open spec fn thread_count(task: TaskModel) -> nat {
    if task.threads.len() == 0 {
        1
    } else {
        task.threads.len()
    }
}

/// The statistics of a task on one line.
pub open spec fn stat_text(task: TaskModel, tid: int, comm: Seq<char>, state: ProcTaskState) -> Seq<char> {
    signed(tid) + " ("@ + comm + ") "@ + seq![state_code(state)] + " "@ + signed(task.ppid as int)
        + " "@ + signed(task.pgid as int) + " "@ + signed(task.sid as int)
        + " 0 -1 0 0 0 0 0 0 0 0 0 20 0 "@ + decimal(thread_count(task)) + STAT_FIELDS@
}

/// Numbers, each after a tab.
pub open spec fn tabbed(list: Seq<i32>) -> Seq<char>
    decreases list.len(),
{
    if list.len() == 0 {
        Seq::empty()
    } else {
        tabbed(list.drop_last()) + "\t"@ + signed(list.last() as int)
    }
}

/// Numbers, each followed by a space.
pub open spec fn spaced(list: Seq<u32>) -> Seq<char>
    decreases list.len(),
{
    if list.len() == 0 {
        Seq::empty()
    } else {
        spaced(list.drop_last()) + decimal(list.last() as nat) + " "@
    }
}

/// The groups of a process; without any, a lone space.
pub open spec fn groups_text(groups: Seq<u32>) -> Seq<char> {
    if groups.len() == 0 {
        " "@
    } else {
        spaced(groups)
    }
}

/// The same number four times, as the real, effective, saved and filesystem identity.
pub open spec fn fourfold(value: nat) -> Seq<char> {
    decimal(value) + "\t"@ + decimal(value) + "\t"@ + decimal(value) + "\t"@ + decimal(value)
}

/// The first lines of a task's status.
pub open spec fn status_head(task: TaskModel, tid: int, comm: Seq<char>, state: ProcTaskState) -> Seq<char> {
    "Name:\t"@ + comm + "\nState:\t"@ + state_label(state) + "\nTgid:\t"@ + signed(task.pid as int)
        + "\nPid:\t"@ + signed(tid) + "\nPPid:\t"@ + signed(task.ppid as int) + "\nNSpid:\t"@
        + signed(task.pid as int) + tabbed(task.ns_pids)
}

/// The status of a task, line by line.
pub open spec fn status_text(
    task: TaskModel,
    tid: int,
    comm: Seq<char>,
    state: ProcTaskState,
    security: SecurityStatusSnapshot,
) -> Seq<char> {
    status_head(task, tid, comm, state) + "\nUid:\t"@ + fourfold(task.uid as nat) + "\nGid:\t"@
        + fourfold(task.gid as nat) + "\nGroups:\t"@ + groups_text(task.groups) + "\nThreads:\t"@
        + decimal(thread_count(task))
        + "\nVmSize:\t    4096 kB\nVmRSS:\t     1024 kB\nNoNewPrivs:\t"@ + either(
        security.no_new_privs,
        "1"@,
        "0"@,
    ) + "\nSeccomp:\t"@ + decimal(security.seccomp_mode.spec_number()) + "\nSeccomp_filters:\t"@
        + decimal(security.seccomp_filter_count as nat) + "\n"@
}

/// The thread that a per-process file describes: the given one, or the leader.
pub open spec fn described(task: TaskModel, thread: Option<ThreadModel>) -> ThreadModel {
    match thread {
        Some(thread) => thread,
        None => ThreadModel {
            tid: task.pid,
            comm: task.comm,
            security: task.leader_security,
            state: task.state,
        },
    }
}

/// The content of one of the per-process files.
pub open spec fn pid_file_bytes(task: TaskModel, thread: Option<ThreadModel>, file: PidFile) -> Seq<u8> {
    let shown = described(task, thread);
    match file {
        PidFile::Stat => bytes_of(
            stat_text(task, shown.tid as int, lossy_text(shown.comm), shown.state),
        ),
        PidFile::Statm => bytes_of(STATM@),
        PidFile::Status => bytes_of(
            status_text(
                task,
                shown.tid as int,
                lossy_text(shown.comm),
                shown.state,
                shown.security,
            ),
        ),
        PidFile::Cmdline => task.cmdline,
        PidFile::Comm => shown.comm.push(10),
        PidFile::Auxv => auxv_bytes(task.auxv),
        _ => Seq::empty(),
    }
}

/// A fixed text's bytes.
fn fixed(text: &str) -> (bytes: Vec<u8>)
    ensures
        bytes@ == bytes_of(text@),
{
    into_bytes(String::from_str(text))
}

/// The memory report.
pub fn render_meminfo() -> (content: Vec<u8>)
    ensures
        content@ == bytes_of(meminfo_text()),
{
    let mut out = String::from_str("MemTotal:       ");
    put_right_aligned(&mut out, SYNTHETIC_TOTAL_RAM_BYTES / 1024, 10);
    out.append(" kB\nMemFree:        ");
    put_right_aligned(&mut out, SYNTHETIC_FREE_RAM_BYTES / 1024, 10);
    out.append(" kB\nMemAvailable:   ");
    put_right_aligned(&mut out, SYNTHETIC_FREE_RAM_BYTES / 1024, 10);
    out.append(" kB\n");
    out.append(MEMINFO_TAIL);
    into_bytes(out)
}

/// The mounts.
pub fn render_mounts() -> (content: Vec<u8>)
    ensures
        content@ == bytes_of(MOUNTS@),
{
    fixed(MOUNTS)
}

/// The system-wide statistics.
pub fn render_stat_system() -> (content: Vec<u8>)
    ensures
        content@ == bytes_of(stat_system_text()),
{
    let mut out = String::from_str("cpu  0 0 0 0 0 0 0 0 0 0\n");
    let mut cpu: u64 = 0;
    while cpu < SYNTHETIC_NUM_CPUS
        invariant
            cpu <= SYNTHETIC_NUM_CPUS,
            out@ == cpu_lines(cpu as nat),
        decreases SYNTHETIC_NUM_CPUS - cpu,
    {
        out.append("cpu");
        put_decimal(&mut out, cpu);
        out.append(" 0 0 0 0 0 0 0 0 0 0\n");
        cpu += 1;
    }
    out.append(STAT_TAIL);
    into_bytes(out)
}

/// The version line.
pub fn render_version() -> (content: Vec<u8>)
    ensures
        content@ == bytes_of(version_text()),
{
    let mut out = String::from_str("Linux version ");
    out.append(SYNTHETIC_KERNEL_RELEASE);
    out.append(" (litebox@litebox) (litebox) #1 SMP PREEMPT Mon Jan 1 00:00:00 UTC 2024\n");
    into_bytes(out)
}

/// Uptime and idle time. There is no idle accounting: every CPU counts as idle all the time.
pub fn render_uptime(uptime_secs: u64) -> (content: Vec<u8>)
    ensures
        content@ == bytes_of(uptime_text(uptime_secs)),
{
    let idle: u64 = match uptime_secs.checked_mul(SYNTHETIC_NUM_CPUS) {
        Some(idle) => idle,
        None => u64::MAX,
    };
    let mut out = String::new();
    put_decimal(&mut out, uptime_secs);
    proof {
        assert(out@ =~= decimal(uptime_secs as nat));
    }
    out.append(".00 ");
    put_decimal(&mut out, idle);
    out.append(".00\n");
    into_bytes(out)
}

/// One stanza for each CPU.
pub fn render_cpuinfo() -> (content: Vec<u8>)
    ensures
        content@ == bytes_of(cpu_stanzas(SYNTHETIC_NUM_CPUS as nat)),
{
    let mut out = String::new();
    let mut cpu: u64 = 0;
    while cpu < SYNTHETIC_NUM_CPUS
        invariant
            cpu <= SYNTHETIC_NUM_CPUS,
            out@ == cpu_stanzas(cpu as nat),
        decreases SYNTHETIC_NUM_CPUS - cpu,
    {
        out.append("processor\t: ");
        put_decimal(&mut out, cpu);
        out.append(CPU_STANZA);
        cpu += 1;
    }
    into_bytes(out)
}

/// Adds an address.
fn put_address(out: &mut String, a: u8, b: u8, c: u8, d: u8)
    ensures
        final(out)@ == old(out)@ + address_text(seq![a, b, c, d]),
{
    put_hex_byte(out, d);
    put_hex_byte(out, c);
    put_hex_byte(out, b);
    put_hex_byte(out, a);
    proof {
        assert(out@ =~= old(out)@ + address_text(seq![a, b, c, d]));
    }
}

/// The routing table.
pub fn render_net_route(interface_ip: [u8; 4], gateway_ip: [u8; 4]) -> (content: Vec<u8>)
    ensures
        content@ == bytes_of(net_route_text(interface_ip@, gateway_ip@)),
{
    let mut out = String::from_str(NET_ROUTE_HEADER);
    out.append("eth0\t00000000\t");
    proof {
        let octets = seq![gateway_ip@[0], gateway_ip@[1], gateway_ip@[2], gateway_ip@[3]];
        assert(octets =~= gateway_ip@);
    }
    put_address(&mut out, gateway_ip[0], gateway_ip[1], gateway_ip[2], gateway_ip[3]);
    out.append("\t0003\t0\t0\t0\t00000000\t0\t0\t0\neth0\t");
    put_address(&mut out, interface_ip[0], interface_ip[1], interface_ip[2], 0);
    out.append("\t00000000\t0001\t0\t0\t0\t00FFFFFF\t0\t0\t0\n");
    into_bytes(out)
}

/// The interfaces.
pub fn render_net_dev() -> (content: Vec<u8>)
    ensures
        content@ == bytes_of(NET_DEV@),
{
    fixed(NET_DEV)
}

/// The sizes of a process's memory.
pub fn render_statm() -> (content: Vec<u8>)
    ensures
        content@ == bytes_of(STATM@),
{
    fixed(STATM)
}

/// Adds one text or another.
fn put_either(out: &mut String, yes: bool, a: &str, b: &str)
    ensures
        final(out)@ == old(out)@ + either(yes, a@, b@),
{
    if yes {
        out.append(a);
    } else {
        out.append(b);
    }
}

/// One line of the map of an address space.
fn render_map_line(entry: ProcMapEntry) -> (line: String)
    ensures
        line@ == map_line(entry),
{
    let mut out = String::new();
    put_in_base(&mut out, entry.start as u64, 16);
    proof {
        assert(out@ =~= in_base(entry.start as nat, 16));
    }
    out.append("-");
    put_in_base(&mut out, entry.end as u64, 16);
    out.append(" ");
    put_either(&mut out, entry.read, "r", "-");
    put_either(&mut out, entry.write, "w", "-");
    put_either(&mut out, entry.execute, "x", "-");
    put_either(&mut out, entry.shared, "s", "p");
    out.append(" 0 00:00 0 ");
    let ghost before = out@;
    if let Some(name) = entry.name {
        out.append(name);
    } else {
        proof {
            assert(before + Seq::<char>::empty() =~= before);
        }
    }
    out.append("\n");
    out
}

/// The map of an address space.
pub fn render_maps(entries: &Vec<ProcMapEntry>) -> (content: Vec<u8>)
    ensures
        content@ == bytes_of(maps_text(entries@)),
{
    let mut out = String::new();
    let mut i: usize = 0;
    proof {
        assert(out@ =~= maps_text(entries@.take(0)));
    }
    while i < entries.len()
        invariant
            i <= entries@.len(),
            out@ == maps_text(entries@.take(i as int)),
        decreases entries@.len() - i,
    {
        let entry = entries[i];
        let line = render_map_line(entry);
        out.append(line.as_str());
        proof {
            assert(entries@.take(i + 1).drop_last() =~= entries@.take(i as int));
            assert(entries@.take(i + 1).last() == entry);
        }
        i += 1;
    }
    proof {
        assert(entries@.take(i as int) =~= entries@);
    }
    into_bytes(out)
}

/// Adds bytes.
fn put_bytes(out: &mut Vec<u8>, bytes: Vec<u8>)
    ensures
        final(out)@ == old(out)@ + bytes@,
{
    let mut i: usize = 0;
    proof {
        assert(out@ =~= old(out)@ + bytes@.take(0));
    }
    while i < bytes.len()
        invariant
            i <= bytes@.len(),
            out@ == old(out)@ + bytes@.take(i as int),
        decreases bytes@.len() - i,
    {
        out.push(bytes[i]);
        proof {
            assert(out@ =~= old(out)@ + bytes@.take(i + 1));
        }
        i += 1;
    }
    proof {
        assert(bytes@.take(i as int) =~= bytes@);
    }
}

/// The auxiliary vector: pairs of words, ended by a pair of zeros.
pub fn render_auxv(task: &ProcTaskInfo) -> (content: Vec<u8>)
    ensures
        content@ == auxv_bytes(task@.auxv),
{
    let mut out: Vec<u8> = Vec::new();
    let ghost list = task@.auxv;
    let mut i: usize = 0;
    proof {
        assert(out@ =~= auxv_words(list.take(0)));
    }
    while i < task.auxv.len()
        invariant
            i <= list.len(),
            list == task.auxv@,
            out@ == auxv_words(list.take(i as int)),
        decreases list.len() - i,
    {
        let (key, value) = task.auxv[i];
        put_bytes(&mut out, u64_to_le_bytes(key as u64));
        put_bytes(&mut out, u64_to_le_bytes(value as u64));
        proof {
            assert(list.take(i + 1).drop_last() =~= list.take(i as int));
            assert(list.take(i + 1).last() == (key, value));
        }
        i += 1;
    }
    proof {
        assert(list.take(i as int) =~= list);
    }
    put_bytes(&mut out, u64_to_le_bytes(0));
    put_bytes(&mut out, u64_to_le_bytes(0));
    out
}

/// How many threads are reported.
fn count_threads(task: &ProcTaskInfo) -> (count: u64)
    ensures
        count == thread_count(task@),
{
    let n: usize = task.threads.len();
    if n == 0 {
        1
    } else {
        n as u64
    }
}

/// The letter of a state.
fn state_letter(state: ProcTaskState) -> (text: &'static str)
    ensures
        text@ == seq![state_code(state)],
{
    proof {
        reveal_strlit("R");
        reveal_strlit("S");
        reveal_strlit("t");
        reveal_strlit("Z");
    }
    let text = match state {
        ProcTaskState::Running => "R",
        ProcTaskState::Sleeping => "S",
        ProcTaskState::TracingStop => "t",
        ProcTaskState::Zombie => "Z",
    };
    proof {
        assert(text@ =~= seq![state_code(state)]);
    }
    text
}

/// The statistics of a task on one line. Fields that have no counterpart hold the least wrong
/// constant.
pub fn render_stat(task: &ProcTaskInfo, tid: i32, comm: &Vec<u8>, state: ProcTaskState) -> (content: Vec<u8>)
    ensures
        content@ == bytes_of(stat_text(task@, tid as int, lossy_text(comm@), state)),
        valid_utf8(comm@) ==> content@ == bytes_of(
            stat_text(task@, tid as int, decode_utf8(comm@), state),
        ),
{
    let name = text_from_utf8_lossy(comm.as_slice());
    render_named_stat(task, tid, name.as_str(), state)
}

/// The statistics of a task, given the text of its name.
pub fn render_named_stat(task: &ProcTaskInfo, tid: i32, name: &str, state: ProcTaskState) -> (content: Vec<u8>)
    ensures
        content@ == bytes_of(stat_text(task@, tid as int, name@, state)),
{
    let mut out = String::new();
    put_signed(&mut out, tid);
    proof {
        assert(out@ =~= signed(tid as int));
    }
    out.append(" (");
    out.append(name);
    out.append(") ");
    out.append(state_letter(state));
    out.append(" ");
    put_signed(&mut out, task.ppid);
    out.append(" ");
    put_signed(&mut out, task.pgid);
    out.append(" ");
    put_signed(&mut out, task.sid);
    out.append(" 0 -1 0 0 0 0 0 0 0 0 0 20 0 ");
    put_decimal(&mut out, count_threads(task));
    out.append(STAT_FIELDS);
    into_bytes(out)
}

/// Adds numbers, each after a tab.
fn put_tabbed(out: &mut String, list: &Vec<i32>)
    ensures
        final(out)@ == old(out)@ + tabbed(list@),
{
    let ghost start = out@;
    let mut i: usize = 0;
    proof {
        assert(out@ =~= start + tabbed(list@.take(0)));
    }
    while i < list.len()
        invariant
            i <= list@.len(),
            out@ == start + tabbed(list@.take(i as int)),
        decreases list@.len() - i,
    {
        let value: i32 = list[i];
        out.append("\t");
        put_signed(out, value);
        proof {
            assert(list@.take(i + 1).drop_last() =~= list@.take(i as int));
            assert(list@.take(i + 1).last() == value);
            assert(out@ =~= start + tabbed(list@.take(i + 1)));
        }
        i += 1;
    }
    proof {
        assert(list@.take(i as int) =~= list@);
    }
}

/// Adds the groups of a process.
fn put_groups(out: &mut String, list: &Vec<u32>)
    ensures
        final(out)@ == old(out)@ + groups_text(list@),
{
    if list.len() == 0 {
        out.append(" ");
        return;
    }
    let ghost start = out@;
    let mut i: usize = 0;
    proof {
        assert(out@ =~= start + spaced(list@.take(0)));
    }
    while i < list.len()
        invariant
            i <= list@.len(),
            out@ == start + spaced(list@.take(i as int)),
        decreases list@.len() - i,
    {
        let value: u32 = list[i];
        put_decimal(out, value as u64);
        out.append(" ");
        proof {
            assert(list@.take(i + 1).drop_last() =~= list@.take(i as int));
            assert(list@.take(i + 1).last() == value);
            assert(out@ =~= start + spaced(list@.take(i + 1)));
        }
        i += 1;
    }
    proof {
        assert(list@.take(i as int) =~= list@);
    }
}

/// Adds a number four times.
fn put_fourfold(out: &mut String, value: u64)
    ensures
        final(out)@ == old(out)@ + fourfold(value as nat),
{
    put_decimal(out, value);
    out.append("\t");
    put_decimal(out, value);
    out.append("\t");
    put_decimal(out, value);
    out.append("\t");
    put_decimal(out, value);
    proof {
        assert(out@ =~= old(out)@ + fourfold(value as nat));
    }
}

/// The status of a task, line by line. The security lines are those of the one thread described.
pub fn render_status(
    task: &ProcTaskInfo,
    tid: i32,
    comm: &Vec<u8>,
    state: ProcTaskState,
    security: SecurityStatusSnapshot,
) -> (content: Vec<u8>)
    ensures
        content@ == bytes_of(
            status_text(task@, tid as int, lossy_text(comm@), state, security),
        ),
        valid_utf8(comm@) ==> content@ == bytes_of(
            status_text(task@, tid as int, decode_utf8(comm@), state, security),
        ),
{
    let name = text_from_utf8_lossy(comm.as_slice());
    render_named_status(task, tid, name.as_str(), state, security)
}

/// The status of a task, given the text of its name.
pub fn render_named_status(
    task: &ProcTaskInfo,
    tid: i32,
    name: &str,
    state: ProcTaskState,
    security: SecurityStatusSnapshot,
) -> (content: Vec<u8>)
    ensures
        content@ == bytes_of(status_text(task@, tid as int, name@, state, security)),
{
    let mut out = String::from_str("Name:\t");
    out.append(name);
    out.append("\nState:\t");
    out.append(state.label());
    out.append("\nTgid:\t");
    put_signed(&mut out, task.pid);
    out.append("\nPid:\t");
    put_signed(&mut out, tid);
    out.append("\nPPid:\t");
    put_signed(&mut out, task.ppid);
    out.append("\nNSpid:\t");
    put_signed(&mut out, task.pid);
    put_tabbed(&mut out, &task.ns_pids);
    proof {
        assert(out@ == status_head(task@, tid as int, name@, state));
    }
    out.append("\nUid:\t");
    put_fourfold(&mut out, task.uid as u64);
    out.append("\nGid:\t");
    put_fourfold(&mut out, task.gid as u64);
    out.append("\nGroups:\t");
    put_groups(&mut out, &task.groups);
    out.append("\nThreads:\t");
    put_decimal(&mut out, count_threads(task));
    out.append("\nVmSize:\t    4096 kB\nVmRSS:\t     1024 kB\nNoNewPrivs:\t");
    put_either(&mut out, security.no_new_privs, "1", "0");
    out.append("\nSeccomp:\t");
    put_decimal(&mut out, security.seccomp_mode.number() as u64);
    out.append("\nSeccomp_filters:\t");
    put_decimal(&mut out, security.seccomp_filter_count as u64);
    out.append("\n");
    into_bytes(out)
}

/// One of the per-process files, as the thread-group leader's view or as one thread's. Links have
/// no content, and what a live handle answers is not rendered here.
pub fn render_pid_file(task: &ProcTaskInfo, thread: Option<&ProcThreadInfo>, file: PidFile) -> (content: Vec<u8>)
    ensures
        content@ == pid_file_bytes(
            task@,
            match thread {
                Some(thread) => Some(thread@),
                None => None,
            },
            file,
        ),
{
    let (tid, comm, security, state) = match thread {
        Some(thread) => (thread.tid, &thread.comm, thread.security, thread.state),
        None => (task.pid, &task.comm, task.leader_security, task.state),
    };
    match file {
        PidFile::Stat => render_stat(task, tid, comm, state),
        PidFile::Statm => render_statm(),
        PidFile::Status => render_status(task, tid, comm, state, security),
        PidFile::Cmdline => crate::fs::proc::copied(&task.cmdline),
        PidFile::Comm => {
            let mut out = crate::fs::proc::copied(comm);
            out.push(10);
            out
        },
        PidFile::Auxv => render_auxv(task),
        _ => {
            let nothing: Vec<u8> = Vec::new();
            proof {
                assert(nothing@ =~= Seq::<u8>::empty());
            }
            nothing
        },
    }
}

} // verus!
