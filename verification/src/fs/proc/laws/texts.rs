//! What the computed files say, field by field, to whoever reads them.
use crate::fs::proc::tree::PidFile;
use crate::fs::proc::{ProcMapEntry, ProcTaskState, SeccompMode, SecurityStatusSnapshot};
use vstd::prelude::*;

verus! {

use crate::fs::proc::content::fd_info_text;
use crate::fs::proc::laws::numbers::{
    is_lower_numeral, is_upper_numeral, lemma_address_reads_little_endian, lemma_number_reads_back,
    lemma_signed_reads_back, spelled,
};
use crate::fs::proc::render::{
    address_text, auxv_words, cpu_lines, described, idle_seconds, map_line, maps_text, net_route_text,
    spaced, stat_text, status_text, tabbed, thread_count, uptime_text,
};
use crate::fs::proc::{TaskModel, ThreadModel};
use crate::fs::text::{decimal, in_base, signed};

/// A text shows a label with a value right behind it.
pub open spec fn shows(text: Seq<char>, label: Seq<char>, value: Seq<char>) -> bool {
    exists|before: Seq<char>, after: Seq<char>| text == #[trigger] framed(before, label, value, after)
}

/// A labelled value in its surroundings.
pub open spec fn framed(before: Seq<char>, label: Seq<char>, value: Seq<char>, after: Seq<char>) -> Seq<char> {
    before + label + value + after
}

/// Texts one behind the other.
pub open spec fn glued(parts: Seq<Seq<char>>) -> Seq<char>
    decreases parts.len(),
{
    if parts.len() == 0 {
        Seq::empty()
    } else {
        glued(parts.drop_last()) + parts.last()
    }
}

/// A label and the value behind it are shown wherever they stand among other texts.
proof fn lemma_glued(parts: Seq<Seq<char>>, i: int)
    requires
        0 <= i < parts.len() - 1,
    ensures
        shows(glued(parts), parts[i], parts[i + 1]),
    decreases parts.len(),
{
    let less = parts.drop_last();
    if i == parts.len() - 2 {
        let before = glued(less.drop_last());
        assert(glued(parts) =~= framed(before, parts[i], parts[i + 1], Seq::empty()));
    } else {
        lemma_glued(less, i);
        assert(less[i] == parts[i] && less[i + 1] == parts[i + 1]);
        let (before, after) = choose|before: Seq<char>, after: Seq<char>|
            glued(less) == #[trigger] framed(before, parts[i], parts[i + 1], after);
        assert(glued(parts) =~= framed(before, parts[i], parts[i + 1], after + parts.last()));
    }
}

/// The text of a number, as a reader takes it.
pub open spec fn tells(text: Seq<char>, value: int) -> bool {
    if value >= 0 {
        is_lower_numeral(text, 10) && spelled(text, 10) == value
    } else {
        text.len() > 0 && text[0] == '-' && is_lower_numeral(text.skip(1), 10) && spelled(text.skip(1), 10)
            == -value
    }
}

/// A text shows a number behind a label.
pub open spec fn shows_number(text: Seq<char>, label: Seq<char>, value: int) -> bool {
    exists|digits: Seq<char>| #[trigger] shows(text, label, digits) && tells(digits, value)
}

/// A text shows a number four times behind a label, with tabs in between.
pub open spec fn shows_fourfold(text: Seq<char>, label: Seq<char>, value: int) -> bool {
    exists|digits: Seq<char>|
        tells(digits, value) && #[trigger] shows(
            text,
            label,
            digits + "\t"@ + digits + "\t"@ + digits + "\t"@ + digits,
        )
}

proof fn lemma_told(value: int)
    ensures
        tells(signed(value), value),
        value >= 0 ==> tells(decimal(value as nat), value),
{
    lemma_signed_reads_back(value);
    if value >= 0 {
        lemma_number_reads_back(value as nat, 10);
    }
}

/// The status of a task shows each thing behind its own label: the name, the state, the process, thread
/// and parent, user and group each four times, how many threads there are but one at least, whether new
/// privileges are barred, and the filters.
pub proof fn lemma_status_shows_the_task(
    task: TaskModel,
    tid: int,
    comm: Seq<char>,
    state: ProcTaskState,
    security: SecurityStatusSnapshot,
)
    ensures
        ({
            let text = status_text(task, tid, comm, state, security);
            &&& shows(text, "Name:\t"@, comm)
            &&& shows_number(text, "\nTgid:\t"@, task.pid as int)
            &&& shows_number(text, "\nPid:\t"@, tid)
            &&& shows_number(text, "\nPPid:\t"@, task.ppid as int)
            &&& shows_number(text, "\nNSpid:\t"@, task.pid as int)
            &&& shows_fourfold(text, "\nUid:\t"@, task.uid as int)
            &&& shows_fourfold(text, "\nGid:\t"@, task.gid as int)
            &&& shows_number(
                text,
                "\nThreads:\t"@,
                if task.threads.len() > 0 {
                    task.threads.len() as int
                } else {
                    1
                },
            )
            &&& shows(
                text,
                "\nVmSize:\t    4096 kB\nVmRSS:\t     1024 kB\nNoNewPrivs:\t"@,
                if security.no_new_privs {
                    "1"@
                } else {
                    "0"@
                },
            )
            &&& shows_number(
                text,
                "\nSeccomp:\t"@,
                match security.seccomp_mode {
                    SeccompMode::Disabled => 0,
                    SeccompMode::Filter => 2,
                },
            )
            &&& shows_number(text, "\nSeccomp_filters:\t"@, security.seccomp_filter_count as int)
            &&& shows(
                text,
                "\nState:\t"@,
                match state {
                    ProcTaskState::Running => "R (running)"@,
                    ProcTaskState::Sleeping => "S (sleeping)"@,
                    ProcTaskState::TracingStop => "t (tracing stop)"@,
                    ProcTaskState::Zombie => "Z (zombie)"@,
                },
            )
        }),
{
    let text = status_text(task, tid, comm, state, security);
    let fourfold_uid = crate::fs::proc::render::fourfold(task.uid as nat);
    let fourfold_gid = crate::fs::proc::render::fourfold(task.gid as nat);
    let threads = decimal(thread_count(task));
    let barred = crate::fs::proc::render::either(security.no_new_privs, "1"@, "0"@);
    let mode = decimal(security.seccomp_mode.spec_number());
    let filters = decimal(security.seccomp_filter_count as nat);
    let parts = seq![
        "Name:\t"@,
        comm,
        "\nState:\t"@,
        crate::fs::proc::state_label(state),
        "\nTgid:\t"@,
        signed(task.pid as int),
        "\nPid:\t"@,
        signed(tid),
        "\nPPid:\t"@,
        signed(task.ppid as int),
        "\nNSpid:\t"@,
        signed(task.pid as int),
        tabbed(task.ns_pids),
        "\nUid:\t"@,
        fourfold_uid,
        "\nGid:\t"@,
        fourfold_gid,
        "\nGroups:\t"@,
        crate::fs::proc::render::groups_text(task.groups),
        "\nThreads:\t"@,
        threads,
        "\nVmSize:\t    4096 kB\nVmRSS:\t     1024 kB\nNoNewPrivs:\t"@,
        barred,
        "\nSeccomp:\t"@,
        mode,
        "\nSeccomp_filters:\t"@,
        filters,
        "\n"@,
    ];
    lemma_glue_of(parts, text);
    lemma_told(task.pid as int);
    lemma_told(tid);
    lemma_told(task.ppid as int);
    lemma_told(task.uid as int);
    lemma_told(task.gid as int);
    lemma_told(thread_count(task) as int);
    lemma_told(security.seccomp_mode.spec_number() as int);
    lemma_told(security.seccomp_filter_count as int);
    lemma_glued(parts, 0);
    lemma_glued(parts, 2);
    lemma_glued(parts, 4);
    lemma_glued(parts, 6);
    lemma_glued(parts, 8);
    lemma_glued(parts, 10);
    lemma_glued(parts, 13);
    lemma_glued(parts, 15);
    lemma_glued(parts, 19);
    lemma_glued(parts, 21);
    lemma_glued(parts, 23);
    lemma_glued(parts, 25);
    assert(shows(text, "\nUid:\t"@, fourfold_uid));
    assert(shows(text, "\nGid:\t"@, fourfold_gid));
}

/// A text that was put together from parts is these parts glued.
proof fn lemma_glue_of(parts: Seq<Seq<char>>, text: Seq<char>)
    requires
        parts.len() == 28,
        text == parts[0] + parts[1] + parts[2] + parts[3] + parts[4] + parts[5] + parts[6] + parts[7]
            + parts[8] + parts[9] + parts[10] + parts[11] + parts[12] + parts[13] + parts[14] + parts[15]
            + parts[16] + parts[17] + parts[18] + parts[19] + parts[20] + parts[21] + parts[22]
            + parts[23] + parts[24] + parts[25] + parts[26] + parts[27],
    ensures
        text == glued(parts),
{
    lemma_glued_prefix(parts);
}

proof fn lemma_glued_prefix(parts: Seq<Seq<char>>)
    requires
        parts.len() == 28,
    ensures
        glued(parts) == parts[0] + parts[1] + parts[2] + parts[3] + parts[4] + parts[5] + parts[6]
            + parts[7] + parts[8] + parts[9] + parts[10] + parts[11] + parts[12] + parts[13] + parts[14]
            + parts[15] + parts[16] + parts[17] + parts[18] + parts[19] + parts[20] + parts[21]
            + parts[22] + parts[23] + parts[24] + parts[25] + parts[26] + parts[27],
{
    reveal_with_fuel(glued, 29);
    assert(Seq::<char>::empty() + parts[0] =~= parts[0]);
}

/// The layout of the statistics of a task: thread, name, state, parent, group and session, then the
/// number of threads as the eighteenth field behind the name.
pub open spec fn stat_line(
    id: Seq<char>,
    comm: Seq<char>,
    letter: char,
    parent: Seq<char>,
    group: Seq<char>,
    session: Seq<char>,
    threads: Seq<char>,
) -> Seq<char> {
    id + " ("@ + comm + ") "@ + seq![letter] + " "@ + parent + " "@ + group + " "@ + session
        + " 0 -1 0 0 0 0 0 0 0 0 0 20 0 "@ + threads
        + " 0 0 4194304 256 18446744073709551615 0 0 0 0 0 0 0 0 0 0 0 0 0 17 0 0 0 0 0 0 0 0 0 0 0 0 0\n"@
}

/// The statistics of a task have each number in its own field.
pub proof fn lemma_stat_shows_the_task(
    task: TaskModel,
    tid: int,
    comm: Seq<char>,
    state: ProcTaskState,
)
    ensures
        exists|
            id: Seq<char>,
            letter: char,
            parent: Seq<char>,
            group: Seq<char>,
            session: Seq<char>,
            threads: Seq<char>,
        |
            stat_text(task, tid, comm, state) == #[trigger] stat_line(
                id,
                comm,
                letter,
                parent,
                group,
                session,
                threads,
            ) && tells(id, tid) && tells(parent, task.ppid as int) && tells(group, task.pgid as int)
                && tells(session, task.sid as int) && tells(
                threads,
                if task.threads.len() > 0 {
                    task.threads.len() as int
                } else {
                    1
                },
            ) && letter == (match state {
                ProcTaskState::Running => 'R',
                ProcTaskState::Sleeping => 'S',
                ProcTaskState::TracingStop => 't',
                ProcTaskState::Zombie => 'Z',
            }),
{
    lemma_told(tid);
    lemma_told(task.ppid as int);
    lemma_told(task.pgid as int);
    lemma_told(task.sid as int);
    lemma_told(thread_count(task) as int);
    assert(stat_text(task, tid, comm, state) == stat_line(
        signed(tid),
        comm,
        crate::fs::proc::state_code(state),
        signed(task.ppid as int),
        signed(task.pgid as int),
        signed(task.sid as int),
        decimal(thread_count(task)),
    ));
}

/// A line of the map of an address space shows where a mapping starts and ends in hexadecimal, a letter
/// for each access that it has and a dash for each that it lacks, whether it is shared, and its name.
pub proof fn lemma_map_line_shows_the_mapping(entry: ProcMapEntry)
    ensures
        exists|from: Seq<char>, to: Seq<char>, letters: Seq<char>, name: Seq<char>|
            map_line(entry) == #[trigger] map_layout(from, to, letters, name) && (match entry.name {
                Some(given) => name == given@,
                None => name.len() == 0,
            }) && is_lower_numeral(from, 16) && spelled(from, 16) == entry.start && is_lower_numeral(to, 16)
                && spelled(to, 16) == entry.end && letters.len() == 4 && letters[0] == (if entry.read {
                'r'
            } else {
                '-'
            }) && letters[1] == (if entry.write {
                'w'
            } else {
                '-'
            }) && letters[2] == (if entry.execute {
                'x'
            } else {
                '-'
            }) && letters[3] == (if entry.shared {
                's'
            } else {
                'p'
            }),
{
    reveal_strlit("r");
    reveal_strlit("w");
    reveal_strlit("x");
    reveal_strlit("s");
    reveal_strlit("p");
    reveal_strlit("-");
    let (from, to) = (in_base(entry.start as nat, 16), in_base(entry.end as nat, 16));
    lemma_number_reads_back(entry.start as nat, 16);
    lemma_number_reads_back(entry.end as nat, 16);
    let name = match entry.name {
        Some(name) => name@,
        None => Seq::empty(),
    };
    let letters = crate::fs::proc::render::either(entry.read, "r"@, "-"@)
        + crate::fs::proc::render::either(entry.write, "w"@, "-"@)
        + crate::fs::proc::render::either(entry.execute, "x"@, "-"@)
        + crate::fs::proc::render::either(entry.shared, "s"@, "p"@);
    assert(map_line(entry) =~= map_layout(from, to, letters, name));
}

/// The layout of a line of the map of an address space.
pub open spec fn map_layout(
    from: Seq<char>,
    to: Seq<char>,
    letters: Seq<char>,
    name: Seq<char>,
) -> Seq<char> {
    from + "-"@ + to + " "@ + letters + " 0 00:00 0 "@ + name + "\n"@
}

/// The map of an address space has one line for each mapping, in their order.
pub proof fn lemma_map_goes_line_by_line(entries: Seq<ProcMapEntry>, more: ProcMapEntry)
    ensures
        maps_text(Seq::empty()).len() == 0,
        maps_text(entries.push(more)) == maps_text(entries) + map_line(more),
{
    assert(entries.push(more).drop_last() =~= entries);
}

/// Uptime is shown in whole seconds, and the idle time of the two CPUs together is twice that, as far as
/// it fits 64 bits.
pub proof fn lemma_uptime_is_shown(uptime: u64)
    ensures
        exists|up: Seq<char>, idle: Seq<char>|
            uptime_text(uptime) == #[trigger] uptime_layout(up, idle) && tells(up, uptime as int) && tells(
                idle,
                if 2 * uptime <= 0xffff_ffff_ffff_ffff {
                    2 * uptime
                } else {
                    0xffff_ffff_ffff_ffff
                },
            ),
{
    lemma_told(uptime as int);
    lemma_told(idle_seconds(uptime) as int);
    assert(uptime_text(uptime) == uptime_layout(
        decimal(uptime as nat),
        decimal(idle_seconds(uptime)),
    ));
}

/// The layout of uptime and idle time.
pub open spec fn uptime_layout(up: Seq<char>, idle: Seq<char>) -> Seq<char> {
    up + ".00 "@ + idle + ".00\n"@
}

/// The routing table shows the gateway of the default route, and the network of the interface with its
/// mask: both as little-endian numbers of eight hexadecimal digits, the network being the part of the
/// interface's address that the mask leaves.
pub proof fn lemma_routes_are_shown(interface: Seq<u8>, gateway: Seq<u8>)
    requires
        interface.len() == 4,
        gateway.len() == 4,
    ensures
        exists|via: Seq<char>, network: Seq<char>|
            net_route_text(interface, gateway) == #[trigger] route_layout(via, network) && via.len() == 8
                && is_upper_numeral(via) && spelled(via, 16) == gateway[0] + 256 * gateway[1] + 65536
                * gateway[2] + 16777216 * gateway[3] && network.len() == 8 && is_upper_numeral(network)
                && spelled(network, 16) == interface[0] + 256 * interface[1] + 65536 * interface[2],
{
    let via = address_text(gateway);
    let network = address_text(seq![interface[0], interface[1], interface[2], 0]);
    assert(gateway =~= seq![gateway[0], gateway[1], gateway[2], gateway[3]]);
    lemma_address_reads_little_endian(gateway[0], gateway[1], gateway[2], gateway[3]);
    lemma_address_reads_little_endian(interface[0], interface[1], interface[2], 0);
    assert(net_route_text(interface, gateway) == route_layout(via, network));
}

/// The layout of the routing table.
pub open spec fn route_layout(via: Seq<char>, network: Seq<char>) -> Seq<char> {
    crate::fs::proc::render::NET_ROUTE_HEADER@ + "eth0\t00000000\t"@ + via
        + "\t0003\t0\t0\t0\t00000000\t0\t0\t0\neth0\t"@ + network
        + "\t00000000\t0001\t0\t0\t0\t00FFFFFF\t0\t0\t0\n"@
}

/// The details of a descriptor show its position, its flags in octal behind a zero, and its node.
pub proof fn lemma_descriptor_is_shown(entry: crate::fs::proc::lookup::FdModel)
    ensures
        exists|pos: Seq<char>, flags: Seq<char>, ino: Seq<char>|
            fd_info_text(entry) == #[trigger] descriptor_layout(pos, flags, ino) && tells(
                pos,
                entry.pos as int,
            ) && is_lower_numeral(flags, 8) && spelled(flags, 8) == entry.flags && tells(
                ino,
                entry.ino as int,
            ),
{
    lemma_told(entry.pos as int);
    lemma_told(entry.ino as int);
    lemma_number_reads_back(entry.flags as nat, 8);
    assert(fd_info_text(entry) == descriptor_layout(
        decimal(entry.pos as nat),
        in_base(entry.flags as nat, 8),
        decimal(entry.ino as nat),
    ));
}

/// The layout of the details of a descriptor.
pub open spec fn descriptor_layout(pos: Seq<char>, flags: Seq<char>, ino: Seq<char>) -> Seq<char> {
    "pos:\t"@ + pos + "\nflags:\t0"@ + flags + "\nmnt_id:\t1\nino:\t"@ + ino + "\n"@
}

/// Each further process number of a namespace comes behind a tab, and each further group before a space.
pub proof fn lemma_lists_go_on(numbers: Seq<i32>, number: i32, groups: Seq<u32>, group: u32)
    ensures
        exists|digits: Seq<char>| #[trigger]
            tells(digits, number as int) && tabbed(numbers.push(number)) == tabbed(numbers) + "\t"@ + digits,
        exists|digits: Seq<char>| #[trigger]
            tells(digits, group as int) && spaced(groups.push(group)) == spaced(groups) + digits + " "@,
        tabbed(Seq::empty()).len() == 0,
        crate::fs::proc::render::groups_text(Seq::empty()) == " "@,
        crate::fs::proc::render::groups_text(groups.push(group)) == spaced(groups.push(group)),
{
    lemma_told(number as int);
    lemma_told(group as int);
    assert(numbers.push(number).drop_last() =~= numbers);
    assert(groups.push(group).drop_last() =~= groups);
    assert(tells(signed(number as int), number as int));
    assert(tells(decimal(group as nat), group as int));
}

/// The system-wide statistics and the CPU report name each CPU once, numbered from zero.
pub proof fn lemma_each_cpu_is_named(count: nat)
    ensures
        exists|digits: Seq<char>| #[trigger]
            tells(digits, count as int) && cpu_lines(count + 1) == cpu_lines(count) + "cpu"@ + digits
                + " 0 0 0 0 0 0 0 0 0 0\n"@ && crate::fs::proc::render::cpu_stanzas(count + 1)
                == crate::fs::proc::render::cpu_stanzas(count) + "processor\t: "@ + digits
                + crate::fs::proc::render::CPU_STANZA@,
        cpu_lines(0) == "cpu  0 0 0 0 0 0 0 0 0 0\n"@,
        crate::fs::proc::render::cpu_stanzas(0).len() == 0,
{
    lemma_told(count as int);
    assert(tells(decimal(count), count as int));
}

/// A per-process file describes the thread that was named, and the thread-group leader if none was: a
/// thread keeps its own number, name, state and security.
pub proof fn lemma_files_describe_the_thread(task: TaskModel, thread: Option<ThreadModel>)
    ensures
        thread matches Some(thread) ==> described(task, Some(thread)) == thread,
        thread is None ==> {
            let leader = described(task, thread);
            leader.tid == task.pid && leader.comm == task.comm && leader.state == task.state
                && leader.security == task.leader_security
        },
        crate::fs::proc::render::pid_file_bytes(task, thread, PidFile::Cmdline) == task.cmdline,
        crate::fs::proc::render::pid_file_bytes(task, thread, PidFile::Comm).last() == 10,
        crate::fs::proc::render::pid_file_bytes(task, thread, PidFile::Comm).drop_last() == described(
            task,
            thread,
        ).comm,
{
    assert(described(task, thread).comm.push(10).drop_last() =~= described(task, thread).comm);
}

/// The auxiliary vector is its pairs as words of eight bytes, the low byte first, and a pair of zeros
/// behind them.
pub proof fn lemma_auxiliary_vector_reads_back(list: Seq<(usize, usize)>, i: int)
    requires
        0 <= i < list.len(),
    ensures
        auxv_words(list).len() == 16 * list.len(),
        vstd::bytes::spec_u64_from_le_bytes(auxv_words(list).subrange(16 * i, 16 * i + 8)) == list[i].0
            as u64,
        vstd::bytes::spec_u64_from_le_bytes(auxv_words(list).subrange(16 * i + 8, 16 * i + 16))
            == list[i].1 as u64,
        crate::fs::proc::render::auxv_bytes(list).len() == 16 * list.len() + 16,
        crate::fs::proc::render::auxv_bytes(list).take(16 * list.len() as int) == auxv_words(list),
        vstd::bytes::spec_u64_from_le_bytes(
            crate::fs::proc::render::auxv_bytes(list).subrange(
                16 * list.len() as int,
                16 * list.len() as int + 8,
            ),
        ) == 0,
        vstd::bytes::spec_u64_from_le_bytes(
            crate::fs::proc::render::auxv_bytes(list).subrange(
                16 * list.len() as int + 8,
                16 * list.len() as int + 16,
            ),
        ) == 0,
    decreases list.len(),
{
    vstd::bytes::lemma_auto_spec_u64_to_from_le_bytes();
    let less = list.drop_last();
    let n = list.len() as int;
    if less.len() > 0 {
        lemma_auxiliary_vector_reads_back(
            less,
            if i < n - 1 {
                i
            } else {
                0
            },
        );
    }
    let (words, before) = (auxv_words(list), auxv_words(less));
    let (key, value) = (list.last().0 as u64, list.last().1 as u64);
    let (a, b) = (
        vstd::bytes::spec_u64_to_le_bytes(key),
        vstd::bytes::spec_u64_to_le_bytes(value),
    );
    assert(words == before + a + b);
    if i == n - 1 {
        assert(words.subrange(16 * i, 16 * i + 8) =~= a);
        assert(words.subrange(16 * i + 8, 16 * i + 16) =~= b);
    } else {
        assert(words.subrange(16 * i, 16 * i + 8) =~= before.subrange(16 * i, 16 * i + 8));
        assert(words.subrange(16 * i + 8, 16 * i + 16) =~= before.subrange(16 * i + 8, 16 * i + 16));
    }
    let bytes = crate::fs::proc::render::auxv_bytes(list);
    let zero = vstd::bytes::spec_u64_to_le_bytes(0);
    assert(bytes.take(16 * n) =~= words);
    assert(bytes.subrange(16 * n, 16 * n + 8) =~= zero);
    assert(bytes.subrange(16 * n + 8, 16 * n + 16) =~= zero);
}

} // verus!
