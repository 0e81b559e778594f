//! `/proc/<pid>`: one process's name, state, CPU time, memory and command.
use vstd::prelude::*;
use vstd::string::StringExecFns;
use crate::strings::{decode_lossy, string_from_chars, utf8_lossy};
use crate::text::{
    chars_of, find_char, find_first, find_last, lines, parse_u32, parse_u32_spec, parse_u64,
    parse_u64_spec, rfind_char, split_lines, split_whitespace, strip_prefix, strip_prefix_spec,
    views, words,
};

verus! {

/// One process as `/proc/<pid>` describes it.
#[derive(Debug, Clone)]
pub struct ProcessInfo {
    pub pid: u32,
    pub name: String,
    pub state: char,
    pub memory_bytes: u64,
    pub cpu_time: u64,
    pub command: String,
}

/// A process record as plain values.
pub struct ProcessView {
    pub pid: u32,
    pub name: Seq<char>,
    pub state: char,
    pub memory_bytes: u64,
    pub cpu_time: u64,
    pub command: Seq<char>,
}

pub open spec fn process_view(p: ProcessInfo) -> ProcessView {
    ProcessView {
        pid: p.pid,
        name: p.name@,
        state: p.state,
        memory_bytes: p.memory_bytes,
        cpu_time: p.cpu_time,
        command: p.command@,
    }
}

/// A copy of a process record.
pub(crate) fn copy_process(p: &ProcessInfo) -> (q: ProcessInfo)
    ensures
        process_view(q) == process_view(*p),
{
    ProcessInfo {
        pid: p.pid,
        name: p.name.clone(),
        state: p.state,
        memory_bytes: p.memory_bytes,
        cpu_time: p.cpu_time,
        command: p.command.clone(),
    }
}

/// Where the text of `/proc/<pid>` would make reading the process fail
/// outright, rather than just skip it.
#[derive(Debug, Clone, Copy, PartialEq, Eq, Structural)]
pub enum ProcessFault {
    /// The last `)` of the stat line comes before its first `(`.
    MisplacedParens,
    /// The resident set size in bytes does not fit in 64 bits.
    MemoryOverflow,
    /// User plus system time does not fit in 64 bits.
    CpuTimeOverflow,
}

/// The first index at or after `i` that holds a nonzero byte (or the length).
pub open spec fn skip_nul(b: Seq<u8>, i: int) -> int
    decreases b.len() - i,
{
    if 0 <= i < b.len() && b[i] == 0 {
        skip_nul(b, i + 1)
    } else {
        i
    }
}

/// The first index at or after `i` that holds a zero byte (or the length).
pub open spec fn part_end(b: Seq<u8>, i: int) -> int
    decreases b.len() - i,
{
    if 0 <= i < b.len() && b[i] != 0 {
        part_end(b, i + 1)
    } else {
        i
    }
}

pub proof fn lemma_skip_nul_bounds(b: Seq<u8>, i: int)
    requires
        0 <= i <= b.len(),
    ensures
        i <= skip_nul(b, i) <= b.len(),
        skip_nul(b, i) < b.len() ==> b[skip_nul(b, i)] != 0,
    decreases b.len() - i,
{
    if i < b.len() && b[i] == 0 {
        lemma_skip_nul_bounds(b, i + 1);
    }
}

pub proof fn lemma_part_end_bounds(b: Seq<u8>, i: int)
    requires
        0 <= i <= b.len(),
    ensures
        i <= part_end(b, i) <= b.len(),
        i < b.len() && b[i] != 0 ==> i < part_end(b, i),
    decreases b.len() - i,
{
    if i < b.len() && b[i] != 0 {
        lemma_part_end_bounds(b, i + 1);
    }
}

/// The nonempty runs of nonzero bytes of `b` from index `i` on: the
/// arguments of a NUL-separated command line, empty ones dropped.
pub open spec fn parts_from(b: Seq<u8>, i: int) -> Seq<Seq<u8>>
    decreases b.len() - i,
    when 0 <= i <= b.len()
    via parts_from_decreases
{
    let j = skip_nul(b, i);
    if j >= b.len() {
        seq![]
    } else {
        let k = part_end(b, j);
        seq![b.subrange(j, k)] + parts_from(b, k)
    }
}

#[via_fn]
proof fn parts_from_decreases(b: Seq<u8>, i: int) {
    lemma_skip_nul_bounds(b, i);
    let j = skip_nul(b, i);
    if j < b.len() {
        lemma_part_end_bounds(b, j);
    }
}

/// Texts joined with one space between neighbours.
pub open spec fn join_spaced(parts: Seq<Seq<char>>) -> Seq<char>
    decreases parts.len(),
{
    if parts.len() == 0 {
        seq![]
    } else if parts.len() == 1 {
        parts[0]
    } else {
        join_spaced(parts.drop_last()) + seq![' '] + parts.last()
    }
}

/// The command line shown for a process: the nonempty arguments of
/// `/proc/<pid>/cmdline`, each decoded leniently, joined by spaces; empty
/// when the file could not be read.
pub open spec fn command_text(cmdline: Option<Seq<u8>>) -> Seq<char> {
    match cmdline {
        None => seq![],
        Some(b) => join_spaced(parts_from(b, 0).map_values(|p: Seq<u8>| utf8_lossy(p))),
    }
}

/// The resident set size (KiB) that a status line gives, if it is a
/// readable `VmRSS:` line.
pub open spec fn vmrss_line(line: Seq<char>) -> Option<u64> {
    match strip_prefix_spec(line, "VmRSS:"@) {
        None => None,
        Some(v) => {
            let w = words(v);
            if w.len() == 0 {
                None
            } else {
                parse_u64_spec(w[0])
            }
        },
    }
}

/// The value of the first readable `VmRSS:` line among `ls`.
pub open spec fn first_vmrss(ls: Seq<Seq<char>>) -> Option<u64>
    decreases ls.len(),
{
    if ls.len() == 0 {
        None
    } else {
        match vmrss_line(ls[0]) {
            Some(v) => Some(v),
            None => first_vmrss(ls.drop_first()),
        }
    }
}

/// The resident set size (KiB) in `/proc/<pid>/status` text; zero without one.
pub open spec fn resident_kb(status: Seq<char>) -> u64 {
    match first_vmrss(lines(status)) {
        Some(v) => v,
        None => 0,
    }
}

/// The text after the `)` at `close` and the one ASCII character that
/// follows it (the stat fields from the state on), if there is such a
/// character.
pub open spec fn fields_text(stat: Seq<char>, close: int) -> Option<Seq<char>> {
    if close + 1 < stat.len() && (stat[close + 1] as u32) < 0x80 {
        Some(stat.skip(close + 2))
    } else {
        None
    }
}

/// What `read_process` makes of the files of `/proc/<pid>`: `stat` (its
/// text), `cmdline` (its bytes, if it could be read) and `status` (its text,
/// if it could be read). The name lies between the first `(` and the last
/// `)`; the state is the first character of the next field, user and system
/// time are the 12th and 13th fields after it; the resident size comes from
/// the first readable `VmRSS:` line. A stat line it cannot follow, or an
/// unreadable status file, gives no process.
pub open spec fn process_record(
    pid: u32,
    stat: Seq<char>,
    cmdline: Option<Seq<u8>>,
    status: Option<Seq<char>>,
) -> Result<Option<ProcessView>, ProcessFault> {
    match (find_first(stat, '('), find_last(stat, ')')) {
        (Some(open), Some(close)) => if close < open {
            Err(ProcessFault::MisplacedParens)
        } else {
            match fields_text(stat, close) {
                None => Ok(None),
                Some(rest) => {
                    let f = words(rest);
                    if f.len() < 13 {
                        Ok(None)
                    } else {
                        match (parse_u64_spec(f[11]), parse_u64_spec(f[12])) {
                            (Some(utime), Some(stime)) => match status {
                                None => Ok(None),
                                Some(st) => {
                                    let kb = resident_kb(st);
                                    if kb * 1024 > u64::MAX {
                                        Err(ProcessFault::MemoryOverflow)
                                    } else if utime + stime > u64::MAX {
                                        Err(ProcessFault::CpuTimeOverflow)
                                    } else {
                                        Ok(
                                            Some(
                                                ProcessView {
                                                    pid,
                                                    name: stat.subrange(open + 1, close),
                                                    state: f[0][0],
                                                    memory_bytes: (kb * 1024) as u64,
                                                    cpu_time: (utime + stime) as u64,
                                                    command: command_text(cmdline),
                                                },
                                            ),
                                        )
                                    }
                                },
                            },
                            _ => Ok(None),
                        }
                    }
                },
            }
        },
        _ => Ok(None),
    }
}

/// The nonempty NUL-separated arguments of a `/proc/<pid>/cmdline` file.
pub fn cmdline_arguments(cmdline: &[u8]) -> (out: Vec<Vec<u8>>)
    ensures
        out@.map_values(|v: Vec<u8>| v@) == parts_from(cmdline@, 0),
{
    let b = cmdline;
    let mut out: Vec<Vec<u8>> = Vec::new();
    let n = b.len();
    let mut i: usize = 0;
    while i < n
        invariant
            n == b@.len(),
            i <= n,
            parts_from(b@, 0) == out@.map_values(|v: Vec<u8>| v@) + parts_from(b@, i as int),
        ensures
            i == n,
            parts_from(b@, 0) == out@.map_values(|v: Vec<u8>| v@) + parts_from(b@, i as int),
        decreases n - i,
    {
        let ghost i0 = i as int;
        let mut j = i;
        while j < n && b[j] == 0
            invariant
                n == b@.len(),
                i0 <= j <= n,
                skip_nul(b@, i0) == skip_nul(b@, j as int),
            decreases n - j,
        {
            j = j + 1;
        }
        if j == n {
            assert(parts_from(b@, i0) =~= Seq::<Seq<u8>>::empty());
            assert(parts_from(b@, n as int) =~= Seq::<Seq<u8>>::empty());
            i = n;
            break;
        }
        let mut k = j;
        while k < n && b[k] != 0
            invariant
                n == b@.len(),
                j <= k <= n,
                part_end(b@, j as int) == part_end(b@, k as int),
            decreases n - k,
        {
            k = k + 1;
        }
        proof {
            lemma_part_end_bounds(b@, j as int);
        }
        let mut piece: Vec<u8> = Vec::new();
        let mut x = j;
        while x < k
            invariant
                j <= x <= k <= n,
                n == b@.len(),
                piece@ == b@.subrange(j as int, x as int),
            decreases k - x,
        {
            piece.push(b[x]);
            x = x + 1;
        }
        let ghost before = out@;
        out.push(piece);
        proof {
            assert(out@.map_values(|v: Vec<u8>| v@) =~= before.map_values(|v: Vec<u8>| v@).push(
                b@.subrange(j as int, k as int),
            ));
            assert(parts_from(b@, i0) == seq![b@.subrange(j as int, k as int)] + parts_from(
                b@,
                k as int,
            ));
            assert(parts_from(b@, 0) =~= out@.map_values(|v: Vec<u8>| v@) + parts_from(
                b@,
                k as int,
            ));
        }
        i = k;
    }
    assert(parts_from(b@, n as int) =~= Seq::<Seq<u8>>::empty());
    assert(out@.map_values(|v: Vec<u8>| v@) + Seq::<Seq<u8>>::empty() =~= out@.map_values(
        |v: Vec<u8>| v@,
    ));
    out
}

/// The arguments joined with one space between neighbours.
pub fn join_arguments(args: &Vec<String>) -> (s: String)
    ensures
        s@ == join_spaced(args@.map_values(|a: String| a@)),
{
    let mut s = String::new();
    let mut i: usize = 0;
    while i < args.len()
        invariant
            i <= args@.len(),
            s@ == join_spaced(args@.take(i as int).map_values(|a: String| a@)),
        decreases args@.len() - i,
    {
        let ghost t = args@.take(i + 1).map_values(|a: String| a@);
        assert(t.drop_last() =~= args@.take(i as int).map_values(|a: String| a@));
        if i > 0 {
            s.append(" ");
        }
        s.append(args[i].as_str());
        proof {
            if i == 0 {
                assert(t.len() == 1);
                assert(s@ =~= t[0]);
            } else {
                reveal_strlit(" ");
                assert(t.last() == args@[i as int]@);
                assert(s@ =~= join_spaced(t));
            }
        }
        i = i + 1;
    }
    assert(args@.take(args@.len() as int) =~= args@);
    s
}

/// The command line of a process from the bytes of `/proc/<pid>/cmdline`.
fn command_from_cmdline(cmdline: Option<&[u8]>) -> (s: String)
    ensures
        s@ == command_text(
            match cmdline {
                Some(b) => Some(b@),
                None => None,
            },
        ),
{
    let b = match cmdline {
        None => {
            return String::new();
        },
        Some(b) => b,
    };
    let parts = cmdline_arguments(b);
    let ghost pv = parts@.map_values(|v: Vec<u8>| v@);
    let mut args: Vec<String> = Vec::new();
    let mut i: usize = 0;
    while i < parts.len()
        invariant
            i <= parts@.len(),
            pv == parts@.map_values(|v: Vec<u8>| v@),
            args@.len() == i,
            forall|k: int|
                0 <= k < i ==> (#[trigger] args@[k])@ == utf8_lossy(pv[k]),
        decreases parts@.len() - i,
    {
        args.push(decode_lossy(parts[i].as_slice()));
        i = i + 1;
    }
    assert(args@.map_values(|a: String| a@) =~= pv.map_values(|p: Seq<u8>| utf8_lossy(p)));
    join_arguments(&args)
}

/// The resident set size (KiB) in `/proc/<pid>/status` text.
fn resident_kb_of(status: &str) -> (kb: u64)
    ensures
        kb == resident_kb(status@),
{
    let cs = chars_of(status);
    let ls = split_lines(&cs);
    let label = chars_of("VmRSS:");
    let ghost lv = lines(status@);
    assert(views(ls@).len() == ls@.len());
    assert(lv.skip(0) =~= lv);
    let mut i: usize = 0;
    while i < ls.len()
        invariant
            i <= ls@.len(),
            lv == views(ls@),
            lv == lines(status@),
            label@ == "VmRSS:"@,
            first_vmrss(lv) == first_vmrss(lv.skip(i as int)),
        decreases ls@.len() - i,
    {
        let ghost rest = lv.skip(i as int);
        assert(rest[0] == ls@[i as int]@);
        assert(rest.drop_first() =~= lv.skip(i + 1));
        if let Some(v) = strip_prefix(&ls[i], &label) {
            let w = split_whitespace(&v);
            assert(views(w@).len() == w@.len());
            if w.len() > 0 {
                assert(views(w@)[0] == w@[0]@);
                if let Some(x) = parse_u64(&w[0]) {
                    return x;
                }
            }
        }
        i = i + 1;
    }
    assert(lv.skip(ls@.len() as int) =~= Seq::<Seq<char>>::empty());
    0
}

/// Reads one process from the files of `/proc/<pid>`: the text of `stat`,
/// the bytes of `cmdline` (`None` when it could not be read) and the text of
/// `status` (`None` when it could not be read). `Ok(None)` is a process to
/// skip; `Err` marks text that the monitor treats as fatal.
pub fn parse_process(pid: u32, stat: &str, cmdline: Option<&[u8]>, status: Option<&str>) -> (r:
    Result<Option<ProcessInfo>, ProcessFault>)
    ensures
        ({
            let cmd = match cmdline {
                Some(b) => Some(b@),
                None => None,
            };
            let st = match status {
                Some(t) => Some(t@),
                None => None,
            };
            match (r, process_record(pid, stat@, cmd, st)) {
                (Ok(Some(p)), Ok(Some(v))) => process_view(p) == v,
                (Ok(None), Ok(None)) => true,
                (Err(a), Err(b)) => a == b,
                _ => false,
            }
        }),
{
    let cs = chars_of(stat);
    let open = match find_char(&cs, '(') {
        Some(k) => k,
        None => return Ok(None),
    };
    let close = match rfind_char(&cs, ')') {
        Some(k) => k,
        None => return Ok(None),
    };
    proof {
        crate::text::lemma_find_from_bounds(stat@, '(', 0);
        crate::text::lemma_rfind_before_bounds(stat@, ')', stat@.len() as int);
    }
    if close < open {
        return Err(ProcessFault::MisplacedParens);
    }
    let n = cs.len();
    if !(close + 1 < n && (cs[close + 1] as u32) < 0x80) {
        return Ok(None);
    }
    let name_chars = crate::text::copy_range(&cs, open + 1, close);
    let rest = crate::text::copy_range(&cs, close + 2, n);
    assert(rest@ =~= stat@.skip(close + 2));
    let f = split_whitespace(&rest);
    assert(views(f@).len() == f@.len());
    if f.len() < 13 {
        return Ok(None);
    }
    assert(views(f@)[0] == f@[0]@);
    assert(views(f@)[11] == f@[11]@);
    assert(views(f@)[12] == f@[12]@);
    let utime = match parse_u64(&f[11]) {
        Some(v) => v,
        None => return Ok(None),
    };
    let stime = match parse_u64(&f[12]) {
        Some(v) => v,
        None => return Ok(None),
    };
    proof {
        crate::text::lemma_words_nonempty(rest@);
    }
    let state = f[0][0];
    let command = command_from_cmdline(cmdline);
    let status = match status {
        Some(t) => t,
        None => return Ok(None),
    };
    let kb = resident_kb_of(status);
    let memory_bytes = match kb.checked_mul(1024) {
        Some(x) => x,
        None => return Err(ProcessFault::MemoryOverflow),
    };
    let cpu_time = match utime.checked_add(stime) {
        Some(x) => x,
        None => return Err(ProcessFault::CpuTimeOverflow),
    };
    Ok(
        Some(
            ProcessInfo {
                pid,
                name: string_from_chars(&name_chars),
                state,
                memory_bytes,
                cpu_time,
                command,
            },
        ),
    )
}

/// The process ID that a `/proc` entry name spells (`str::parse::<u32>`).
pub fn parse_pid(entry_name: &str) -> (r: Option<u32>)
    ensures
        r == parse_u32_spec(entry_name@),
{
    let cs = chars_of(entry_name);
    parse_u32(&cs)
}

/// The words of a stat line after its last `)` and the one character that
/// follows it: the fields from the state on.
pub open spec fn stat_fields(stat: Seq<char>) -> Seq<Seq<char>> {
    match find_last(stat, ')') {
        Some(close) => words(stat.skip(close + 2)),
        None => seq![],
    }
}

/// A readable process's CPU time is the sum of its user and system times:
/// the 12th and 13th fields after the state (fields 14 and 15 of the stat
/// line), both numbers.
pub proof fn lemma_cpu_time_is_user_plus_system(
    pid: u32,
    stat: Seq<char>,
    cmdline: Option<Seq<u8>>,
    status: Option<Seq<char>>,
    v: ProcessView,
)
    requires
        process_record(pid, stat, cmdline, status) == Ok::<Option<ProcessView>, ProcessFault>(
            Some(v),
        ),
    ensures
        stat_fields(stat).len() >= 13,
        parse_u64_spec(stat_fields(stat)[11]) is Some,
        parse_u64_spec(stat_fields(stat)[12]) is Some,
        v.cpu_time == parse_u64_spec(stat_fields(stat)[11])->0 + parse_u64_spec(
            stat_fields(stat)[12],
        )->0,
{
}

/// The CPU time depends on no other field: two readable stat lines whose
/// user and system times agree give the same CPU time, whatever their other
/// fields hold.
pub proof fn lemma_cpu_time_ignores_other_fields(
    pid: u32,
    stat1: Seq<char>,
    stat2: Seq<char>,
    cmdline: Option<Seq<u8>>,
    status: Option<Seq<char>>,
    v1: ProcessView,
    v2: ProcessView,
)
    requires
        process_record(pid, stat1, cmdline, status) == Ok::<Option<ProcessView>, ProcessFault>(
            Some(v1),
        ),
        process_record(pid, stat2, cmdline, status) == Ok::<Option<ProcessView>, ProcessFault>(
            Some(v2),
        ),
        stat_fields(stat1)[11] == stat_fields(stat2)[11],
        stat_fields(stat1)[12] == stat_fields(stat2)[12],
    ensures
        v1.cpu_time == v2.cpu_time,
{
    lemma_cpu_time_is_user_plus_system(pid, stat1, cmdline, status, v1);
    lemma_cpu_time_is_user_plus_system(pid, stat2, cmdline, status, v2);
}

/// A stat line of the usual shape, `head(name) rest`, with no `(` before the
/// name and no `)` after it, gives the process whenever its user and system
/// times are numbers, its status file was read and the sizes fit: the name is
/// exactly what lies between the parentheses (parentheses inside it
/// included), the state is the first character of the first field of `rest`,
/// and the CPU time is the sum of its 12th and 13th fields.
pub proof fn lemma_readable_process(
    pid: u32,
    head: Seq<char>,
    name: Seq<char>,
    rest: Seq<char>,
    cmdline: Option<Seq<u8>>,
    status: Seq<char>,
)
    requires
        !head.contains('('),
        !rest.contains(')'),
        words(rest).len() >= 13,
        parse_u64_spec(words(rest)[11]) is Some,
        parse_u64_spec(words(rest)[12]) is Some,
        parse_u64_spec(words(rest)[11])->0 + parse_u64_spec(words(rest)[12])->0 <= u64::MAX,
        resident_kb(status) * 1024 <= u64::MAX,
    ensures
        process_record(pid, head + seq!['('] + name + seq![')', ' '] + rest, cmdline, Some(status))
            == Ok::<Option<ProcessView>, ProcessFault>(
            Some(
                ProcessView {
                    pid,
                    name,
                    state: words(rest)[0][0],
                    memory_bytes: (resident_kb(status) * 1024) as u64,
                    cpu_time: (parse_u64_spec(words(rest)[11])->0 + parse_u64_spec(
                        words(rest)[12],
                    )->0) as u64,
                    command: command_text(cmdline),
                },
            ),
        ),
{
    let s = head + seq!['('] + name + seq![')', ' '] + rest;
    let open = head.len() as int;
    let close = open + 1 + name.len();
    assert(s[open] == '(');
    assert(s[close] == ')');
    assert(s[close + 1] == ' ');
    crate::text::lemma_find_from_bounds(s, '(', 0);
    assert forall|k: int| 0 <= k < open implies #[trigger] s[k] != '(' by {
        assert(s[k] == head[k]);
        if head[k] == '(' {
            assert(head.contains('('));
        }
    }
    assert(find_first(s, '(') == Some(open));
    crate::text::lemma_rfind_before_bounds(s, ')', s.len() as int);
    assert forall|k: int| close < k < s.len() implies #[trigger] s[k] != ')' by {
        if k > close + 1 {
            assert(s[k] == rest[k - close - 2]);
            if rest[k - close - 2] == ')' {
                assert(rest.contains(')'));
            }
        }
    }
    assert(find_last(s, ')') == Some(close));
    assert(s.skip(close + 2) =~= rest);
    assert(fields_text(s, close) == Some(rest));
    assert(s.subrange(open + 1, close) =~= name);
}

} // verus!
