//! The aggregate CPU line of `/proc/stat`.
use vstd::prelude::*;
use crate::text::{
    all_ws, chars_of, lemma_words_of_word_then_rest, lines, no_ws, parse_u64, parse_u64_spec, split_lines, split_whitespace, starts_with,
    views, words,
};

verus! {

/// Cumulative CPU time, in clock ticks, over all CPUs.
#[derive(Debug, Clone, Copy, PartialEq, Eq, Structural)]
pub struct CpuSample {
    pub total: u64,
    pub idle: u64,
}

/// Why a `cpu` line cannot be read.
#[derive(Debug, Clone, Copy, PartialEq, Eq, Structural)]
pub enum CpuLineFault {
    /// A field after the label is not an unsigned 64-bit number.
    InvalidValue,
    /// Fewer than five numbers follow the label (no idle and iowait fields).
    MissingIdleFields,
    /// The idle time or the total does not fit in 64 bits.
    Overflow,
}

/// Why `/proc/stat` text yields no CPU sample.
#[derive(Debug, Clone, Copy, PartialEq, Eq, Structural)]
pub enum CpuStatError {
    /// No line starts with `"cpu "`.
    MissingCpuLine,
    /// The first such line cannot be read.
    BadCpuLine(CpuLineFault),
}

/// The words of a `cpu` line after its label.
pub open spec fn value_words(line: Seq<char>) -> Seq<Seq<char>> {
    let w = words(line);
    if w.len() > 0 {
        w.drop_first()
    } else {
        w
    }
}

/// Every word is an unsigned 64-bit number.
pub open spec fn all_parse_u64(ws: Seq<Seq<char>>) -> bool {
    forall|i: int| 0 <= i < ws.len() ==> (#[trigger] parse_u64_spec(ws[i])) is Some
}

/// The numbers that the words spell.
pub open spec fn parsed_values(ws: Seq<Seq<char>>) -> Seq<u64> {
    ws.map_values(|w: Seq<char>| parse_u64_spec(w)->0)
}

/// The sum of the numbers.
pub open spec fn seq_sum(v: Seq<u64>) -> nat
    decreases v.len(),
{
    if v.len() == 0 {
        0
    } else {
        seq_sum(v.drop_last()) + (v.last() as nat)
    }
}

/// What stops a `cpu` line from being read, if anything: the fields are
/// parsed first, then the idle fields (4th and 5th) are taken, then idle
/// time and the total of all fields are added up in 64 bits.
pub open spec fn cpu_line_fault(line: Seq<char>) -> Option<CpuLineFault> {
    let ws = value_words(line);
    if !all_parse_u64(ws) {
        Some(CpuLineFault::InvalidValue)
    } else {
        let v = parsed_values(ws);
        if v.len() < 5 {
            Some(CpuLineFault::MissingIdleFields)
        } else if v[3] + v[4] > u64::MAX || seq_sum(v) > u64::MAX {
            Some(CpuLineFault::Overflow)
        } else {
            None
        }
    }
}

/// The sample a readable `cpu` line gives: idle is idle plus iowait, total
/// is the sum of all fields.
pub open spec fn cpu_sample_of(line: Seq<char>) -> CpuSample {
    let v = parsed_values(value_words(line));
    CpuSample { total: seq_sum(v) as u64, idle: (v[3] + v[4]) as u64 }
}

/// Reads the numbers of a `cpu` line.
#[verifier::loop_isolation(false)]
fn read_cpu_line(line: &[char]) -> (r: Result<CpuSample, CpuLineFault>)
    ensures
        match cpu_line_fault(line@) {
            Some(f) => r == Err::<CpuSample, CpuLineFault>(f),
            None => r == Ok::<CpuSample, CpuLineFault>(cpu_sample_of(line@)),
        },
{
    let ws = split_whitespace(line);
    let ghost vw = value_words(line@);
    assert(views(ws@).len() == ws@.len());
    let mut values: Vec<u64> = Vec::new();
    let mut i: usize = 1;
    if ws.len() == 0 {
        i = 0;
    }
    assert(vw =~= views(ws@).subrange(i as int, ws@.len() as int));
    let start = i;
    while i < ws.len()
        invariant
            start <= i <= ws@.len(),
            vw == views(ws@).subrange(start as int, ws@.len() as int),
            values@.len() == i - start,
            forall|k: int| 0 <= k < i - start ==> (#[trigger] parse_u64_spec(vw[k])) is Some,
            values@ == parsed_values(vw.take(i - start)),
        decreases ws@.len() - i,
    {
        assert(vw[i - start] == ws@[i as int]@);
        match parse_u64(&ws[i]) {
            Some(v) => {
                values.push(v);
                assert(values@ =~= parsed_values(vw.take(i - start + 1)));
            },
            None => {
                assert(!all_parse_u64(vw));
                return Err(CpuLineFault::InvalidValue);
            },
        }
        i = i + 1;
    }
    assert(vw.take(i - start) =~= vw);
    assert(all_parse_u64(vw));
    if values.len() < 5 {
        return Err(CpuLineFault::MissingIdleFields);
    }
    let idle = match values[3].checked_add(values[4]) {
        Some(x) => x,
        None => return Err(CpuLineFault::Overflow),
    };
    let mut total: u64 = 0;
    let mut j: usize = 0;
    while j < values.len()
        invariant
            j <= values@.len(),
            total as nat == seq_sum(values@.take(j as int)),
        decreases values@.len() - j,
    {
        assert(values@.take(j + 1).drop_last() =~= values@.take(j as int));
        match total.checked_add(values[j]) {
            Some(x) => total = x,
            None => {
                proof {
                    lemma_sum_prefix(values@, j + 1);
                }
                return Err(CpuLineFault::Overflow);
            },
        }
        j = j + 1;
    }
    assert(values@.take(values@.len() as int) =~= values@);
    Ok(CpuSample { total, idle })
}

/// A prefix never sums to more than the whole.
pub proof fn lemma_sum_prefix(v: Seq<u64>, k: int)
    requires
        0 <= k <= v.len(),
    ensures
        seq_sum(v.take(k)) <= seq_sum(v),
    decreases v.len(),
{
    if k < v.len() {
        lemma_sum_prefix(v.drop_last(), k);
        assert(v.drop_last().take(k) =~= v.take(k));
    } else {
        assert(v.take(k) =~= v);
    }
}

/// Any two distinct entries together are at most the sum.
pub proof fn lemma_sum_two(v: Seq<u64>, a: int, b: int)
    requires
        0 <= a < v.len(),
        0 <= b < v.len(),
        a != b,
    ensures
        v[a] + v[b] <= seq_sum(v),
    decreases v.len(),
{
    let n = v.len() - 1;
    if a == n {
        lemma_sum_one(v.drop_last(), b);
    } else if b == n {
        lemma_sum_one(v.drop_last(), a);
    } else {
        lemma_sum_two(v.drop_last(), a, b);
    }
}

/// Any entry is at most the sum.
pub proof fn lemma_sum_one(v: Seq<u64>, a: int)
    requires
        0 <= a < v.len(),
    ensures
        v[a] <= seq_sum(v),
    decreases v.len(),
{
    if a < v.len() - 1 {
        lemma_sum_one(v.drop_last(), a);
    }
}

/// Reads a `cpu` line of `/proc/stat`: the label, then the tick counts.
/// Idle time is the idle and iowait fields together; the total is the sum
/// of all fields.
pub fn parse_cpu_line(line: &str) -> (sample: CpuSample)
    requires
        cpu_line_fault(line@) is None,
    ensures
        sample == cpu_sample_of(line@),
        sample.idle <= sample.total,
{
    let cs = chars_of(line);
    proof {
        lemma_cpu_idle_within_total(line@);
    }
    let r = read_cpu_line(&cs);
    r.unwrap()
}

/// In a readable `cpu` line the idle time never exceeds the total.
pub proof fn lemma_cpu_idle_within_total(line: Seq<char>)
    requires
        cpu_line_fault(line) is None,
    ensures
        cpu_sample_of(line).idle <= cpu_sample_of(line).total,
{
    let v = parsed_values(value_words(line));
    lemma_sum_two(v, 3, 4);
}

/// Reading a `cpu` line ignores its label and the spacing: a line made of
/// any label, some whitespace and the numbers reads exactly as one made of
/// another label, other whitespace and the same words, whether or not it is
/// readable.
pub proof fn lemma_cpu_line_label_and_spacing(
    label1: Seq<char>,
    space1: Seq<char>,
    rest1: Seq<char>,
    label2: Seq<char>,
    space2: Seq<char>,
    rest2: Seq<char>,
)
    requires
        label1.len() > 0,
        no_ws(label1),
        space1.len() > 0,
        all_ws(space1),
        label2.len() > 0,
        no_ws(label2),
        space2.len() > 0,
        all_ws(space2),
        words(rest1) == words(rest2),
    ensures
        cpu_line_fault(label1 + space1 + rest1) == cpu_line_fault(label2 + space2 + rest2),
        cpu_sample_of(label1 + space1 + rest1) == cpu_sample_of(label2 + space2 + rest2),
{
    lemma_words_of_word_then_rest(label1, space1, rest1);
    lemma_words_of_word_then_rest(label2, space2, rest2);
    assert((seq![label1] + words(rest1)).drop_first() =~= words(rest1));
    assert((seq![label2] + words(rest2)).drop_first() =~= words(rest2));
    assert(value_words(label1 + space1 + rest1) == value_words(label2 + space2 + rest2));
}

/// The index of the first line that starts with `prefix` (or the count).
pub open spec fn first_with_prefix(ls: Seq<Seq<char>>, prefix: Seq<char>, i: int) -> int
    decreases ls.len() - i,
{
    if 0 <= i < ls.len() && !prefix.is_prefix_of(ls[i]) {
        first_with_prefix(ls, prefix, i + 1)
    } else {
        i
    }
}

/// What `read_total_cpu` makes of the text of `/proc/stat`: the first line
/// that starts with `"cpu "`, read by `parse_cpu_line`.
pub open spec fn stat_cpu_sample(contents: Seq<char>) -> Result<CpuSample, CpuStatError> {
    let ls = lines(contents);
    let k = first_with_prefix(ls, "cpu "@, 0);
    if k >= ls.len() {
        Err(CpuStatError::MissingCpuLine)
    } else {
        match cpu_line_fault(ls[k]) {
            Some(f) => Err(CpuStatError::BadCpuLine(f)),
            None => Ok(cpu_sample_of(ls[k])),
        }
    }
}

/// The CPU sample in the text of `/proc/stat`.
pub fn cpu_sample_from_stat(contents: &str) -> (r: Result<CpuSample, CpuStatError>)
    ensures
        r == stat_cpu_sample(contents@),
        r matches Ok(s) ==> s.idle <= s.total,
{
    let cs = chars_of(contents);
    let ls = split_lines(&cs);
    let label = chars_of("cpu ");
    let ghost lv = lines(contents@);
    assert(views(ls@).len() == ls@.len());
    let mut i: usize = 0;
    while i < ls.len()
        invariant
            i <= ls@.len(),
            lv == views(ls@),
            lv == lines(contents@),
            label@ == "cpu "@,
            first_with_prefix(lv, "cpu "@, 0) == first_with_prefix(lv, "cpu "@, i as int),
        decreases ls@.len() - i,
    {
        assert(lv[i as int] == ls@[i as int]@);
        if starts_with(&ls[i], &label) {
            let r = read_cpu_line(&ls[i]);
            proof {
                if r is Ok {
                    lemma_cpu_idle_within_total(lv[i as int]);
                }
            }
            return match r {
                Ok(s) => Ok(s),
                Err(f) => Err(CpuStatError::BadCpuLine(f)),
            };
        }
        i = i + 1;
    }
    Err(CpuStatError::MissingCpuLine)
}

/// The tick counts that passed between two samples, as
/// `(idle ticks, total ticks)`; the CPU usage is one minus their ratio.
pub fn cpu_usage_deltas(previous: CpuSample, current: CpuSample) -> (r: (u64, u64))
    requires
        previous.total <= current.total,
        previous.idle <= current.idle,
    ensures
        r.0 == current.idle - previous.idle,
        r.1 == current.total - previous.total,
{
    let total_delta = current.total - previous.total;
    let idle_delta = current.idle - previous.idle;
    (idle_delta, total_delta)
}

} // verus!
