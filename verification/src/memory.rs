//! `/proc/meminfo`: total and available memory.
use vstd::prelude::*;
use crate::text::{
    chars_of, lines, parse_u64, parse_u64_spec, split_lines, split_whitespace, strip_prefix,
    strip_prefix_spec, views, words,
};

verus! {

/// Installed and used memory, in bytes.
#[derive(Debug, Clone, Copy, PartialEq, Eq, Structural)]
pub struct MemoryBytes {
    pub total_bytes: u64,
    pub used_bytes: u64,
}

/// Why `/proc/meminfo` text yields no memory figures.
#[derive(Debug, Clone, Copy, PartialEq, Eq, Structural)]
pub enum MemInfoError {
    /// A `MemTotal:` line holds no value.
    MissingMemTotal,
    /// The value of a `MemTotal:` line is not a number.
    InvalidMemTotal,
    /// A `MemAvailable:` line holds no value.
    MissingMemAvailable,
    /// The value of a `MemAvailable:` line is not a number.
    InvalidMemAvailable,
    /// A value in kibibytes does not fit in 64 bits as bytes.
    Overflow,
}

/// The kibibyte value after a field label: its first word, read as a number.
pub open spec fn field_value(rest: Seq<char>, missing: MemInfoError, invalid: MemInfoError) -> Result<
    u64,
    MemInfoError,
> {
    let w = words(rest);
    if w.len() == 0 {
        Err(missing)
    } else {
        match parse_u64_spec(w[0]) {
            Some(v) => Ok(v),
            None => Err(invalid),
        }
    }
}

/// The `MemTotal:` and `MemAvailable:` values (in KiB) after reading the
/// lines `ls` in order, starting from `total` and `avail`; a later line
/// overrides an earlier one, and the first unreadable value stops the scan.
pub open spec fn meminfo_scan(ls: Seq<Seq<char>>, total: u64, avail: u64) -> Result<
    (u64, u64),
    MemInfoError,
>
    decreases ls.len(),
{
    if ls.len() == 0 {
        Ok((total, avail))
    } else {
        let rest = ls.drop_first();
        match strip_prefix_spec(ls[0], "MemTotal:"@) {
            Some(v) => match field_value(
                v,
                MemInfoError::MissingMemTotal,
                MemInfoError::InvalidMemTotal,
            ) {
                Ok(x) => meminfo_scan(rest, x, avail),
                Err(e) => Err(e),
            },
            None => match strip_prefix_spec(ls[0], "MemAvailable:"@) {
                Some(v) => match field_value(
                    v,
                    MemInfoError::MissingMemAvailable,
                    MemInfoError::InvalidMemAvailable,
                ) {
                    Ok(x) => meminfo_scan(rest, total, x),
                    Err(e) => Err(e),
                },
                None => meminfo_scan(rest, total, avail),
            },
        }
    }
}

/// What `read_memory_usage` makes of the text of `/proc/meminfo`. Without a
/// (nonzero) total everything is zero; otherwise the values are turned into
/// bytes, and used memory is the total less what is available, never below
/// zero.
pub open spec fn meminfo_memory(contents: Seq<char>) -> Result<MemoryBytes, MemInfoError> {
    match meminfo_scan(lines(contents), 0, 0) {
        Err(e) => Err(e),
        Ok((total_kb, avail_kb)) => if total_kb == 0 {
            Ok(MemoryBytes { total_bytes: 0, used_bytes: 0 })
        } else if total_kb * 1024 > u64::MAX || avail_kb * 1024 > u64::MAX {
            Err(MemInfoError::Overflow)
        } else {
            let total = total_kb * 1024;
            let avail = avail_kb * 1024;
            Ok(
                MemoryBytes {
                    total_bytes: total as u64,
                    used_bytes: (if avail <= total {
                        total - avail
                    } else {
                        0
                    }) as u64,
                },
            )
        },
    }
}

/// The first word after a label, read as a number.
fn read_field_value(rest: &[char], missing: MemInfoError, invalid: MemInfoError) -> (r: Result<
    u64,
    MemInfoError,
>)
    ensures
        r == field_value(rest@, missing, invalid),
{
    let w = split_whitespace(rest);
    assert(views(w@).len() == w@.len());
    if w.len() == 0 {
        return Err(missing);
    }
    assert(views(w@)[0] == w@[0]@);
    match parse_u64(&w[0]) {
        Some(v) => Ok(v),
        None => Err(invalid),
    }
}

/// The memory figures in the text of `/proc/meminfo`.
pub fn memory_from_meminfo(contents: &str) -> (r: Result<MemoryBytes, MemInfoError>)
    ensures
        r == meminfo_memory(contents@),
        r matches Ok(m) ==> m.used_bytes <= m.total_bytes,
{
    let cs = chars_of(contents);
    let ls = split_lines(&cs);
    let total_label = chars_of("MemTotal:");
    let avail_label = chars_of("MemAvailable:");
    let ghost lv = lines(contents@);
    assert(views(ls@).len() == ls@.len());
    let mut total_kb: u64 = 0;
    let mut avail_kb: u64 = 0;
    let mut i: usize = 0;
    assert(lv.skip(0) =~= lv);
    while i < ls.len()
        invariant
            i <= ls@.len(),
            lv == views(ls@),
            lv == lines(contents@),
            total_label@ == "MemTotal:"@,
            avail_label@ == "MemAvailable:"@,
            meminfo_scan(lv, 0, 0) == meminfo_scan(lv.skip(i as int), total_kb, avail_kb),
        decreases ls@.len() - i,
    {
        let ghost rest = lv.skip(i as int);
        assert(rest[0] == ls@[i as int]@);
        assert(rest.drop_first() =~= lv.skip(i + 1));
        match strip_prefix(&ls[i], &total_label) {
            Some(v) => {
                match read_field_value(
                    &v,
                    MemInfoError::MissingMemTotal,
                    MemInfoError::InvalidMemTotal,
                ) {
                    Ok(x) => total_kb = x,
                    Err(e) => return Err(e),
                }
            },
            None => {
                match strip_prefix(&ls[i], &avail_label) {
                    Some(v) => {
                        match read_field_value(
                            &v,
                            MemInfoError::MissingMemAvailable,
                            MemInfoError::InvalidMemAvailable,
                        ) {
                            Ok(x) => avail_kb = x,
                            Err(e) => return Err(e),
                        }
                    },
                    None => {},
                }
            },
        }
        i = i + 1;
    }
    assert(lv.skip(ls@.len() as int) =~= Seq::<Seq<char>>::empty());
    if total_kb == 0 {
        return Ok(MemoryBytes { total_bytes: 0, used_bytes: 0 });
    }
    let total_bytes = match total_kb.checked_mul(1024) {
        Some(x) => x,
        None => return Err(MemInfoError::Overflow),
    };
    let available_bytes = match avail_kb.checked_mul(1024) {
        Some(x) => x,
        None => return Err(MemInfoError::Overflow),
    };
    let used_bytes = total_bytes.saturating_sub(available_bytes);
    Ok(MemoryBytes { total_bytes, used_bytes })
}

} // verus!
