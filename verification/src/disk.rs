//! The `nvme0n1` line of `/proc/diskstats`, and filesystem space.
use vstd::prelude::*;
use crate::text::{
    chars_equal, chars_of, lines, parse_u64, parse_u64_spec, split_lines, split_whitespace,
    views, words,
};

verus! {

/// Cumulative sectors read and written by a disk.
#[derive(Debug, Clone, Copy, PartialEq, Eq, Structural)]
pub struct DiskSample {
    pub read_sectors: u64,
    pub write_sectors: u64,
}

/// Why `/proc/diskstats` text yields no disk sample.
#[derive(Debug, Clone, Copy, PartialEq, Eq, Structural)]
pub enum DiskStatsError {
    /// No line of at least ten fields names the device `nvme0n1`.
    DeviceNotFound,
    /// The sectors-read field of that line is not a number.
    InvalidReadSectors,
    /// The sectors-written field of that line is not a number.
    InvalidWriteSectors,
}

/// A line for the monitored disk: at least ten fields, the third `nvme0n1`.
pub open spec fn is_device_line(line: Seq<char>) -> bool {
    let f = words(line);
    f.len() >= 10 && f[2] == "nvme0n1"@
}

/// The index of the first device line at or after `i` (or the count).
pub open spec fn first_device_line(ls: Seq<Seq<char>>, i: int) -> int
    decreases ls.len() - i,
{
    if 0 <= i < ls.len() && !is_device_line(ls[i]) {
        first_device_line(ls, i + 1)
    } else {
        i
    }
}

/// What `read_disk_sample` makes of the text of `/proc/diskstats`: fields
/// 6 and 10 of the first device line, as sectors read and written.
pub open spec fn diskstats_sample(contents: Seq<char>) -> Result<DiskSample, DiskStatsError> {
    let ls = lines(contents);
    let k = first_device_line(ls, 0);
    if k >= ls.len() {
        Err(DiskStatsError::DeviceNotFound)
    } else {
        let f = words(ls[k]);
        match parse_u64_spec(f[5]) {
            None => Err(DiskStatsError::InvalidReadSectors),
            Some(read) => match parse_u64_spec(f[9]) {
                None => Err(DiskStatsError::InvalidWriteSectors),
                Some(write) => Ok(DiskSample { read_sectors: read, write_sectors: write }),
            },
        }
    }
}

/// The sector counts of `nvme0n1` in the text of `/proc/diskstats`.
pub fn disk_sample_from_diskstats(contents: &str) -> (r: Result<DiskSample, DiskStatsError>)
    ensures
        r == diskstats_sample(contents@),
{
    let cs = chars_of(contents);
    let ls = split_lines(&cs);
    let device = chars_of("nvme0n1");
    let ghost lv = lines(contents@);
    assert(views(ls@).len() == ls@.len());
    let mut i: usize = 0;
    while i < ls.len()
        invariant
            i <= ls@.len(),
            lv == views(ls@),
            lv == lines(contents@),
            device@ == "nvme0n1"@,
            first_device_line(lv, 0) == first_device_line(lv, i as int),
        decreases ls@.len() - i,
    {
        assert(lv[i as int] == ls@[i as int]@);
        let f = split_whitespace(&ls[i]);
        assert(views(f@).len() == f@.len());
        if f.len() >= 10 && chars_equal(&f[2], &device) {
            assert(views(f@)[2] == f@[2]@);
            assert(is_device_line(lv[i as int]));
            assert(views(f@)[5] == f@[5]@);
            assert(views(f@)[9] == f@[9]@);
            let read = match parse_u64(&f[5]) {
                Some(v) => v,
                None => return Err(DiskStatsError::InvalidReadSectors),
            };
            let write = match parse_u64(&f[9]) {
                Some(v) => v,
                None => return Err(DiskStatsError::InvalidWriteSectors),
            };
            return Ok(DiskSample { read_sectors: read, write_sectors: write });
        }
        proof {
            if f@.len() >= 10 {
                assert(views(f@)[2] == f@[2]@);
            }
        }
        i = i + 1;
    }
    Err(DiskStatsError::DeviceNotFound)
}

/// Size and free space of a filesystem, in bytes.
#[derive(Debug, Clone, Copy, PartialEq, Eq, Structural)]
pub struct FilesystemSpace {
    pub total_bytes: u64,
    pub used_bytes: u64,
    pub available_bytes: u64,
}

/// The space of a filesystem from its `statvfs` figures: fragment size,
/// fragment count, and fragments available to unprivileged users. Used
/// space is what is not available, never below zero.
pub fn filesystem_space(fragment_size: u64, blocks: u64, blocks_available: u64) -> (r:
    FilesystemSpace)
    requires
        blocks * fragment_size <= u64::MAX,
        blocks_available * fragment_size <= u64::MAX,
    ensures
        r.total_bytes == blocks * fragment_size,
        r.available_bytes == blocks_available * fragment_size,
        r.used_bytes == (if r.available_bytes <= r.total_bytes {
            r.total_bytes - r.available_bytes
        } else {
            0
        }),
        r.used_bytes <= r.total_bytes,
{
    let total_bytes = blocks * fragment_size;
    let available_bytes = blocks_available * fragment_size;
    let used_bytes = total_bytes.saturating_sub(available_bytes);
    FilesystemSpace { total_bytes, used_bytes, available_bytes }
}

} // verus!
