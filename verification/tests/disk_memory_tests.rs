use linuxpulse::disk::{disk_sample_from_diskstats, filesystem_space, DiskSample, DiskStatsError};
use linuxpulse::memory::{memory_from_meminfo, MemInfoError, MemoryBytes};

const DISKSTATS: &str = "   7       0 loop0 14 0 28 3 0 0 0 0 0 4 3 0 0 0 0 0 0\n\
 259       0 nvme0n1 118293 36174 9470342 20431 212389 156337 14137528 153045 0 111276 183925\n\
 259       1 nvme0n1p1 300 0 20000 50 2 0 16 0 0 60 50\n";

#[test]
fn reads_nvme_sectors() {
    assert_eq!(
        disk_sample_from_diskstats(DISKSTATS),
        Ok(DiskSample { read_sectors: 9470342, write_sectors: 14137528 })
    );
}

#[test]
fn diskstats_errors() {
    assert_eq!(
        disk_sample_from_diskstats("259 0 sda 1 2 3 4 5 6 7\n"),
        Err(DiskStatsError::DeviceNotFound)
    );
    assert_eq!(
        disk_sample_from_diskstats("259 0 nvme0n1 1 2 3 4 5 6\n"),
        Err(DiskStatsError::DeviceNotFound)
    );
    assert_eq!(
        disk_sample_from_diskstats("259 0 nvme0n1 1 2 x 4 5 6 7\n"),
        Err(DiskStatsError::InvalidReadSectors)
    );
    assert_eq!(
        disk_sample_from_diskstats("259 0 nvme0n1 1 2 3 4 5 6 -7\n"),
        Err(DiskStatsError::InvalidWriteSectors)
    );
}

#[test]
fn filesystem_space_in_bytes() {
    let s = filesystem_space(4096, 1000, 250);
    assert_eq!(s.total_bytes, 4_096_000);
    assert_eq!(s.available_bytes, 1_024_000);
    assert_eq!(s.used_bytes, 3_072_000);
    let t = filesystem_space(4096, 10, 20);
    assert_eq!(t.used_bytes, 0);
}

const MEMINFO: &str = "MemTotal:       16303852 kB\n\
MemFree:         8000000 kB\n\
MemAvailable:   12000000 kB\n\
Buffers:          300000 kB\n";

#[test]
fn reads_memory() {
    assert_eq!(
        memory_from_meminfo(MEMINFO),
        Ok(MemoryBytes {
            total_bytes: 16303852 * 1024,
            used_bytes: (16303852 - 12000000) * 1024,
        })
    );
}

#[test]
fn memory_without_total_is_zero() {
    assert_eq!(
        memory_from_meminfo("MemAvailable: 5 kB\n"),
        Ok(MemoryBytes { total_bytes: 0, used_bytes: 0 })
    );
    assert_eq!(memory_from_meminfo(""), Ok(MemoryBytes { total_bytes: 0, used_bytes: 0 }));
}

#[test]
fn memory_later_lines_override_and_saturate() {
    let text = "MemTotal: 10 kB\nMemAvailable: 4 kB\nMemTotal: 3 kB\n";
    assert_eq!(
        memory_from_meminfo(text),
        Ok(MemoryBytes { total_bytes: 3 * 1024, used_bytes: 0 })
    );
}

#[test]
fn meminfo_errors() {
    assert_eq!(memory_from_meminfo("MemTotal:\n"), Err(MemInfoError::MissingMemTotal));
    assert_eq!(memory_from_meminfo("MemTotal: x kB\n"), Err(MemInfoError::InvalidMemTotal));
    assert_eq!(
        memory_from_meminfo("MemAvailable:   \n"),
        Err(MemInfoError::MissingMemAvailable)
    );
    assert_eq!(
        memory_from_meminfo("MemAvailable: -3\n"),
        Err(MemInfoError::InvalidMemAvailable)
    );
    assert_eq!(
        memory_from_meminfo("MemTotal: 18446744073709551615 kB\n"),
        Err(MemInfoError::Overflow)
    );
}
