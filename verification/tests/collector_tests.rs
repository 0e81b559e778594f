use linuxpulse::collector::{busiest_processes, process_cpu_ticks, SnapshotCollector};
use linuxpulse::cpu::CpuSample;
use linuxpulse::disk::DiskSample;
use linuxpulse::network::NetworkSample;
use linuxpulse::processes::ProcessInfo;

fn net(name: &str, rx: u64, tx: u64) -> NetworkSample {
    NetworkSample { name: name.to_string(), rx_bytes: rx, tx_bytes: tx }
}

fn proc_(pid: u32, cpu_time: u64) -> ProcessInfo {
    ProcessInfo {
        pid,
        name: format!("p{}", pid),
        state: 'S',
        memory_bytes: 0,
        cpu_time,
        command: String::new(),
    }
}

#[test]
fn rates_between_readings() {
    let mut c = SnapshotCollector::new(
        CpuSample { total: 1000, idle: 800 },
        DiskSample { read_sectors: 100, write_sectors: 50 },
        vec![net("lo", 10, 10), net("eth0", 100, 200), net("eth0", 150, 210)],
        vec![proc_(1, 10), proc_(2, 20)],
    );
    let cpu = CpuSample { total: 1100, idle: 850 };
    let disk = DiskSample { read_sectors: 110, write_sectors: 40 };
    assert!(c.fits_reading(&cpu, &disk));
    let a = c.collect(
        cpu,
        disk,
        vec![net("eth0", 160, 205), net("wlan0", 5, 5), net("lo", 15, 12)],
        vec![proc_(2, 25), proc_(3, 1), proc_(1, 40)],
    );
    assert_eq!((a.cpu_idle_ticks, a.cpu_total_ticks), (50, 100));
    assert_eq!(a.disk.read_bytes_per_second, 10 * 512);
    assert_eq!(a.disk.write_bytes_per_second, 0);
    let rates: Vec<(String, u64, u64)> = a
        .network
        .iter()
        .map(|r| (r.name.clone(), r.rx_bytes_per_second, r.tx_bytes_per_second))
        .collect();
    assert_eq!(rates, vec![("eth0".to_string(), 10, 0), ("lo".to_string(), 5, 2)]);
    let procs: Vec<(u32, u64)> = a.processes.iter().map(|p| (p.process.pid, p.cpu_ticks)).collect();
    assert_eq!(procs, vec![(2, 5), (1, 30)]);
}

#[test]
fn unchanged_reading_is_idle() {
    let cpu = CpuSample { total: 500, idle: 300 };
    let disk = DiskSample { read_sectors: 7, write_sectors: 9 };
    let network = vec![net("lo", 1, 2), net("eth0", 3, 4)];
    let processes: Vec<ProcessInfo> = (1..=12).map(|i| proc_(i, i as u64 * 3)).collect();
    let mut c = SnapshotCollector::new(cpu, disk, network.clone(), processes.clone());
    let a = c.collect(cpu, disk, network, processes);
    assert_eq!((a.cpu_idle_ticks, a.cpu_total_ticks), (0, 0));
    assert_eq!((a.disk.read_bytes_per_second, a.disk.write_bytes_per_second), (0, 0));
    assert_eq!(a.network.len(), 2);
    assert!(a.network.iter().all(|r| r.rx_bytes_per_second == 0 && r.tx_bytes_per_second == 0));
    assert_eq!(a.processes.len(), 12);
    assert!(a.processes.iter().all(|p| p.cpu_ticks == 0));
    let shares = vec![0u64; 12];
    let top = busiest_processes(a.processes, shares);
    let pids: Vec<u32> = top.iter().map(|p| p.process.pid).collect();
    assert_eq!(pids, (1..=10).collect::<Vec<u32>>());
}

#[test]
fn busiest_ten_in_stable_order() {
    let before: Vec<ProcessInfo> = (1..=15).map(|i| proc_(i, 0)).collect();
    let after: Vec<ProcessInfo> =
        (1..=15).map(|i| proc_(i, [5, 1, 5, 9, 0, 5, 2, 9, 7, 5, 3, 4, 8, 6, 5][i as usize - 1])).collect();
    let mut c = SnapshotCollector::new(
        CpuSample { total: 0, idle: 0 },
        DiskSample { read_sectors: 0, write_sectors: 0 },
        vec![],
        before,
    );
    let a = c.collect(
        CpuSample { total: 100, idle: 0 },
        DiskSample { read_sectors: 0, write_sectors: 0 },
        vec![],
        after,
    );
    let shares: Vec<u64> = a
        .processes
        .iter()
        .map(|p| (p.cpu_ticks as f64 / a.cpu_total_ticks as f64 * 100.0).to_bits())
        .collect();
    let top = busiest_processes(a.processes, shares);
    let procs: Vec<(u32, u64)> = top.iter().map(|p| (p.process.pid, p.cpu_ticks)).collect();
    assert_eq!(
        procs,
        vec![(4, 9), (8, 9), (13, 8), (9, 7), (14, 6), (1, 5), (3, 5), (6, 5), (10, 5), (15, 5)]
    );
}

#[test]
fn reading_that_goes_back_is_refused() {
    let c = SnapshotCollector::new(
        CpuSample { total: 100, idle: 50 },
        DiskSample { read_sectors: 0, write_sectors: 0 },
        vec![],
        vec![],
    );
    assert!(!c.fits_reading(&CpuSample { total: 90, idle: 50 }, &DiskSample { read_sectors: 0, write_sectors: 0 }));
    assert!(!c.fits_reading(&CpuSample { total: 100, idle: 40 }, &DiskSample { read_sectors: 0, write_sectors: 0 }));
    assert!(!c.fits_reading(
        &CpuSample { total: 100, idle: 50 },
        &DiskSample { read_sectors: u64::MAX, write_sectors: 0 }
    ));
}

#[test]
fn process_ticks() {
    assert_eq!(process_cpu_ticks(&proc_(1, 10), &proc_(1, 25), 100), 15);
    assert_eq!(process_cpu_ticks(&proc_(1, 10), &proc_(1, 25), 0), 0);
    assert_eq!(process_cpu_ticks(&proc_(1, 30), &proc_(1, 25), 100), 0);
}

#[test]
fn equal_shares_keep_reading_order() {
    let mut c = SnapshotCollector::new(
        CpuSample { total: 0, idle: 0 },
        DiskSample { read_sectors: 0, write_sectors: 0 },
        vec![],
        vec![proc_(1, 0), proc_(2, 0), proc_(3, 0)],
    );
    let a = c.collect(
        CpuSample { total: 10, idle: 0 },
        DiskSample { read_sectors: 0, write_sectors: 0 },
        vec![],
        vec![proc_(3, 2), proc_(1, 3), proc_(2, 4)],
    );
    // Different ticks, equal shares: the entries keep the order they came in.
    let top = busiest_processes(a.processes, vec![7, 7, 7]);
    let pids: Vec<u32> = top.iter().map(|p| p.process.pid).collect();
    assert_eq!(pids, vec![3, 1, 2]);
}

#[test]
fn unchanged_counters_are_idle() {
    let cpu = CpuSample { total: 50, idle: 20 };
    let disk = DiskSample { read_sectors: 3, write_sectors: 4 };
    let mut c = SnapshotCollector::new(
        cpu,
        disk,
        vec![net("eth0", 9, 9), net("lo", 1, 1), net("eth0", 5, 6)],
        vec![proc_(1, 10)],
    );
    let a = c.collect(cpu, disk, vec![net("lo", 1, 1), net("eth0", 5, 6)], vec![proc_(1, 99)]);
    let rates: Vec<(String, u64, u64)> = a
        .network
        .iter()
        .map(|r| (r.name.clone(), r.rx_bytes_per_second, r.tx_bytes_per_second))
        .collect();
    assert_eq!(rates, vec![("lo".to_string(), 0, 0), ("eth0".to_string(), 0, 0)]);
    assert_eq!(a.processes.len(), 1);
    assert_eq!(a.processes[0].cpu_ticks, 0);
}

#[test]
fn second_reading_measured_against_first() {
    let mut c = SnapshotCollector::new(
        CpuSample { total: 0, idle: 0 },
        DiskSample { read_sectors: 0, write_sectors: 0 },
        vec![net("eth0", 0, 0)],
        vec![proc_(1, 0)],
    );
    c.collect(
        CpuSample { total: 100, idle: 50 },
        DiskSample { read_sectors: 10, write_sectors: 10 },
        vec![net("eth0", 100, 100)],
        vec![proc_(1, 40)],
    );
    let a = c.collect(
        CpuSample { total: 150, idle: 60 },
        DiskSample { read_sectors: 12, write_sectors: 10 },
        vec![net("eth0", 130, 100)],
        vec![proc_(1, 45)],
    );
    assert_eq!((a.cpu_idle_ticks, a.cpu_total_ticks), (10, 50));
    assert_eq!(a.disk.read_bytes_per_second, 2 * 512);
    assert_eq!(a.network[0].rx_bytes_per_second, 30);
    assert_eq!(a.processes[0].cpu_ticks, 5);
}
