//! The sampling state: the previous reading of each counter, and what a new
//! reading adds to it.
use vstd::prelude::*;
use crate::cpu::{cpu_usage_deltas, CpuSample};
use crate::disk::DiskSample;
use crate::network::{sample_view, sample_views, NetworkSample};
use crate::processes::{copy_process, process_view, ProcessInfo, ProcessView};
use crate::ranking::{
    insert_ranked, is_desc, keys_of, lemma_rank_desc, lemma_rank_desc_stable, rank_desc, rank_pos,
    stable_order,
};

verus! {

broadcast use vstd::seq_lib::group_to_multiset_ensures;

/// Sectors moved per sample interval, in bytes.
#[derive(Debug, Clone, Copy, PartialEq, Eq, Structural)]
pub struct DiskRate {
    pub read_bytes_per_second: u64,
    pub write_bytes_per_second: u64,
}

/// Bytes one interface moved since the previous sample.
#[derive(Debug, Clone)]
pub struct NetworkRate {
    pub name: String,
    pub rx_bytes_per_second: u64,
    pub tx_bytes_per_second: u64,
}

/// A process and the CPU ticks it used since the previous sample (zero when
/// none can be measured).
#[derive(Debug, Clone)]
pub struct ProcessActivity {
    pub process: ProcessInfo,
    pub cpu_ticks: u64,
}

/// What one sample adds to the previous one: CPU ticks (idle, and in all),
/// disk throughput, network throughput per interface, and the CPU ticks of
/// each process seen in both samples.
#[derive(Debug, Clone)]
pub struct Activity {
    pub cpu_idle_ticks: u64,
    pub cpu_total_ticks: u64,
    pub disk: DiskRate,
    pub network: Vec<NetworkRate>,
    pub processes: Vec<ProcessActivity>,
}

/// How many of the busiest processes a sample reports.
pub const TOP_PROCESSES: usize = 10;

/// Sector size of the disk counters, in bytes.
pub const SECTOR_BYTES: u64 = 512;

pub open spec fn rate_view(r: NetworkRate) -> (Seq<char>, u64, u64) {
    (r.name@, r.rx_bytes_per_second, r.tx_bytes_per_second)
}

pub open spec fn rate_views(v: Seq<NetworkRate>) -> Seq<(Seq<char>, u64, u64)> {
    v.map_values(|r: NetworkRate| rate_view(r))
}

pub open spec fn activity_view(a: ProcessActivity) -> (ProcessView, u64) {
    (process_view(a.process), a.cpu_ticks)
}

pub open spec fn activity_views(v: Seq<ProcessActivity>) -> Seq<(ProcessView, u64)> {
    v.map_values(|a: ProcessActivity| activity_view(a))
}

pub open spec fn process_views(v: Seq<ProcessInfo>) -> Seq<ProcessView> {
    v.map_values(|p: ProcessInfo| process_view(p))
}

/// `a - b`, or zero when `b` is larger (`u64::saturating_sub`).
pub open spec fn sat_sub(a: u64, b: u64) -> u64 {
    if a >= b {
        (a - b) as u64
    } else {
        0
    }
}

/// The last sample among `prev` for the interface `name`.
pub open spec fn last_by_name(prev: Seq<(Seq<char>, u64, u64)>, name: Seq<char>) -> Option<
    (Seq<char>, u64, u64),
>
    decreases prev.len(),
{
    if prev.len() == 0 {
        None
    } else if prev.last().0 == name {
        Some(prev.last())
    } else {
        last_by_name(prev.drop_last(), name)
    }
}

/// Throughput of each interface of `cur` that `prev` also has, in the order
/// of `cur`: the growth of each counter, never below zero.
pub open spec fn network_rates(
    prev: Seq<(Seq<char>, u64, u64)>,
    cur: Seq<(Seq<char>, u64, u64)>,
) -> Seq<(Seq<char>, u64, u64)>
    decreases cur.len(),
{
    if cur.len() == 0 {
        seq![]
    } else {
        let rest = network_rates(prev, cur.drop_last());
        let c = cur.last();
        match last_by_name(prev, c.0) {
            Some(p) => rest.push((c.0, sat_sub(c.1, p.1), sat_sub(c.2, p.2))),
            None => rest,
        }
    }
}

/// The last record among `prev` with the process ID `pid`.
pub open spec fn last_by_pid(prev: Seq<ProcessView>, pid: u32) -> Option<ProcessView>
    decreases prev.len(),
{
    if prev.len() == 0 {
        None
    } else if prev.last().pid == pid {
        Some(prev.last())
    } else {
        last_by_pid(prev.drop_last(), pid)
    }
}

/// CPU ticks a process used between two samples: none when the system used
/// none or the counter went back.
pub open spec fn process_ticks(previous: u64, current: u64, system_ticks: u64) -> u64 {
    if system_ticks == 0 || current < previous {
        0
    } else {
        (current - previous) as u64
    }
}

/// Each process of `cur` that `prev` also has, in the order of `cur`, with
/// the ticks it used.
pub open spec fn process_matches(
    prev: Seq<ProcessView>,
    cur: Seq<ProcessView>,
    system_ticks: u64,
) -> Seq<(ProcessView, u64)>
    decreases cur.len(),
{
    if cur.len() == 0 {
        seq![]
    } else {
        let rest = process_matches(prev, cur.drop_last(), system_ticks);
        let c = cur.last();
        match last_by_pid(prev, c.pid) {
            Some(p) => rest.push((c, process_ticks(p.cpu_time, c.cpu_time, system_ticks))),
            None => rest,
        }
    }
}

/// Each entry paired with its share key.
pub open spec fn with_shares(
    entries: Seq<(ProcessView, u64)>,
    shares: Seq<u64>,
) -> Seq<((ProcessView, u64), u64)> {
    Seq::new(entries.len(), |i: int| (entries[i], shares[i]))
}

/// The entries with the largest shares, paired with them: ranked by share,
/// largest first, equal shares in the order the entries came in, at most
/// `TOP_PROCESSES` of them.
pub open spec fn top_shares(
    entries: Seq<(ProcessView, u64)>,
    shares: Seq<u64>,
) -> Seq<((ProcessView, u64), u64)> {
    let r = rank_desc(with_shares(entries, shares));
    if r.len() <= TOP_PROCESSES {
        r
    } else {
        r.take(TOP_PROCESSES as int)
    }
}

/// The entries with the largest shares (see `top_shares`).
pub open spec fn busiest(entries: Seq<(ProcessView, u64)>, shares: Seq<u64>) -> Seq<
    (ProcessView, u64),
> {
    top_shares(entries, shares).map_values(|x: ((ProcessView, u64), u64)| x.0)
}

/// The previous readings, as plain values.
pub struct CollectorView {
    pub cpu: CpuSample,
    pub disk: DiskSample,
    pub network: Seq<(Seq<char>, u64, u64)>,
    pub processes: Seq<ProcessView>,
}

/// Keeps the previous reading of each counter so that the next reading can
/// be turned into rates.
pub struct SnapshotCollector {
    previous_cpu: CpuSample,
    previous_disk: DiskSample,
    previous_network: Vec<NetworkSample>,
    previous_processes: Vec<ProcessInfo>,
}

impl View for SnapshotCollector {
    type V = CollectorView;

    closed spec fn view(&self) -> CollectorView {
        CollectorView {
            cpu: self.previous_cpu,
            disk: self.previous_disk,
            network: sample_views(self.previous_network@),
            processes: process_views(self.previous_processes@),
        }
    }
}

/// Whether a new reading may follow the previous one: the CPU counters do
/// not go back, and the disk traffic in bytes fits in 64 bits.
pub open spec fn reading_fits(
    prev: CollectorView,
    cpu: CpuSample,
    disk: DiskSample,
) -> bool {
    &&& prev.cpu.total <= cpu.total
    &&& prev.cpu.idle <= cpu.idle
    &&& sat_sub(disk.read_sectors, prev.disk.read_sectors) * SECTOR_BYTES <= u64::MAX
    &&& sat_sub(disk.write_sectors, prev.disk.write_sectors) * SECTOR_BYTES <= u64::MAX
}

/// What a new reading adds to `prev`, as plain values: CPU idle and total
/// ticks, disk bytes read and written, network rates, and the ticks of each
/// process seen in both.
pub struct ActivityView {
    pub cpu_idle_ticks: u64,
    pub cpu_total_ticks: u64,
    pub disk_read_bytes: u64,
    pub disk_write_bytes: u64,
    pub network: Seq<(Seq<char>, u64, u64)>,
    pub processes: Seq<(ProcessView, u64)>,
}

pub open spec fn activity_of(a: Activity) -> ActivityView {
    ActivityView {
        cpu_idle_ticks: a.cpu_idle_ticks,
        cpu_total_ticks: a.cpu_total_ticks,
        disk_read_bytes: a.disk.read_bytes_per_second,
        disk_write_bytes: a.disk.write_bytes_per_second,
        network: rate_views(a.network@),
        processes: activity_views(a.processes@),
    }
}

/// The state that a reading leaves behind: the reading itself.
pub open spec fn reading_view(
    cpu: CpuSample,
    disk: DiskSample,
    network: Seq<(Seq<char>, u64, u64)>,
    processes: Seq<ProcessView>,
) -> CollectorView {
    CollectorView { cpu, disk, network, processes }
}

/// What `collect` computes from the previous readings and a new reading.
pub open spec fn expected_activity(
    prev: CollectorView,
    cpu: CpuSample,
    disk: DiskSample,
    network: Seq<(Seq<char>, u64, u64)>,
    processes: Seq<ProcessView>,
) -> ActivityView {
    let total_ticks = (cpu.total - prev.cpu.total) as u64;
    ActivityView {
        cpu_idle_ticks: (cpu.idle - prev.cpu.idle) as u64,
        cpu_total_ticks: total_ticks,
        disk_read_bytes: (sat_sub(disk.read_sectors, prev.disk.read_sectors) * SECTOR_BYTES) as u64,
        disk_write_bytes: (sat_sub(disk.write_sectors, prev.disk.write_sectors)
            * SECTOR_BYTES) as u64,
        network: network_rates(prev.network, network),
        processes: process_matches(prev.processes, processes, total_ticks),
    }
}

/// The index of the last sample in `prev` for the interface `name`.
fn find_interface(prev: &Vec<NetworkSample>, name: &String) -> (r: Option<usize>)
    ensures
        match r {
            Some(i) => i < prev@.len() && last_by_name(sample_views(prev@), name@) == Some(
                sample_view(prev@[i as int]),
            ),
            None => last_by_name(sample_views(prev@), name@) is None,
        },
{
    let mut j = prev.len();
    assert(prev@.take(prev@.len() as int) =~= prev@);
    while j > 0
        invariant
            j <= prev@.len(),
            last_by_name(sample_views(prev@), name@) == last_by_name(
                sample_views(prev@.take(j as int)),
                name@,
            ),
        decreases j,
    {
        let ghost t = sample_views(prev@.take(j as int));
        assert(t.drop_last() =~= sample_views(prev@.take(j - 1)));
        assert(t.last() == sample_view(prev@[j - 1]));
        if prev[j - 1].name == *name {
            return Some(j - 1);
        }
        j = j - 1;
    }
    assert(sample_views(prev@.take(0)) =~= Seq::<(Seq<char>, u64, u64)>::empty());
    None
}

/// The throughput of each interface of `cur` that `prev` also has.
fn rates_between(prev: &Vec<NetworkSample>, cur: &Vec<NetworkSample>) -> (out: Vec<NetworkRate>)
    ensures
        rate_views(out@) == network_rates(sample_views(prev@), sample_views(cur@)),
{
    let mut out: Vec<NetworkRate> = Vec::new();
    let mut i: usize = 0;
    assert(sample_views(cur@.take(0)) =~= Seq::<(Seq<char>, u64, u64)>::empty());
    assert(rate_views(out@) =~= Seq::<(Seq<char>, u64, u64)>::empty());
    while i < cur.len()
        invariant
            i <= cur@.len(),
            rate_views(out@) == network_rates(
                sample_views(prev@),
                sample_views(cur@.take(i as int)),
            ),
        decreases cur@.len() - i,
    {
        let ghost c = sample_views(cur@.take(i + 1));
        assert(c.drop_last() =~= sample_views(cur@.take(i as int)));
        assert(c.last() == sample_view(cur@[i as int]));
        let ghost before = out@;
        let current = &cur[i];
        match find_interface(prev, &current.name) {
            Some(k) => {
                let previous = &prev[k];
                out.push(
                    NetworkRate {
                        name: current.name.clone(),
                        rx_bytes_per_second: current.rx_bytes.saturating_sub(previous.rx_bytes),
                        tx_bytes_per_second: current.tx_bytes.saturating_sub(previous.tx_bytes),
                    },
                );
                assert(rate_views(out@) =~= rate_views(before).push(rate_view(out@.last())));
            },
            None => {},
        }
        i = i + 1;
    }
    assert(cur@.take(cur@.len() as int) =~= cur@);
    out
}

/// The index of the last record in `prev` with the process ID `pid`.
fn find_process(prev: &Vec<ProcessInfo>, pid: u32) -> (r: Option<usize>)
    ensures
        match r {
            Some(i) => i < prev@.len() && last_by_pid(process_views(prev@), pid) == Some(
                process_view(prev@[i as int]),
            ),
            None => last_by_pid(process_views(prev@), pid) is None,
        },
{
    let mut j = prev.len();
    assert(prev@.take(prev@.len() as int) =~= prev@);
    while j > 0
        invariant
            j <= prev@.len(),
            last_by_pid(process_views(prev@), pid) == last_by_pid(
                process_views(prev@.take(j as int)),
                pid,
            ),
        decreases j,
    {
        let ghost t = process_views(prev@.take(j as int));
        assert(t.drop_last() =~= process_views(prev@.take(j - 1)));
        assert(t.last() == process_view(prev@[j - 1]));
        if prev[j - 1].pid == pid {
            return Some(j - 1);
        }
        j = j - 1;
    }
    assert(process_views(prev@.take(0)) =~= Seq::<ProcessView>::empty());
    None
}

/// The CPU ticks a process used between two of its records while the
/// system used `system_ticks`: none when the system used none or the
/// process's counter went back. Its CPU share is these ticks over the
/// system's.
pub fn process_cpu_ticks(previous: &ProcessInfo, current: &ProcessInfo, system_ticks: u64) -> (t:
    u64)
    ensures
        t == process_ticks(previous.cpu_time, current.cpu_time, system_ticks),
        system_ticks > 0 && previous.cpu_time <= current.cpu_time ==> t == current.cpu_time
            - previous.cpu_time,
        system_ticks == 0 || current.cpu_time < previous.cpu_time ==> t == 0,
{
    if system_ticks == 0 || current.cpu_time < previous.cpu_time {
        0
    } else {
        current.cpu_time - previous.cpu_time
    }
}

/// Each process of `cur` that `prev` also has, with the ticks it used.
fn match_processes(prev: &Vec<ProcessInfo>, cur: &Vec<ProcessInfo>, system_ticks: u64) -> (out:
    Vec<ProcessActivity>)
    ensures
        activity_views(out@) == process_matches(
            process_views(prev@),
            process_views(cur@),
            system_ticks,
        ),
{
    let mut out: Vec<ProcessActivity> = Vec::new();
    let mut i: usize = 0;
    assert(process_views(cur@.take(0)) =~= Seq::<ProcessView>::empty());
    assert(activity_views(out@) =~= Seq::<(ProcessView, u64)>::empty());
    while i < cur.len()
        invariant
            i <= cur@.len(),
            activity_views(out@) == process_matches(
                process_views(prev@),
                process_views(cur@.take(i as int)),
                system_ticks,
            ),
        decreases cur@.len() - i,
    {
        let ghost c = process_views(cur@.take(i + 1));
        assert(c.drop_last() =~= process_views(cur@.take(i as int)));
        assert(c.last() == process_view(cur@[i as int]));
        let ghost before = out@;
        let current = &cur[i];
        match find_process(prev, current.pid) {
            Some(k) => {
                let ticks = process_cpu_ticks(&prev[k], current, system_ticks);
                out.push(ProcessActivity { process: copy_process(current), cpu_ticks: ticks });
                assert(activity_views(out@) =~= activity_views(before).push(
                    activity_view(out@.last()),
                ));
            },
            None => {},
        }
        i = i + 1;
    }
    assert(cur@.take(cur@.len() as int) =~= cur@);
    out
}

/// A process entry and the key that orders it.
struct Ranked {
    activity: ProcessActivity,
    share: u64,
}

spec fn ranked_view(r: Ranked) -> ((ProcessView, u64), u64) {
    (activity_view(r.activity), r.share)
}

spec fn ranked_views(v: Seq<Ranked>) -> Seq<((ProcessView, u64), u64)> {
    v.map_values(|r: Ranked| ranked_view(r))
}

/// The entries ordered by share, largest first, equal shares in the order
/// they came in.
fn rank_by_share(items: Vec<Ranked>) -> (out: Vec<Ranked>)
    ensures
        ranked_views(out@) == rank_desc(ranked_views(items@)),
{
    let ghost all = ranked_views(items@);
    let mut items = items;
    let mut out: Vec<Ranked> = Vec::new();
    let ghost mut k: int = 0;
    assert(all.take(0) =~= Seq::<((ProcessView, u64), u64)>::empty());
    assert(ranked_views(out@) =~= Seq::<((ProcessView, u64), u64)>::empty());
    assert(ranked_views(items@) =~= all.skip(0));
    while items.len() > 0
        invariant
            0 <= k <= all.len(),
            ranked_views(items@) == all.skip(k),
            ranked_views(out@) == rank_desc(all.take(k)),
        decreases items@.len(),
    {
        let ghost before = ranked_views(out@);
        let ghost old_items = items@;
        assert(ranked_views(old_items).len() == old_items.len());
        assert(ranked_views(old_items)[0] == ranked_view(old_items[0]));
        let x = items.remove(0);
        assert(ranked_view(x) == all[k]);
        assert(ranked_views(items@) =~= all.skip(k + 1)) by {
            assert(items@ =~= old_items.drop_first());
            assert(ranked_views(old_items).drop_first() =~= ranked_views(items@));
        }
        let mut p = out.len();
        assert(before.take(before.len() as int) =~= before);
        while p > 0 && out[p - 1].share < x.share
            invariant
                p <= out@.len(),
                before == ranked_views(out@),
                rank_pos(before, x.share) == rank_pos(before.take(p as int), x.share),
            decreases p,
        {
            assert(before.take(p as int).drop_last() =~= before.take(p - 1));
            p = p - 1;
        }
        proof {
            if p > 0 {
                assert(before.take(p as int).last() == before[p - 1]);
            }
            assert(before.take(p as int).len() == p);
        }
        out.insert(p, x);
        proof {
            assert(all.take(k + 1).drop_last() =~= all.take(k));
            assert(all.take(k + 1).last() == all[k]);
            assert(ranked_views(out@) =~= insert_ranked(before, ranked_view(x)));
            k = k + 1;
        }
    }
    assert(all.take(k) =~= all);
    out
}

/// The busiest processes: `entries` ranked by their share keys `shares`
/// (one per entry, compared as numbers), largest first, equal keys in the
/// order the entries came in, at most `TOP_PROCESSES` of them.
pub fn busiest_processes(entries: Vec<ProcessActivity>, shares: Vec<u64>) -> (out: Vec<
    ProcessActivity,
>)
    requires
        shares@.len() == entries@.len(),
    ensures
        activity_views(out@) == busiest(activity_views(entries@), shares@),
{
    let ghost ev = activity_views(entries@);
    let mut entries = entries;
    let mut items: Vec<Ranked> = Vec::new();
    let mut i: usize = 0;
    let n = shares.len();
    assert(ev.len() == n);
    while entries.len() > 0
        invariant
            n == shares@.len(),
            ev.len() == n,
            i + entries@.len() == n,
            activity_views(entries@) == ev.skip(i as int),
            ranked_views(items@) == with_shares(ev, shares@).take(i as int),
        decreases entries@.len(),
    {
        let ghost old_entries = entries@;
        assert(activity_views(old_entries)[0] == activity_view(old_entries[0]));
        let a = entries.remove(0);
        assert(activity_views(entries@) =~= ev.skip(i + 1)) by {
            assert(entries@ =~= old_entries.drop_first());
            assert(activity_views(old_entries).drop_first() =~= activity_views(entries@));
        }
        let ghost before = items@;
        items.push(Ranked { activity: a, share: shares[i] });
        assert(ranked_views(items@) =~= with_shares(ev, shares@).take(i + 1)) by {
            assert(ranked_views(items@) =~= ranked_views(before).push(ranked_view(items@.last())));
        }
        i = i + 1;
    }
    assert(with_shares(ev, shares@).take(n as int) =~= with_shares(ev, shares@));
    let mut ranked = rank_by_share(items);
    let ghost full = ranked@;
    ranked.truncate(TOP_PROCESSES);
    let ghost top = ranked_views(ranked@);
    proof {
        assert(ranked_views(full).len() == full.len());
        if full.len() > TOP_PROCESSES {
            assert(top =~= ranked_views(full).take(TOP_PROCESSES as int));
        }
        assert(top == top_shares(ev, shares@));
    }
    let mut out: Vec<ProcessActivity> = Vec::new();
    while ranked.len() > 0
        invariant
            out@.len() + ranked@.len() == top.len(),
            ranked_views(ranked@) == top.skip(out@.len() as int),
            activity_views(out@) == top.take(out@.len() as int).map_values(
                |x: ((ProcessView, u64), u64)| x.0,
            ),
        decreases ranked@.len(),
    {
        let ghost old_ranked = ranked@;
        let ghost j = out@.len() as int;
        assert(ranked_views(old_ranked)[0] == ranked_view(old_ranked[0]));
        let r = ranked.remove(0);
        assert(ranked_views(ranked@) =~= top.skip(j + 1)) by {
            assert(ranked@ =~= old_ranked.drop_first());
            assert(ranked_views(old_ranked).drop_first() =~= ranked_views(ranked@));
        }
        let ghost before = out@;
        out.push(r.activity);
        assert(activity_views(out@) =~= top.take(j + 1).map_values(
            |x: ((ProcessView, u64), u64)| x.0,
        )) by {
            assert(activity_views(out@) =~= activity_views(before).push(
                activity_view(out@.last()),
            ));
            assert(top.take(j + 1).map_values(|x: ((ProcessView, u64), u64)| x.0) =~= top.take(
                j,
            ).map_values(|x: ((ProcessView, u64), u64)| x.0).push(top[j].0));
        }
    }
    assert(top.take(top.len() as int) =~= top);
    out
}

impl SnapshotCollector {
    /// A collector whose previous readings are the given ones (the first
    /// reading of each counter).
    pub fn new(
        cpu: CpuSample,
        disk: DiskSample,
        network: Vec<NetworkSample>,
        processes: Vec<ProcessInfo>,
    ) -> (c: SnapshotCollector)
        ensures
            c@.cpu == cpu,
            c@.disk == disk,
            c@.network == sample_views(network@),
            c@.processes == process_views(processes@),
    {
        SnapshotCollector {
            previous_cpu: cpu,
            previous_disk: disk,
            previous_network: network,
            previous_processes: processes,
        }
    }

    /// Whether `collect` accepts this reading after the previous one.
    pub fn fits_reading(&self, cpu: &CpuSample, disk: &DiskSample) -> (b: bool)
        ensures
            b == reading_fits(self@, *cpu, *disk),
    {
        let read = disk.read_sectors.saturating_sub(self.previous_disk.read_sectors);
        let write = disk.write_sectors.saturating_sub(self.previous_disk.write_sectors);
        self.previous_cpu.total <= cpu.total && self.previous_cpu.idle <= cpu.idle && read
            <= u64::MAX / SECTOR_BYTES && write <= u64::MAX / SECTOR_BYTES
    }

    /// Turns a new reading into rates against the previous one, then keeps
    /// the new reading as the previous one. The processes come in the order
    /// of the new reading; `busiest_processes` ranks them.
    pub fn collect(
        &mut self,
        cpu: CpuSample,
        disk: DiskSample,
        network: Vec<NetworkSample>,
        processes: Vec<ProcessInfo>,
    ) -> (a: Activity)
        requires
            reading_fits(old(self)@, cpu, disk),
        ensures
            activity_of(a) == expected_activity(
                old(self)@,
                cpu,
                disk,
                sample_views(network@),
                process_views(processes@),
            ),
            final(self)@ == reading_view(
                cpu,
                disk,
                sample_views(network@),
                process_views(processes@),
            ),
    {
        let (cpu_idle_ticks, cpu_total_ticks) = cpu_usage_deltas(self.previous_cpu, cpu);
        let system_ticks = cpu.total - self.previous_cpu.total;
        let disk_rate = DiskRate {
            read_bytes_per_second: disk.read_sectors.saturating_sub(self.previous_disk.read_sectors)
                * SECTOR_BYTES,
            write_bytes_per_second: disk.write_sectors.saturating_sub(
                self.previous_disk.write_sectors,
            ) * SECTOR_BYTES,
        };
        let rates = rates_between(&self.previous_network, &network);
        let matched = match_processes(&self.previous_processes, &processes, system_ticks);
        self.previous_cpu = cpu;
        self.previous_disk = disk;
        self.previous_network = network;
        self.previous_processes = processes;
        Activity {
            cpu_idle_ticks,
            cpu_total_ticks,
            disk: disk_rate,
            network: rates,
            processes: matched,
        }
    }
}

proof fn lemma_matches_idle(prev: Seq<ProcessView>, cur: Seq<ProcessView>)
    ensures
        forall|i: int|
            0 <= i < process_matches(prev, cur, 0).len() ==> (#[trigger] process_matches(
                prev,
                cur,
                0,
            )[i]).1 == 0,
    decreases cur.len(),
{
    if cur.len() > 0 {
        let t = cur.drop_last();
        lemma_matches_idle(prev, t);
        let m = process_matches(prev, cur, 0);
        assert forall|i: int| 0 <= i < m.len() implies (#[trigger] m[i]).1 == 0 by {
            if i < process_matches(prev, t, 0).len() {
                assert(m[i] == process_matches(prev, t, 0)[i]);
            }
        }
    }
}

/// Whether every process of `cur` has a record with its ID in `prev`.
pub open spec fn all_seen(prev: Seq<ProcessView>, cur: Seq<ProcessView>) -> bool {
    forall|i: int| 0 <= i < cur.len() ==> (#[trigger] last_by_pid(prev, cur[i].pid)) is Some
}

proof fn lemma_all_matched(prev: Seq<ProcessView>, cur: Seq<ProcessView>, sys: u64)
    requires
        all_seen(prev, cur),
    ensures
        process_matches(prev, cur, sys).len() == cur.len(),
    decreases cur.len(),
{
    if cur.len() > 0 {
        let t = cur.drop_last();
        assert forall|i: int| 0 <= i < t.len() implies (#[trigger] last_by_pid(
            prev,
            t[i].pid,
        )) is Some by {
            assert(t[i] == cur[i]);
        }
        lemma_all_matched(prev, t, sys);
        assert(last_by_pid(prev, cur[cur.len() - 1].pid) is Some);
    }
}

/// Every interface of `cur` has counters equal to those of its namesake in
/// `prev` (the last one of that name).
pub open spec fn counters_unchanged(
    prev: Seq<(Seq<char>, u64, u64)>,
    cur: Seq<(Seq<char>, u64, u64)>,
) -> bool {
    forall|i: int|
        0 <= i < cur.len() ==> #[trigger] last_by_name(prev, cur[i].0) == Some(cur[i])
}

proof fn lemma_rates_unchanged(prev: Seq<(Seq<char>, u64, u64)>, cur: Seq<(Seq<char>, u64, u64)>)
    requires
        counters_unchanged(prev, cur),
    ensures
        network_rates(prev, cur).len() == cur.len(),
        forall|i: int|
            0 <= i < cur.len() ==> #[trigger] network_rates(prev, cur)[i] == (cur[i].0, 0u64, 0u64),
    decreases cur.len(),
{
    if cur.len() > 0 {
        let t = cur.drop_last();
        assert forall|i: int| 0 <= i < t.len() implies #[trigger] last_by_name(prev, t[i].0)
            == Some(t[i]) by {
            assert(t[i] == cur[i]);
        }
        lemma_rates_unchanged(prev, t);
        assert(last_by_name(prev, cur[cur.len() - 1].0) == Some(cur[cur.len() - 1]));
        let r = network_rates(prev, cur);
        assert forall|i: int| 0 <= i < cur.len() implies #[trigger] r[i] == (cur[i].0, 0u64, 0u64) by {
            if i < cur.len() - 1 {
                assert(r[i] == network_rates(prev, t)[i]);
                assert(t[i] == cur[i]);
            }
        }
    }
}

/// A reading whose counters all equal the previous ones shows no activity:
/// no CPU ticks, no disk traffic, every interface at zero throughput (each
/// interface of the reading is reported), and every process at zero ticks.
pub proof fn lemma_unchanged_reading_is_idle(
    prev: CollectorView,
    network: Seq<(Seq<char>, u64, u64)>,
    processes: Seq<ProcessView>,
)
    requires
        counters_unchanged(prev.network, network),
    ensures
        ({
            let a = expected_activity(prev, prev.cpu, prev.disk, network, processes);
            &&& a.cpu_idle_ticks == 0
            &&& a.cpu_total_ticks == 0
            &&& a.disk_read_bytes == 0
            &&& a.disk_write_bytes == 0
            &&& a.network.len() == network.len()
            &&& forall|i: int|
                0 <= i < network.len() ==> #[trigger] a.network[i] == (network[i].0, 0u64, 0u64)
            &&& forall|i: int| 0 <= i < a.processes.len() ==> (#[trigger] a.processes[i]).1 == 0
            &&& all_seen(prev.processes, processes) ==> a.processes.len() == processes.len()
        }),
{
    lemma_rates_unchanged(prev.network, network);
    lemma_matches_idle(prev.processes, processes);
    if all_seen(prev.processes, processes) {
        lemma_all_matched(prev.processes, processes, 0);
    }
}

/// Each reading becomes the baseline of the next: once `collect` has taken
/// a reading, what the following reading shows is measured against that
/// reading alone (CPU ticks, disk bytes, network rates, process ticks),
/// whatever came before it.
pub proof fn lemma_reading_becomes_baseline(
    cpu1: CpuSample,
    disk1: DiskSample,
    network1: Seq<(Seq<char>, u64, u64)>,
    processes1: Seq<ProcessView>,
    cpu2: CpuSample,
    disk2: DiskSample,
    network2: Seq<(Seq<char>, u64, u64)>,
    processes2: Seq<ProcessView>,
)
    requires
        reading_fits(reading_view(cpu1, disk1, network1, processes1), cpu2, disk2),
    ensures
        ({
            let a = expected_activity(
                reading_view(cpu1, disk1, network1, processes1),
                cpu2,
                disk2,
                network2,
                processes2,
            );
            &&& a.cpu_idle_ticks == cpu2.idle - cpu1.idle
            &&& a.cpu_total_ticks == cpu2.total - cpu1.total
            &&& a.disk_read_bytes == sat_sub(disk2.read_sectors, disk1.read_sectors) * SECTOR_BYTES
            &&& a.disk_write_bytes == sat_sub(disk2.write_sectors, disk1.write_sectors)
                * SECTOR_BYTES
            &&& a.network == network_rates(network1, network2)
            &&& a.processes == process_matches(
                processes1,
                processes2,
                (cpu2.total - cpu1.total) as u64,
            )
        }),
{
}

/// Throughput is only reported for interfaces present in both readings,
/// and never exceeds the current counter of the interface.
pub proof fn lemma_network_rates_bounded(
    prev: Seq<(Seq<char>, u64, u64)>,
    cur: Seq<(Seq<char>, u64, u64)>,
)
    ensures
        network_rates(prev, cur).len() <= cur.len(),
        forall|i: int|
            0 <= i < network_rates(prev, cur).len() ==> exists|j: int, k: int|
                0 <= j < cur.len() && 0 <= k < prev.len() && cur[j].0 == (
                #[trigger] network_rates(prev, cur)[i]).0 && prev[k].0 == cur[j].0
                    && network_rates(prev, cur)[i].1 <= cur[j].1 && network_rates(prev, cur)[i].2
                    <= cur[j].2,
    decreases cur.len(),
{
    if cur.len() > 0 {
        let t = cur.drop_last();
        lemma_network_rates_bounded(prev, t);
        let r = network_rates(prev, cur);
        let rt = network_rates(prev, t);
        let c = cur.last();
        assert forall|i: int| 0 <= i < r.len() implies exists|j: int, k: int|
            0 <= j < cur.len() && 0 <= k < prev.len() && cur[j].0 == (#[trigger] r[i]).0
                && prev[k].0 == cur[j].0 && r[i].1 <= cur[j].1 && r[i].2 <= cur[j].2 by {
            if i < rt.len() {
                assert(r[i] == rt[i]);
                let (j, k) = choose|j: int, k: int|
                    0 <= j < t.len() && 0 <= k < prev.len() && t[j].0 == (#[trigger] rt[i]).0
                        && prev[k].0 == t[j].0 && rt[i].1 <= t[j].1 && rt[i].2 <= t[j].2;
                assert(cur[j] == t[j]);
            } else {
                let k = lemma_last_by_name_index(prev, c.0);
                assert(cur[cur.len() - 1] == c);
            }
        }
    }
}

proof fn lemma_last_by_name_index(v: Seq<(Seq<char>, u64, u64)>, name: Seq<char>) -> (k: int)
    requires
        last_by_name(v, name) is Some,
    ensures
        0 <= k < v.len(),
        last_by_name(v, name) == Some(v[k]),
        v[k].0 == name,
    decreases v.len(),
{
    if v.last().0 == name {
        v.len() - 1
    } else {
        let k = lemma_last_by_name_index(v.drop_last(), name);
        assert(v.drop_last()[k] == v[k]);
        k
    }
}

/// The busiest processes are ordered by share, largest first; there are as
/// many as entries, up to the limit; each is an entry with its own share; and
/// no entry left out has a larger share than the last one kept.
pub proof fn lemma_top_shares(entries: Seq<(ProcessView, u64)>, shares: Seq<u64>)
    requires
        shares.len() == entries.len(),
    ensures
        ({
            let m = with_shares(entries, shares);
            let top = top_shares(entries, shares);
            &&& is_desc(top)
            &&& top.len() == (if entries.len() <= TOP_PROCESSES {
                entries.len()
            } else {
                TOP_PROCESSES as nat
            })
            &&& forall|i: int| 0 <= i < top.len() ==> m.contains(#[trigger] top[i])
            &&& forall|x: ((ProcessView, u64), u64)|
                #![trigger m.contains(x)]
                m.contains(x) && !top.contains(x) ==> top.len() > 0 && x.1 <= top.last().1
        }),
{
    let m = with_shares(entries, shares);
    lemma_rank_desc(m);
    let r = rank_desc(m);
    let top = top_shares(entries, shares);
    assert forall|i: int| 0 <= i < top.len() implies m.contains(#[trigger] top[i]) by {
        assert(top[i] == r[i]);
        assert(r.contains(r[i]));
        assert(r.to_multiset().count(r[i]) > 0);
    }
    assert forall|x: ((ProcessView, u64), u64)|
        #![trigger m.contains(x)]
        m.contains(x) && !top.contains(x) implies top.len() > 0 && x.1 <= top.last().1 by {
        assert(m.to_multiset().count(x) > 0);
        assert(r.contains(x));
        let j = choose|j: int| 0 <= j < r.len() && r[j] == x;
        if j < top.len() {
            assert(top[j] == x);
        } else {
            assert(top.len() == TOP_PROCESSES);
            assert(top.last() == r[TOP_PROCESSES - 1]);
        }
    }
}

/// The ticks of a process are exactly the growth of its CPU-time counter
/// while the system used any ticks, and zero otherwise.
pub proof fn lemma_process_ticks(previous: u64, current: u64, system_ticks: u64)
    ensures
        system_ticks > 0 && previous <= current ==> process_ticks(previous, current, system_ticks)
            == current - previous,
        system_ticks == 0 || current < previous ==> process_ticks(
            previous,
            current,
            system_ticks,
        ) == 0,
{
}

/// `e` is the process `cur[j]` for some `j`, which has a record with its ID
/// in `prev`, paired with the growth of its CPU time since the last such
/// record while the system used ticks (zero otherwise).
pub open spec fn measured_from(
    prev: Seq<ProcessView>,
    cur: Seq<ProcessView>,
    e: (ProcessView, u64),
    system_ticks: u64,
) -> bool {
    exists|j: int|
        0 <= j < cur.len() && e.0 == #[trigger] cur[j] && last_by_pid(prev, cur[j].pid) is Some
            && e.1 == (if system_ticks > 0 && last_by_pid(prev, cur[j].pid)->0.cpu_time
            <= cur[j].cpu_time {
            cur[j].cpu_time - last_by_pid(prev, cur[j].pid)->0.cpu_time
        } else {
            0
        })
}

/// Each matched process is a process of the new reading that has a record
/// with its ID in the previous one (the last such record is its baseline),
/// and its ticks are the growth of its CPU time since that record while the
/// system used any ticks, zero otherwise.
pub proof fn lemma_match_ticks(prev: Seq<ProcessView>, cur: Seq<ProcessView>, system_ticks: u64)
    ensures
        process_matches(prev, cur, system_ticks).len() <= cur.len(),
        forall|i: int|
            0 <= i < process_matches(prev, cur, system_ticks).len() ==> measured_from(
                prev,
                cur,
                #[trigger] process_matches(prev, cur, system_ticks)[i],
                system_ticks,
            ),
    decreases cur.len(),
{
    if cur.len() > 0 {
        let t = cur.drop_last();
        lemma_match_ticks(prev, t, system_ticks);
        let m = process_matches(prev, cur, system_ticks);
        let mt = process_matches(prev, t, system_ticks);
        assert forall|i: int| 0 <= i < m.len() implies measured_from(
            prev,
            cur,
            #[trigger] m[i],
            system_ticks,
        ) by {
            if i < mt.len() {
                assert(m[i] == mt[i]);
                assert(measured_from(prev, t, mt[i], system_ticks));
                let j = choose|j: int|
                    0 <= j < t.len() && mt[i].0 == #[trigger] t[j] && last_by_pid(prev, t[j].pid)
                        is Some && mt[i].1 == (if system_ticks > 0 && last_by_pid(
                        prev,
                        t[j].pid,
                    )->0.cpu_time <= t[j].cpu_time {
                        t[j].cpu_time - last_by_pid(prev, t[j].pid)->0.cpu_time
                    } else {
                        0
                    });
                assert(cur[j] == t[j]);
            } else {
                let j = cur.len() - 1;
                assert(cur[j] == cur.last());
                assert(last_by_pid(prev, cur[j].pid) is Some);
                let p = last_by_pid(prev, cur[j].pid)->0;
                assert(m[i] == (cur[j], process_ticks(p.cpu_time, cur[j].cpu_time, system_ticks)));
            }
        }
    }
}

/// `ks` gives each entry of `out` a share that never increases along `out`;
/// each is the share of an entry of `entries` with the same process, and
/// every entry whose share exceeds the smallest of `ks` is in `out`.
pub open spec fn ranked_by(
    entries: Seq<(ProcessView, u64)>,
    shares: Seq<u64>,
    out: Seq<(ProcessView, u64)>,
    ks: Seq<u64>,
) -> bool {
    &&& ks.len() == out.len()
    &&& forall|i: int, j: int| 0 <= i < j < ks.len() ==> ks[i] >= ks[j]
    &&& forall|i: int|
        0 <= i < out.len() ==> exists|a: int|
            0 <= a < entries.len() && entries[a] == out[i] && shares[a] == (#[trigger] ks[i])
    &&& forall|a: int|
        0 <= a < entries.len() && ks.len() > 0 && (#[trigger] shares[a]) > ks.last()
            ==> out.contains(entries[a])
}

/// The busiest processes come largest share first, for any number of
/// entries: they can be given shares, each the share of an entry with the
/// same process, that never increase along the result; there are as many as
/// entries up to `TOP_PROCESSES`; and every entry whose share exceeds the
/// smallest share kept is among them.
pub proof fn lemma_busiest_ordered(entries: Seq<(ProcessView, u64)>, shares: Seq<u64>)
    requires
        shares.len() == entries.len(),
    ensures
        busiest(entries, shares).len() == (if entries.len() <= TOP_PROCESSES {
            entries.len()
        } else {
            TOP_PROCESSES as nat
        }),
        exists|ks: Seq<u64>| #[trigger] ranked_by(entries, shares, busiest(entries, shares), ks),
{
    lemma_top_shares(entries, shares);
    let m = with_shares(entries, shares);
    let top = top_shares(entries, shares);
    let out = busiest(entries, shares);
    let ks = top.map_values(|x: ((ProcessView, u64), u64)| x.1);
    assert forall|i: int| 0 <= i < out.len() implies exists|a: int|
        0 <= a < entries.len() && entries[a] == out[i] && shares[a] == (#[trigger] ks[i]) by {
        assert(m.contains(top[i]));
        let a = choose|a: int| 0 <= a < m.len() && m[a] == top[i];
        assert(m[a] == (entries[a], shares[a]));
    }
    assert forall|a: int|
        0 <= a < entries.len() && ks.len() > 0 && (#[trigger] shares[a]) > ks.last() implies out.contains(
        entries[a],
    ) by {
        let x = m[a];
        assert(m.contains(x));
        if !top.contains(x) {
            assert(x.1 <= top.last().1);
        } else {
            let k = choose|k: int| 0 <= k < top.len() && top[k] == x;
            assert(out[k] == entries[a]);
        }
    }
    assert(forall|i: int, j: int| 0 <= i < j < ks.len() ==> ks[i] >= ks[j]) by {
        assert forall|i: int, j: int| 0 <= i < j < ks.len() implies ks[i] >= ks[j] by {
            assert(top[i].1 >= top[j].1);
        }
    }
    assert(ranked_by(entries, shares, out, ks));
}

/// The busiest processes are the first entries, up to `TOP_PROCESSES`, of
/// the stable descending order of the shares, whatever the number of
/// entries: `p` lists every entry once, largest share first, equal shares in
/// the order the entries came in, and the result is the entries at the head
/// of `p`.
pub proof fn lemma_busiest_stable(entries: Seq<(ProcessView, u64)>, shares: Seq<u64>)
    requires
        shares.len() == entries.len(),
    ensures
        exists|p: Seq<int>|
            #[trigger] stable_order(shares, p) && busiest(entries, shares) == p.take(
                if entries.len() <= TOP_PROCESSES {
                    entries.len() as int
                } else {
                    TOP_PROCESSES as int
                },
            ).map_values(|k: int| entries[k]),
{
    let m = with_shares(entries, shares);
    let p = lemma_rank_desc_stable(m);
    assert(keys_of(m) =~= shares);
    let n: int = if entries.len() <= TOP_PROCESSES {
        entries.len() as int
    } else {
        TOP_PROCESSES as int
    };
    let r = rank_desc(m);
    let top = top_shares(entries, shares);
    let out = busiest(entries, shares);
    assert(top =~= r.take(n));
    assert forall|i: int| 0 <= i < n implies #[trigger] out[i] == entries[p[i]] by {
        assert(out[i] == top[i].0);
        assert(top[i] == r[i]);
        assert(r[i] == m[p[i]]);
    }
    assert(out =~= p.take(n).map_values(|k: int| entries[k]));
}

/// `idx` lists, in increasing order, the positions in `cur` of the
/// processes that have a record with their ID in `prev`; `m` holds exactly
/// those processes in that order, each with the growth of its CPU time since
/// the last such record while the system used ticks (zero otherwise).
pub open spec fn matches_at(
    prev: Seq<ProcessView>,
    cur: Seq<ProcessView>,
    system_ticks: u64,
    m: Seq<(ProcessView, u64)>,
    idx: Seq<int>,
) -> bool {
    &&& idx.len() == m.len()
    &&& forall|i: int, k: int| 0 <= i < k < idx.len() ==> idx[i] < idx[k]
    &&& forall|i: int|
        0 <= i < idx.len() ==> {
            let j = #[trigger] idx[i];
            &&& 0 <= j < cur.len()
            &&& last_by_pid(prev, cur[j].pid) is Some
            &&& m[i].0 == cur[j]
            &&& m[i].1 == (if system_ticks > 0 && last_by_pid(prev, cur[j].pid)->0.cpu_time
                <= cur[j].cpu_time {
                cur[j].cpu_time - last_by_pid(prev, cur[j].pid)->0.cpu_time
            } else {
                0
            })
        }
    &&& forall|j: int|
        0 <= j < cur.len() && (#[trigger] last_by_pid(prev, cur[j].pid)) is Some ==> exists|i: int|
            0 <= i < idx.len() && idx[i] == j
}

/// The matched processes are exactly the processes of the new reading that
/// have a record with their ID in the previous one, in the order of the new
/// reading, each with the growth of its CPU time since the last such record
/// while the system used ticks (zero otherwise).
pub proof fn lemma_matches_in_order(prev: Seq<ProcessView>, cur: Seq<ProcessView>, system_ticks: u64)
    ensures
        exists|idx: Seq<int>|
            #[trigger] matches_at(prev, cur, system_ticks, process_matches(prev, cur, system_ticks), idx),
    decreases cur.len(),
{
    let m = process_matches(prev, cur, system_ticks);
    if cur.len() == 0 {
        assert(matches_at(prev, cur, system_ticks, m, Seq::<int>::empty()));
    } else {
        let t = cur.drop_last();
        lemma_matches_in_order(prev, t, system_ticks);
        let mt = process_matches(prev, t, system_ticks);
        let idt = choose|idx: Seq<int>| #[trigger] matches_at(prev, t, system_ticks, mt, idx);
        let n = cur.len() - 1;
        assert forall|j: int| 0 <= j < t.len() implies #[trigger] cur[j] == t[j] by {}
        if last_by_pid(prev, cur[n].pid) is Some {
            let idx = idt.push(n);
            assert forall|j: int|
                0 <= j < cur.len() && (#[trigger] last_by_pid(prev, cur[j].pid)) is Some implies exists|i: int|
                0 <= i < idx.len() && idx[i] == j by {
                if j < n {
                    assert(t[j] == cur[j]);
                    assert(last_by_pid(prev, t[j].pid) is Some);
                    let i = choose|i: int| 0 <= i < idt.len() && idt[i] == j;
                    assert(idx[i] == j);
                } else {
                    assert(idx[idt.len() as int] == n);
                }
            }
            assert forall|i: int| 0 <= i < idx.len() implies {
                let j = #[trigger] idx[i];
                &&& 0 <= j < cur.len()
                &&& last_by_pid(prev, cur[j].pid) is Some
                &&& m[i].0 == cur[j]
                &&& m[i].1 == (if system_ticks > 0 && last_by_pid(prev, cur[j].pid)->0.cpu_time
                    <= cur[j].cpu_time {
                    cur[j].cpu_time - last_by_pid(prev, cur[j].pid)->0.cpu_time
                } else {
                    0
                })
            } by {
                if i < idt.len() {
                    assert(idx[i] == idt[i]);
                    assert(m[i] == mt[i]);
                    assert(t[idt[i]] == cur[idt[i]]);
                } else {
                    assert(idx[i] == n);
                }
            }
            assert forall|i: int, k: int| 0 <= i < k < idx.len() implies idx[i] < idx[k] by {
                if k == idt.len() {
                    assert(0 <= idt[i] < t.len());
                }
            }
            assert(matches_at(prev, cur, system_ticks, m, idx));
        } else {
            assert(m == mt);
            assert forall|j: int|
                0 <= j < cur.len() && (#[trigger] last_by_pid(prev, cur[j].pid)) is Some implies exists|i: int|
                0 <= i < idt.len() && idt[i] == j by {
                assert(j < n);
                assert(t[j] == cur[j]);
                assert(last_by_pid(prev, t[j].pid) is Some);
            }
            assert forall|i: int| 0 <= i < idt.len() implies {
                let j = #[trigger] idt[i];
                &&& 0 <= j < cur.len()
                &&& last_by_pid(prev, cur[j].pid) is Some
                &&& m[i].0 == cur[j]
                &&& m[i].1 == (if system_ticks > 0 && last_by_pid(prev, cur[j].pid)->0.cpu_time
                    <= cur[j].cpu_time {
                    cur[j].cpu_time - last_by_pid(prev, cur[j].pid)->0.cpu_time
                } else {
                    0
                })
            } by {
                assert(t[idt[i]] == cur[idt[i]]);
            }
            assert(matches_at(prev, cur, system_ticks, m, idt));
        }
    }
}

/// Interface `j` of `cur` measured against its last namesake in `prev`.
pub open spec fn rate_of(
    prev: Seq<(Seq<char>, u64, u64)>,
    c: (Seq<char>, u64, u64),
) -> (Seq<char>, u64, u64) {
    let p = last_by_name(prev, c.0)->0;
    (
        c.0,
        (if p.1 <= c.1 {
            c.1 - p.1
        } else {
            0
        }) as u64,
        (if p.2 <= c.2 {
            c.2 - p.2
        } else {
            0
        }) as u64,
    )
}

/// `idx` lists, in increasing order, the positions in `cur` of the
/// interfaces that have a namesake in `prev`; `m` holds exactly those
/// interfaces in that order, each measured by `rate_of`.
pub open spec fn rates_at(
    prev: Seq<(Seq<char>, u64, u64)>,
    cur: Seq<(Seq<char>, u64, u64)>,
    m: Seq<(Seq<char>, u64, u64)>,
    idx: Seq<int>,
) -> bool {
    &&& idx.len() == m.len()
    &&& forall|i: int, k: int| 0 <= i < k < idx.len() ==> idx[i] < idx[k]
    &&& forall|i: int|
        0 <= i < idx.len() ==> {
            let j = #[trigger] idx[i];
            &&& 0 <= j < cur.len()
            &&& last_by_name(prev, cur[j].0) is Some
            &&& m[i] == rate_of(prev, cur[j])
        }
    &&& forall|j: int|
        0 <= j < cur.len() && (#[trigger] last_by_name(prev, cur[j].0)) is Some ==> exists|
            i: int,
        | 0 <= i < idx.len() && idx[i] == j
}

/// Throughput is reported for exactly the interfaces of the new reading that
/// have a namesake in the previous one, in the order of the new reading, each
/// with the growth of its counters since the last namesake (zero where a
/// counter went back).
pub proof fn lemma_rates_in_order(prev: Seq<(Seq<char>, u64, u64)>, cur: Seq<(Seq<char>, u64, u64)>)
    ensures
        exists|idx: Seq<int>| #[trigger] rates_at(prev, cur, network_rates(prev, cur), idx),
    decreases cur.len(),
{
    let m = network_rates(prev, cur);
    if cur.len() == 0 {
        assert(rates_at(prev, cur, m, Seq::<int>::empty()));
    } else {
        let t = cur.drop_last();
        lemma_rates_in_order(prev, t);
        let mt = network_rates(prev, t);
        let idt = choose|idx: Seq<int>| #[trigger] rates_at(prev, t, mt, idx);
        let n = cur.len() - 1;
        assert forall|j: int| 0 <= j < t.len() implies #[trigger] cur[j] == t[j] by {}
        if last_by_name(prev, cur[n].0) is Some {
            let idx = idt.push(n);
            assert forall|j: int|
                0 <= j < cur.len() && (#[trigger] last_by_name(prev, cur[j].0)) is Some implies exists|
                i: int,
            | 0 <= i < idx.len() && idx[i] == j by {
                if j < n {
                    assert(t[j] == cur[j]);
                    assert(last_by_name(prev, t[j].0) is Some);
                    let i = choose|i: int| 0 <= i < idt.len() && idt[i] == j;
                    assert(idx[i] == j);
                } else {
                    assert(idx[idt.len() as int] == n);
                }
            }
            assert forall|i: int| 0 <= i < idx.len() implies {
                let j = #[trigger] idx[i];
                &&& 0 <= j < cur.len()
                &&& last_by_name(prev, cur[j].0) is Some
                &&& m[i] == rate_of(prev, cur[j])
            } by {
                if i < idt.len() {
                    assert(idx[i] == idt[i]);
                    assert(m[i] == mt[i]);
                    assert(t[idt[i]] == cur[idt[i]]);
                } else {
                    assert(idx[i] == n);
                    assert(cur[n] == cur.last());
                }
            }
            assert forall|i: int, k: int| 0 <= i < k < idx.len() implies idx[i] < idx[k] by {
                if k == idt.len() {
                    assert(0 <= idt[i] < t.len());
                }
            }
            assert(rates_at(prev, cur, m, idx));
        } else {
            assert(m == mt);
            assert forall|j: int|
                0 <= j < cur.len() && (#[trigger] last_by_name(prev, cur[j].0)) is Some implies exists|
                i: int,
            | 0 <= i < idt.len() && idt[i] == j by {
                assert(j < n);
                assert(t[j] == cur[j]);
                assert(last_by_name(prev, t[j].0) is Some);
            }
            assert forall|i: int| 0 <= i < idt.len() implies {
                let j = #[trigger] idt[i];
                &&& 0 <= j < cur.len()
                &&& last_by_name(prev, cur[j].0) is Some
                &&& m[i] == rate_of(prev, cur[j])
            } by {
                assert(t[idt[i]] == cur[idt[i]]);
            }
            assert(rates_at(prev, cur, m, idt));
        }
    }
}

} // verus!
