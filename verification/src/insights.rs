//! The insight rules: what the monitor tells the user about a reading.
//!
//! Which readings cross a threshold is decided on floating-point figures by
//! the caller; this module fixes the wording, the severity and, for
//! services, the rule itself.
use vstd::prelude::*;
use vstd::string::StringExecFns;
use crate::services::ServiceStatus;
use crate::strings::{concat2, concat3};

verus! {

/// One finding about the system.
#[derive(Debug, Clone)]
pub struct Insight {
    pub severity: String,
    pub title: String,
    pub message: String,
}

/// An insight as plain text: severity, title, message.
pub open spec fn insight_view(i: Insight) -> (Seq<char>, Seq<char>, Seq<char>) {
    (i.severity@, i.title@, i.message@)
}

pub open spec fn insight_views(v: Seq<Insight>) -> Seq<(Seq<char>, Seq<char>, Seq<char>)> {
    v.map_values(|i: Insight| insight_view(i))
}

/// The insight about high CPU usage shown as `usage`.
pub open spec fn cpu_alert(usage: Seq<char>) -> (Seq<char>, Seq<char>, Seq<char>) {
    (
        "warning"@,
        "High CPU usage"@,
        "CPU usage is "@ + usage + "%. One or more processes may be causing sustained system load."@,
    )
}

/// The insight about high memory usage shown as `usage`.
pub open spec fn memory_alert(usage: Seq<char>) -> (Seq<char>, Seq<char>, Seq<char>) {
    (
        "warning"@,
        "High memory usage"@,
        "Memory usage is "@ + usage + "%. Applications may be consuming most available RAM."@,
    )
}

/// The insight about little free disk space.
pub open spec fn disk_alert(usage: Seq<char>, available_gib: Seq<char>) -> (
    Seq<char>,
    Seq<char>,
    Seq<char>,
) {
    (
        "warning"@,
        "Disk space is low"@,
        "Filesystem usage is "@ + usage + "%. Only "@ + available_gib + " GB is available."@,
    )
}

/// The insight about a hot thermal zone.
pub open spec fn temperature_alert(zone: Seq<char>, temperature: Seq<char>) -> (
    Seq<char>,
    Seq<char>,
    Seq<char>,
) {
    (
        "critical"@,
        "High temperature: "@ + zone,
        zone + " is at "@ + temperature + "\u{b0}C. Check system load and cooling."@,
    )
}

/// High CPU usage; `usage` is the usage percentage as shown (one decimal).
pub fn cpu_insight(usage: &str) -> (i: Insight)
    ensures
        insight_view(i) == cpu_alert(usage@),
{
    Insight {
        severity: String::from_str("warning"),
        title: String::from_str("High CPU usage"),
        message: concat3(
            "CPU usage is ",
            usage,
            "%. One or more processes may be causing sustained system load.",
        ),
    }
}

/// High memory usage; `usage` is the usage percentage as shown.
pub fn memory_insight(usage: &str) -> (i: Insight)
    ensures
        insight_view(i) == memory_alert(usage@),
{
    Insight {
        severity: String::from_str("warning"),
        title: String::from_str("High memory usage"),
        message: concat3(
            "Memory usage is ",
            usage,
            "%. Applications may be consuming most available RAM.",
        ),
    }
}

/// Little free disk space; `usage` is the filesystem usage percentage and
/// `available_gib` the available space in GiB, both as shown.
pub fn disk_insight(usage: &str, available_gib: &str) -> (i: Insight)
    ensures
        insight_view(i) == disk_alert(usage@, available_gib@),
{
    let mut message = concat3("Filesystem usage is ", usage, "%. Only ");
    message.append(available_gib);
    message.append(" GB is available.");
    Insight {
        severity: String::from_str("warning"),
        title: String::from_str("Disk space is low"),
        message,
    }
}

/// A hot thermal zone; `temperature` is its temperature in degrees Celsius
/// as shown.
pub fn temperature_insight(zone: &str, temperature: &str) -> (i: Insight)
    ensures
        insight_view(i) == temperature_alert(zone@, temperature@),
{
    let mut message = concat3(zone, " is at ", temperature);
    message.append("\u{b0}C. Check system load and cooling.");
    Insight {
        severity: String::from_str("critical"),
        title: concat2("High temperature: ", zone),
        message,
    }
}

/// The insight a failed service gives.
pub open spec fn service_alert(name: Seq<char>, status: Seq<char>) -> (
    Seq<char>,
    Seq<char>,
    Seq<char>,
) {
    (
        "critical"@,
        "Service failed: "@ + name,
        name + " is reporting state '"@ + status + "'."@,
    )
}

/// The insight about a service: one exactly when it has failed.
pub fn service_insight(service: &ServiceStatus) -> (r: Option<Insight>)
    ensures
        r is Some <==> service.failed,
        r matches Some(i) ==> insight_view(i) == service_alert(service.name@, service.status@),
{
    if !service.failed {
        return None;
    }
    let mut message = concat3(service.name.as_str(), " is reporting state '", service.status.as_str());
    message.append("'.");
    Some(
        Insight {
            severity: String::from_str("critical"),
            title: concat2("Service failed: ", service.name.as_str()),
            message,
        },
    )
}

/// The insights about the services of `services` that have failed, in order.
pub open spec fn service_alerts(services: Seq<ServiceStatus>) -> Seq<
    (Seq<char>, Seq<char>, Seq<char>),
>
    decreases services.len(),
{
    if services.len() == 0 {
        seq![]
    } else {
        let rest = service_alerts(services.drop_last());
        let s = services.last();
        if s.failed {
            rest.push(service_alert(s.name@, s.status@))
        } else {
            rest
        }
    }
}

/// One insight for each failed service, in the order of `services`.
pub fn service_insights(services: &Vec<ServiceStatus>) -> (out: Vec<Insight>)
    ensures
        insight_views(out@) == service_alerts(services@),
{
    let mut out: Vec<Insight> = Vec::new();
    let mut i: usize = 0;
    assert(services@.take(0) =~= Seq::<ServiceStatus>::empty());
    assert(insight_views(out@) =~= Seq::<(Seq<char>, Seq<char>, Seq<char>)>::empty());
    while i < services.len()
        invariant
            i <= services@.len(),
            insight_views(out@) == service_alerts(services@.take(i as int)),
        decreases services@.len() - i,
    {
        assert(services@.take(i + 1).drop_last() =~= services@.take(i as int));
        assert(services@.take(i + 1).last() == services@[i as int]);
        let ghost before = out@;
        match service_insight(&services[i]) {
            Some(insight) => {
                out.push(insight);
                assert(insight_views(out@) =~= insight_views(before).push(
                    insight_view(out@.last()),
                ));
            },
            None => {},
        }
        i = i + 1;
    }
    assert(services@.take(services@.len() as int) =~= services@);
    out
}

/// How many services of `services` have failed.
pub open spec fn failed_count(services: Seq<ServiceStatus>) -> nat
    decreases services.len(),
{
    if services.len() == 0 {
        0
    } else {
        failed_count(services.drop_last()) + (if services.last().failed {
            1nat
        } else {
            0nat
        })
    }
}

/// Services raise exactly one insight per failed service, each of them
/// critical; with no failed service there is none.
pub proof fn lemma_service_alerts(services: Seq<ServiceStatus>)
    ensures
        service_alerts(services).len() == failed_count(services),
        failed_count(services) <= services.len(),
        (forall|i: int| 0 <= i < services.len() ==> !(#[trigger] services[i]).failed)
            ==> service_alerts(services).len() == 0,
        forall|i: int|
            0 <= i < service_alerts(services).len() ==> (#[trigger] service_alerts(
                services,
            )[i]).0 == "critical"@,
    decreases services.len(),
{
    if services.len() > 0 {
        let t = services.drop_last();
        lemma_service_alerts(t);
        if forall|i: int| 0 <= i < services.len() ==> !(#[trigger] services[i]).failed {
            assert forall|i: int| 0 <= i < t.len() implies !(#[trigger] t[i]).failed by {
                assert(t[i] == services[i]);
            }
            assert(!services[services.len() - 1].failed);
        }
        let a = service_alerts(services);
        assert forall|i: int| 0 <= i < a.len() implies (#[trigger] a[i]).0 == "critical"@ by {
            if i < service_alerts(t).len() {
                assert(a[i] == service_alerts(t)[i]);
            }
        }
    }
}

/// `idx` lists, in increasing order, exactly the positions of the failed
/// services of `services`.
pub open spec fn failed_positions(services: Seq<ServiceStatus>, idx: Seq<int>) -> bool {
    &&& forall|i: int, k: int| 0 <= i < k < idx.len() ==> idx[i] < idx[k]
    &&& forall|i: int|
        0 <= i < idx.len() ==> 0 <= #[trigger] idx[i] < services.len() && services[idx[i]].failed
    &&& forall|j: int|
        0 <= j < services.len() && (#[trigger] services[j]).failed ==> exists|i: int|
            0 <= i < idx.len() && idx[i] == j
}

/// The insights of the failed services, one for each, in the order of the
/// services, each naming the service and its state.
pub open spec fn alerts_at(services: Seq<ServiceStatus>, idx: Seq<int>) -> Seq<
    (Seq<char>, Seq<char>, Seq<char>),
> {
    idx.map_values(|j: int| service_alert(services[j].name@, services[j].status@))
}

/// Each failed service raises one insight, and no other service raises any:
/// the insights name the failed services with their states, in order.
pub proof fn lemma_service_alerts_in_order(services: Seq<ServiceStatus>)
    ensures
        exists|idx: Seq<int>|
            #[trigger] failed_positions(services, idx) && service_alerts(services) == alerts_at(
                services,
                idx,
            ),
    decreases services.len(),
{
    if services.len() == 0 {
        let idx = Seq::<int>::empty();
        assert(service_alerts(services) =~= alerts_at(services, idx));
        assert(failed_positions(services, idx));
    } else {
        let t = services.drop_last();
        let n = t.len() as int;
        lemma_service_alerts_in_order(t);
        let it = choose|idx: Seq<int>|
            #[trigger] failed_positions(t, idx) && service_alerts(t) == alerts_at(t, idx);
        assert forall|j: int| 0 <= j < n implies #[trigger] t[j] == services[j] by {}
        let idx = if services[n].failed {
            it.push(n)
        } else {
            it
        };
        assert forall|i: int| 0 <= i < idx.len() implies 0 <= #[trigger] idx[i] < services.len()
            && services[idx[i]].failed by {
            if i < it.len() {
                assert(idx[i] == it[i] && t[it[i]] == services[it[i]]);
            }
        }
        assert forall|j: int|
            0 <= j < services.len() && (#[trigger] services[j]).failed implies exists|i: int|
            0 <= i < idx.len() && idx[i] == j by {
            if j < n {
                assert(t[j].failed);
                let i = choose|i: int| 0 <= i < it.len() && it[i] == j;
                assert(idx[i] == j);
            } else {
                assert(idx[it.len() as int] == n);
            }
        }
        assert forall|i: int, k: int| 0 <= i < k < idx.len() implies idx[i] < idx[k] by {
            if k < it.len() {
                assert(idx[i] == it[i] && idx[k] == it[k]);
            } else {
                assert(idx[i] == it[i] && 0 <= it[i] < n);
            }
        }
        assert(failed_positions(services, idx));
        let ft = alerts_at(t, it);
        assert forall|i: int| 0 <= i < it.len() implies #[trigger] ft[i] == alerts_at(
            services,
            idx,
        )[i] by {
            assert(idx[i] == it[i]);
            assert(t[it[i]] == services[it[i]]);
        }
        assert(service_alerts(services) =~= alerts_at(services, idx));
    }
}

/// An optional text as plain values.
pub open spec fn opt_view(t: Option<&str>) -> Option<Seq<char>> {
    match t {
        Some(x) => Some(x@),
        None => None,
    }
}

/// The one insight of an optional finding, or none.
pub open spec fn opt_alert(a: Option<(Seq<char>, Seq<char>, Seq<char>)>) -> Seq<
    (Seq<char>, Seq<char>, Seq<char>),
> {
    match a {
        Some(x) => seq![x],
        None => seq![],
    }
}

/// The insights of a reading, in the order the monitor reports them: high
/// CPU usage, high memory usage, little disk space, each hot zone in order,
/// then each failed service in order. `cpu_usage`, `memory_usage` and
/// `disk` hold the shown figures of the readings that crossed their
/// threshold; `hot_zones` holds the name and shown temperature of each zone
/// that did.
pub open spec fn reading_alerts(
    cpu_usage: Option<Seq<char>>,
    memory_usage: Option<Seq<char>>,
    disk: Option<(Seq<char>, Seq<char>)>,
    hot_zones: Seq<(Seq<char>, Seq<char>)>,
    services: Seq<ServiceStatus>,
) -> Seq<(Seq<char>, Seq<char>, Seq<char>)> {
    opt_alert(
        match cpu_usage {
            Some(u) => Some(cpu_alert(u)),
            None => None,
        },
    ) + opt_alert(
        match memory_usage {
            Some(u) => Some(memory_alert(u)),
            None => None,
        },
    ) + opt_alert(
        match disk {
            Some((u, g)) => Some(disk_alert(u, g)),
            None => None,
        },
    ) + hot_zones.map_values(
        |z: (Seq<char>, Seq<char>)| temperature_alert(z.0, z.1),
    ) + service_alerts(services)
}

/// The insights of a reading (see `reading_alerts`).
pub fn assemble_insights(
    cpu_usage: Option<&str>,
    memory_usage: Option<&str>,
    disk: Option<(&str, &str)>,
    hot_zones: &Vec<(String, String)>,
    services: &Vec<ServiceStatus>,
) -> (out: Vec<Insight>)
    ensures
        insight_views(out@) == reading_alerts(
            opt_view(cpu_usage),
            opt_view(memory_usage),
            match disk {
                Some((u, g)) => Some((u@, g@)),
                None => None,
            },
            hot_zones@.map_values(|z: (String, String)| (z.0@, z.1@)),
            services@,
        ),
{
    let mut out: Vec<Insight> = Vec::new();
    let ghost mut expected: Seq<(Seq<char>, Seq<char>, Seq<char>)> = seq![];
    match cpu_usage {
        Some(u) => {
            out.push(cpu_insight(u));
            proof {
                expected = seq![cpu_alert(u@)];
            }
        },
        None => {},
    }
    assert(insight_views(out@) =~= expected);
    match memory_usage {
        Some(u) => {
            out.push(memory_insight(u));
            proof {
                expected = expected.push(memory_alert(u@));
            }
        },
        None => {},
    }
    assert(insight_views(out@) =~= expected);
    match disk {
        Some((u, g)) => {
            out.push(disk_insight(u, g));
            proof {
                expected = expected.push(disk_alert(u@, g@));
            }
        },
        None => {},
    }
    assert(insight_views(out@) =~= expected);
    let ghost head = expected;
    let ghost zones = hot_zones@.map_values(|z: (String, String)| (z.0@, z.1@));
    let mut i: usize = 0;
    while i < hot_zones.len()
        invariant
            i <= hot_zones@.len(),
            zones == hot_zones@.map_values(|z: (String, String)| (z.0@, z.1@)),
            insight_views(out@) == head + zones.take(i as int).map_values(
                |z: (Seq<char>, Seq<char>)| temperature_alert(z.0, z.1),
            ),
        decreases hot_zones@.len() - i,
    {
        let ghost before = out@;
        let insight = temperature_insight(hot_zones[i].0.as_str(), hot_zones[i].1.as_str());
        out.push(insight);
        assert(insight_views(out@) =~= insight_views(before).push(insight_view(insight)));
        assert(zones.take(i + 1).map_values(
            |z: (Seq<char>, Seq<char>)| temperature_alert(z.0, z.1),
        ) =~= zones.take(i as int).map_values(
            |z: (Seq<char>, Seq<char>)| temperature_alert(z.0, z.1),
        ).push(temperature_alert(zones[i as int].0, zones[i as int].1)));
        i = i + 1;
    }
    assert(zones.take(zones.len() as int) =~= zones);
    let ghost mid = out@;
    let mut alerts = service_insights(services);
    out.append(&mut alerts);
    assert(insight_views(out@) =~= insight_views(mid) + service_alerts(services@));
    out
}

/// How many of the optional figures are given.
pub open spec fn given<T>(x: Option<T>) -> nat {
    if x is Some {
        1
    } else {
        0
    }
}

/// Each finding of a reading raises its own insight, independently of the
/// others, in a fixed order: a CPU figure gives the CPU insight first, a
/// memory figure the memory insight next, a disk figure the disk insight
/// next, then one temperature insight per hot zone in order, then one
/// critical insight per failed service, naming it and its state, in the
/// order of the services; nothing else is reported.
pub proof fn lemma_reading_alerts(
    cpu_usage: Option<Seq<char>>,
    memory_usage: Option<Seq<char>>,
    disk: Option<(Seq<char>, Seq<char>)>,
    hot_zones: Seq<(Seq<char>, Seq<char>)>,
    services: Seq<ServiceStatus>,
)
    ensures
        ({
            let r = reading_alerts(cpu_usage, memory_usage, disk, hot_zones, services);
            let c = given(cpu_usage);
            let m = given(memory_usage);
            let k = c + m + given(disk);
            &&& r.len() == k + hot_zones.len() + failed_count(services)
            &&& cpu_usage matches Some(u) ==> r[0] == cpu_alert(u)
            &&& memory_usage matches Some(u) ==> r[c as int] == memory_alert(u)
            &&& disk matches Some((u, g)) ==> r[(c + m) as int] == disk_alert(u, g)
            &&& forall|i: int|
                0 <= i < hot_zones.len() ==> r[k + i] == temperature_alert(
                    (#[trigger] hot_zones[i]).0,
                    hot_zones[i].1,
                )
            &&& forall|i: int|
                0 <= i < failed_count(services) ==> (#[trigger] r[k + hot_zones.len() + i]).0
                    == "critical"@
            &&& exists|idx: Seq<int>|
                #[trigger] failed_positions(services, idx) && r.skip((k + hot_zones.len()) as int)
                    == alerts_at(services, idx)
        }),
{
    lemma_service_alerts(services);
    lemma_service_alerts_in_order(services);
    let r = reading_alerts(cpu_usage, memory_usage, disk, hot_zones, services);
    let a = opt_alert(
        match cpu_usage {
            Some(u) => Some(cpu_alert(u)),
            None => None,
        },
    );
    let b = opt_alert(
        match memory_usage {
            Some(u) => Some(memory_alert(u)),
            None => None,
        },
    );
    let d = opt_alert(
        match disk {
            Some((u, g)) => Some(disk_alert(u, g)),
            None => None,
        },
    );
    let z = hot_zones.map_values(|z: (Seq<char>, Seq<char>)| temperature_alert(z.0, z.1));
    let sa = service_alerts(services);
    assert(r == a + b + d + z + sa);
    let k = a.len() + b.len() + d.len();
    assert forall|i: int| 0 <= i < hot_zones.len() implies r[k + i] == temperature_alert(
        (#[trigger] hot_zones[i]).0,
        hot_zones[i].1,
    ) by {
        assert(r[k + i] == z[i]);
    }
    assert forall|i: int| 0 <= i < failed_count(services) implies (#[trigger] r[k + hot_zones.len()
        + i]).0 == "critical"@ by {
        assert(r[k + hot_zones.len() + i] == sa[i]);
    }
    let idx = choose|idx: Seq<int>|
        #[trigger] failed_positions(services, idx) && sa == alerts_at(services, idx);
    assert(r.skip((k + hot_zones.len()) as int) =~= sa);
    assert(failed_positions(services, idx));
}

} // verus!
