use linuxpulse::insights::{
    assemble_insights, cpu_insight, disk_insight, memory_insight, service_insights, temperature_insight,
};
use linuxpulse::services::ServiceStatus;

#[test]
fn cpu_insight_wording() {
    let insight = cpu_insight("85.0");

    assert_eq!(insight.severity, "warning");
    assert_eq!(insight.title, "High CPU usage");
    assert_eq!(
        insight.message,
        "CPU usage is 85.0%. One or more processes may be causing sustained system load."
    );
}

#[test]
fn memory_insight_wording() {
    let insight = memory_insight("85.0");

    assert_eq!(insight.severity, "warning");
    assert_eq!(insight.title, "High memory usage");
    assert_eq!(
        insight.message,
        "Memory usage is 85.0%. Applications may be consuming most available RAM."
    );
}

#[test]
fn disk_insight_wording() {
    let insight = disk_insight("90.0", "50.0");

    assert_eq!(insight.severity, "warning");
    assert_eq!(insight.title, "Disk space is low");
    assert_eq!(insight.message, "Filesystem usage is 90.0%. Only 50.0 GB is available.");
}

#[test]
fn temperature_insight_wording() {
    let insight = temperature_insight("cpu", "85.0");

    assert_eq!(insight.severity, "critical");
    assert_eq!(insight.title, "High temperature: cpu");
    assert_eq!(insight.message, "cpu is at 85.0°C. Check system load and cooling.");
}

#[test]
fn failed_service_raises_insight() {
    let services = vec![
        ServiceStatus {
            name: "ok.service".to_string(),
            active: true,
            failed: false,
            status: "running".to_string(),
        },
        ServiceStatus {
            name: "example.service".to_string(),
            active: false,
            failed: true,
            status: "failed".to_string(),
        },
    ];

    let insights = service_insights(&services);

    assert_eq!(insights.len(), 1);
    assert_eq!(insights[0].severity, "critical");
    assert_eq!(insights[0].title, "Service failed: example.service");
    assert_eq!(insights[0].message, "example.service is reporting state 'failed'.");
}

#[test]
fn healthy_services_raise_no_insight() {
    let services = vec![ServiceStatus {
        name: "ok.service".to_string(),
        active: true,
        failed: false,
        status: "running".to_string(),
    }];

    assert!(service_insights(&services).is_empty());
    assert!(service_insights(&Vec::new()).is_empty());
}

#[test]
fn insights_come_in_reading_order() {
    let services = vec![
        ServiceStatus {
            name: "a.service".to_string(),
            active: false,
            failed: true,
            status: "failed".to_string(),
        },
        ServiceStatus {
            name: "b.service".to_string(),
            active: true,
            failed: false,
            status: "running".to_string(),
        },
    ];
    let zones = vec![
        ("cpu".to_string(), "91.0".to_string()),
        ("gpu".to_string(), "88.5".to_string()),
    ];
    let insights = assemble_insights(Some("90.2"), None, Some(("95.0", "1.2")), &zones, &services);
    let titles: Vec<&str> = insights.iter().map(|i| i.title.as_str()).collect();
    assert_eq!(
        titles,
        vec![
            "High CPU usage",
            "Disk space is low",
            "High temperature: cpu",
            "High temperature: gpu",
            "Service failed: a.service",
        ]
    );
    assert!(assemble_insights(None, None, None, &Vec::new(), &Vec::new()).is_empty());
    let m = assemble_insights(None, Some("86.0"), None, &Vec::new(), &Vec::new());
    assert_eq!(m.len(), 1);
    assert_eq!(m[0].title, "High memory usage");
}
