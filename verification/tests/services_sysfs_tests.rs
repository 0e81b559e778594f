use linuxpulse::gpu::parse_sysfs_u64;
use linuxpulse::services::{monitored_services, service_status_from_show, service_status_from_text};
use linuxpulse::temperature::{is_thermal_zone, thermal_zone_name};

#[test]
fn reads_valid_service_statuses() {
    let outputs: [&[u8]; 4] = [
        b"LoadState=loaded\nActiveState=active\nSubState=running\n",
        b"LoadState=loaded\nActiveState=inactive\nSubState=dead\n",
        b"LoadState=not-found\nActiveState=inactive\nSubState=dead\n",
        b"LoadState=loaded\nActiveState=failed\nSubState=failed\n",
    ];
    let services: Vec<_> = monitored_services()
        .iter()
        .zip(outputs.iter())
        .map(|(m, out)| service_status_from_show(&m.unit, out))
        .collect();

    for service in services {
        assert!(!service.name.is_empty());

        if service.active {
            assert!(!service.status.is_empty());
        }

        assert!(
            service.status.is_empty()
                || service
                    .status
                    .chars()
                    .all(|c| c.is_ascii_alphanumeric() || c == '-')
        );
    }
}

#[test]
fn monitored_units_in_order() {
    let units: Vec<(String, bool)> =
        monitored_services().into_iter().map(|m| (m.unit, m.user)).collect();
    assert_eq!(
        units,
        vec![
            ("NetworkManager.service".to_string(), false),
            ("pipewire.service".to_string(), true),
            ("pipewire-pulse.service".to_string(), true),
            ("wireplumber.service".to_string(), true),
        ]
    );
}

#[test]
fn service_state_rules() {
    let s = service_status_from_show("a.service", b"LoadState=loaded\nActiveState=active\nSubState=running\n");
    assert_eq!((s.name.as_str(), s.active, s.failed, s.status.as_str()), ("a.service", true, false, "running"));
    let s = service_status_from_show("b.service", b"LoadState=not-found\nActiveState=inactive\nSubState=dead\n");
    assert_eq!((s.active, s.failed, s.status.as_str()), (false, true, "dead"));
    let s = service_status_from_show("c.service", b"ActiveState=failed\nSubState=failed\nActiveState=active\n");
    assert_eq!((s.active, s.failed), (true, false));
    let s = service_status_from_show("d.service", b"");
    assert_eq!((s.active, s.failed, s.status.as_str()), (false, false, ""));
}

#[test]
fn thermal_zone_entries_and_names() {
    assert!(is_thermal_zone("thermal_zone0"));
    assert!(is_thermal_zone("thermal_zone12"));
    assert!(!is_thermal_zone("cooling_device0"));
    assert!(!is_thermal_zone("thermal"));
    for raw in ["x86_pkg_temp\n", "acpitz\n", "  iwlwifi_1 \n"] {
        let name = thermal_zone_name(raw);
        assert!(!name.is_empty());
        assert_eq!(name, raw.trim());
    }
}

#[test]
fn sysfs_counters() {
    assert_eq!(parse_sysfs_u64("8573157376\n"), Some(8573157376));
    assert_eq!(parse_sysfs_u64("  12 \n"), Some(12));
    assert_eq!(parse_sysfs_u64("12.5\n"), None);
    assert_eq!(parse_sysfs_u64(""), None);
}

#[test]
fn service_status_from_plain_text() {
    let s = service_status_from_text("x.service", "SubState=exited\r\nLoadState=loaded\r\nActiveState=active\r\n");
    assert_eq!((s.active, s.failed, s.status.as_str()), (true, false, "exited"));
    let s = service_status_from_text("y.service", "LoadState=loaded\nActiveState=failed\n");
    assert_eq!((s.active, s.failed, s.status.as_str()), (false, true, ""));
}
