use mdns_manager::error::AppError;
use mdns_manager::mdns::{Daemon, FakeDaemon};
use mdns_manager::models::{AppConfig, LogLevel, ServiceStatus, ServiceView};
use mdns_manager::orchestrator::Orchestrator;

fn fake(fail_names: Vec<&str>) -> Daemon {
    Daemon::Fake(FakeDaemon {
        fail_names: fail_names.into_iter().map(|s| s.to_string()).collect(),
    })
}

fn orch_with(hostname: &str, fail_names: Vec<&str>) -> Orchestrator {
    let config = AppConfig {
        version: 1,
        hostname: hostname.to_string(),
        services: Vec::new(),
    };
    Orchestrator::new(config, fake(fail_names))
}

fn add(
    orch: &mut Orchestrator,
    id: &str,
    name: &str,
    enabled: bool,
) -> Result<Vec<ServiceView>, AppError> {
    orch.add_service(
        id.to_string(),
        name.to_string(),
        "_http._tcp".to_string(),
        8080,
        Vec::new(),
        enabled,
        Ok(()),
        7,
    )
}

#[test]
fn add_two_distinct_ids_both_listed() {
    let mut orch = orch_with("host", vec![]);
    add(&mut orch, "id-a", "alpha", false).unwrap();
    let views = add(&mut orch, "id-b", "beta", false).unwrap();
    assert_eq!(views.len(), 2);
    assert_eq!(views[0].id, "id-a");
    assert_eq!(views[1].id, "id-b");
    assert_ne!(views[0].id, views[1].id);
    assert_eq!(views[0].name, "alpha");
    assert_eq!(views[1].name, "beta");
}

#[test]
fn add_duplicate_id_is_refused_without_state_change() {
    let mut orch = orch_with("host", vec![]);
    add(&mut orch, "id-a", "alpha", false).unwrap();
    let r = add(&mut orch, "id-a", "beta", false);
    assert!(matches!(r, Err(AppError::Config(_))));
    assert_eq!(orch.get_services().len(), 1);
}

#[test]
fn add_with_failed_save_changes_nothing() {
    let mut orch = orch_with("host", vec![]);
    let r = orch.add_service(
        "id-a".to_string(),
        "alpha".to_string(),
        "_http._tcp".to_string(),
        8080,
        Vec::new(),
        true,
        Err("disk full".to_string()),
        7,
    );
    match r {
        Err(AppError::Io(m)) => assert_eq!(m, "disk full"),
        _ => panic!("expected an IO error"),
    }
    assert_eq!(orch.get_services().len(), 0);
    assert_eq!(orch.get_event_logs().len(), 0);
}

#[test]
fn toggle_twice_restores_enabled() {
    let mut orch = orch_with("host", vec![]);
    add(&mut orch, "id-a", "alpha", false).unwrap();
    let v1 = orch.toggle_service("id-a".to_string(), Ok(()), 8).unwrap();
    assert!(v1[0].enabled);
    assert_eq!(v1[0].status, ServiceStatus::Running);
    let v2 = orch.toggle_service("id-a".to_string(), Ok(()), 9).unwrap();
    assert!(!v2[0].enabled);
    assert_eq!(v2[0].status, ServiceStatus::Stopped);
}

#[test]
fn toggle_unknown_id_is_not_found() {
    let mut orch = orch_with("host", vec![]);
    let r = orch.toggle_service("nope".to_string(), Ok(()), 8);
    match r {
        Err(AppError::NotFound(s)) => assert_eq!(s, "nope"),
        _ => panic!("expected a not-found error"),
    }
}

#[test]
fn failing_registration_yields_error_status_and_one_error_entry() {
    let mut orch = orch_with("host", vec!["alpha"]);
    let views = add(&mut orch, "id-a", "alpha", true).unwrap();
    assert_eq!(views.len(), 1);
    assert_eq!(views[0].status, ServiceStatus::Error);
    assert!(views[0].enabled);
    let logs = orch.get_event_logs();
    let errors: Vec<_> = logs
        .iter()
        .filter(|e| matches!(e.level, LogLevel::Error))
        .collect();
    assert_eq!(errors.len(), 1);
    assert_eq!(errors[0].service_id.as_deref(), Some("id-a"));

    // a later toggle attempts registration again, fails again, and neither
    // crashes nor duplicates the configuration entry
    let views2 = orch.toggle_service("id-a".to_string(), Ok(()), 9).unwrap();
    assert_eq!(views2.len(), 1);
    assert_eq!(views2[0].status, ServiceStatus::Error);
    let errors2 = orch
        .get_event_logs()
        .into_iter()
        .filter(|e| matches!(e.level, LogLevel::Error))
        .count();
    assert_eq!(errors2, 2);
}

#[test]
fn start_all_with_one_failure() {
    let mut orch = orch_with("host", vec!["bad"]);
    add(&mut orch, "id-1", "one", false).unwrap();
    add(&mut orch, "id-2", "bad", false).unwrap();
    add(&mut orch, "id-3", "three", false).unwrap();
    let logs_before = orch.get_event_logs().len();
    let views = orch.start_all(Ok(()), 9).unwrap();
    let running = views
        .iter()
        .filter(|v| v.status == ServiceStatus::Running)
        .count();
    let errors = views
        .iter()
        .filter(|v| v.status == ServiceStatus::Error)
        .count();
    assert_eq!(running, 2);
    assert_eq!(errors, 1);
    assert!(views.iter().all(|v| v.enabled));
    // exactly one summary entry, not one per service
    assert_eq!(orch.get_event_logs().len(), logs_before + 1);
}

#[test]
fn stop_all_stops_and_disables_everything() {
    let mut orch = orch_with("host", vec!["bad"]);
    add(&mut orch, "id-1", "one", true).unwrap();
    add(&mut orch, "id-2", "bad", true).unwrap();
    let views = orch.stop_all(Ok(()), 9).unwrap();
    assert_eq!(views.len(), 2);
    for v in &views {
        assert!(!v.enabled);
        assert_eq!(v.status, ServiceStatus::Stopped);
    }
}

#[test]
fn update_replaces_definition_and_reregisters() {
    let mut orch = orch_with("host", vec![]);
    add(&mut orch, "id-a", "alpha", true).unwrap();
    let views = orch
        .update_service(
            "id-a".to_string(),
            "alpha-2".to_string(),
            "_ipp._tcp".to_string(),
            631,
            vec![("k".to_string(), "v".to_string())],
            true,
            Ok(()),
            9,
        )
        .unwrap();
    assert_eq!(views.len(), 1);
    assert_eq!(views[0].id, "id-a");
    assert_eq!(views[0].name, "alpha-2");
    assert_eq!(views[0].service_type, "_ipp._tcp");
    assert_eq!(views[0].port, 631);
    assert_eq!(views[0].status, ServiceStatus::Running);
}

#[test]
fn delete_removes_service_and_status() {
    let mut orch = orch_with("host", vec![]);
    add(&mut orch, "id-a", "alpha", true).unwrap();
    add(&mut orch, "id-b", "beta", false).unwrap();
    let views = orch.delete_service("id-a".to_string(), Ok(()), 9).unwrap();
    assert_eq!(views.len(), 1);
    assert_eq!(views[0].id, "id-b");
    let r = orch.delete_service("id-a".to_string(), Ok(()), 9);
    assert!(matches!(r, Err(AppError::NotFound(_))));
}

#[test]
fn get_host_name_reports_configured_hostname() {
    let orch = orch_with("box.local", vec![]);
    assert_eq!(orch.get_host_name(), "box.local");
}

#[test]
fn clear_event_logs_drops_everything_else_untouched() {
    let mut orch = orch_with("host", vec![]);
    add(&mut orch, "id-a", "alpha", false).unwrap();
    assert!(!orch.get_event_logs().is_empty());
    orch.clear_event_logs();
    assert!(orch.get_event_logs().is_empty());
    assert_eq!(orch.get_services().len(), 1);
}

#[test]
fn auto_start_registers_enabled_services_only() {
    let config = AppConfig {
        version: 1,
        hostname: "host".to_string(),
        services: Vec::new(),
    };
    let mut orch = Orchestrator::new(config, fake(vec!["bad"]));
    add(&mut orch, "id-1", "one", false).unwrap();
    add(&mut orch, "id-2", "two", false).unwrap();
    add(&mut orch, "id-3", "bad", false).unwrap();
    // simulate a fresh process: same config, no statuses yet
    let exported = orch.export_config();
    let parsed = mdns_manager::codec::parse_config(&exported).unwrap();
    let mut fresh = Orchestrator::new(parsed, fake(vec!["bad"]));
    // mark two services as desired
    fresh.toggle_service("id-1".to_string(), Ok(()), 1).unwrap();
    fresh.toggle_service("id-3".to_string(), Ok(()), 1).unwrap();
    let mut restarted = Orchestrator::new(
        mdns_manager::codec::parse_config(&fresh.export_config()).unwrap(),
        fake(vec!["bad"]),
    );
    let started = restarted.auto_start();
    assert_eq!(started, 1);
    let views = restarted.get_services();
    assert_eq!(views[0].status, ServiceStatus::Running);
    assert_eq!(views[1].status, ServiceStatus::Stopped);
    assert_eq!(views[2].status, ServiceStatus::Error);
}
