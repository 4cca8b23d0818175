use mdns_manager::audit::AuditLog;
use mdns_manager::codec::{parse_config, render_config};
use mdns_manager::error::AppError;
use mdns_manager::mdns::{host_fqdn, to_mdns_type, Daemon, FakeDaemon};
use mdns_manager::models::{AppConfig, LogLevel, ServiceConfig, ServiceStatus, ServiceView};
use mdns_manager::network::group_interfaces;
use mdns_manager::orchestrator::Orchestrator;
use mdns_manager::status::StatusTracker;

#[test]
fn audit_log_caps_at_five_hundred_and_evicts_oldest_first() {
    let mut log = AuditLog::new();
    for i in 0..501u32 {
        log.append(i as i64, LogLevel::Info, format!("entry {}", i), None);
    }
    let all = log.get_all();
    assert_eq!(all.len(), 500);
    // entry 0 is gone, entry 1 is now the oldest
    assert_eq!(all[0].message, "entry 1");
    assert_eq!(all[499].message, "entry 500");
    log.clear();
    assert_eq!(log.get_all().len(), 0);
}

#[test]
fn status_tracker_defaults_get_set_remove() {
    let mut t = StatusTracker::new();
    let id = "svc-1".to_string();
    assert_eq!(t.get(&id), ServiceStatus::Stopped);
    t.set(&id, ServiceStatus::Running);
    assert_eq!(t.get(&id), ServiceStatus::Running);
    assert!(t.is_running(&id));
    // setting the same key again replaces, never duplicates
    t.set(&id, ServiceStatus::Error);
    assert_eq!(t.get(&id), ServiceStatus::Error);
    assert_eq!(t.count_running(), 0);
    t.set(&"svc-2".to_string(), ServiceStatus::Running);
    assert_eq!(t.count_running(), 1);
    t.remove(&id);
    assert_eq!(t.get(&id), ServiceStatus::Stopped);
    t.clear();
    assert_eq!(t.count_running(), 0);
}

#[test]
fn render_empty_config_is_exact() {
    let c = AppConfig {
        version: 1,
        hostname: "h".to_string(),
        services: Vec::new(),
    };
    assert_eq!(
        render_config(&c),
        "{\"version\":1,\"hostname\":\"h\",\"services\":[]}"
    );
}

#[test]
fn render_one_service_is_exact() {
    let c = AppConfig {
        version: 3,
        hostname: "box".to_string(),
        services: vec![ServiceConfig {
            id: "i1".to_string(),
            name: "printer".to_string(),
            service_type: "_ipp._tcp".to_string(),
            port: 65535,
            txt: vec![("k".to_string(), "v".to_string())],
            enabled: true,
        }],
    };
    assert_eq!(
        render_config(&c),
        "{\"version\":3,\"hostname\":\"box\",\"services\":[{\"id\":\"i1\",\"name\":\"printer\",\"type\":\"_ipp._tcp\",\"port\":65535,\"txt\":{\"k\":\"v\"},\"enabled\":true}]}"
    );
}

#[test]
fn render_escapes_quotes_backslashes_and_control_characters() {
    let c = AppConfig {
        version: 1,
        hostname: "a\"b\\c\nd\te\u{1}f".to_string(),
        services: Vec::new(),
    };
    assert_eq!(
        render_config(&c),
        "{\"version\":1,\"hostname\":\"a\\\"b\\\\c\\nd\\te\\u0001f\",\"services\":[]}"
    );
}

#[test]
fn parse_inverts_render_including_escapes() {
    let c = AppConfig {
        version: 7,
        hostname: "host\"with\\odd\nname".to_string(),
        services: vec![
            ServiceConfig {
                id: "one".to_string(),
                name: "n\"1".to_string(),
                service_type: "_a._udp".to_string(),
                port: 0,
                txt: vec![
                    ("key\n".to_string(), "va\"lue".to_string()),
                    ("k2".to_string(), "".to_string()),
                ],
                enabled: false,
            },
            ServiceConfig {
                id: "two".to_string(),
                name: "plain".to_string(),
                service_type: "_b._tcp".to_string(),
                port: 443,
                txt: Vec::new(),
                enabled: true,
            },
        ],
    };
    let text = render_config(&c);
    let back = parse_config(&text).expect("the rendered form parses");
    assert_eq!(back.version, 7);
    assert_eq!(back.hostname, c.hostname);
    assert_eq!(back.services.len(), 2);
    assert_eq!(back.services[0].id, "one");
    assert_eq!(back.services[0].name, "n\"1");
    assert_eq!(back.services[0].txt, c.services[0].txt);
    assert!(!back.services[0].enabled);
    assert_eq!(back.services[1].port, 443);
    assert!(back.services[1].enabled);
}

#[test]
fn parse_collapses_duplicate_metadata_keys_last_wins() {
    let parsed = parse_config(
        "{\"version\":1,\"hostname\":\"h\",\"services\":[{\"id\":\"a\",\"name\":\"n\",\"type\":\"_t._tcp\",\"port\":1,\"txt\":{\"k\":\"first\",\"k\":\"second\"},\"enabled\":false}]}",
    )
    .unwrap();
    assert_eq!(
        parsed.services[0].txt,
        vec![("k".to_string(), "second".to_string())]
    );
}

#[test]
fn parse_rejects_garbage_and_trailing_text() {
    assert!(parse_config("not json at all").is_none());
    assert!(parse_config("").is_none());
    assert!(parse_config("{\"version\":1,\"hostname\":\"h\",\"services\":[]}x").is_none());
    assert!(parse_config("{\"version\":99999999999,\"hostname\":\"h\",\"services\":[]}").is_none());
}

#[test]
fn export_then_import_reproduces_services_under_fresh_ids() {
    let mut source = Orchestrator::new(
        AppConfig {
            version: 1,
            hostname: "source-host".to_string(),
            services: Vec::new(),
        },
        Daemon::Fake(FakeDaemon { fail_names: Vec::new() }),
    );
    source
        .add_service(
            "old-1".to_string(),
            "alpha".to_string(),
            "_http._tcp".to_string(),
            80,
            vec![("path".to_string(), "/x".to_string())],
            true,
            Ok(()),
            1,
        )
        .unwrap();
    source
        .add_service(
            "old-2".to_string(),
            "beta".to_string(),
            "_ssh._tcp".to_string(),
            22,
            Vec::new(),
            false,
            Ok(()),
            2,
        )
        .unwrap();
    let exported = source.export_config();

    let mut target = Orchestrator::new(
        AppConfig {
            version: 1,
            hostname: "target-host".to_string(),
            services: Vec::new(),
        },
        Daemon::Fake(FakeDaemon { fail_names: Vec::new() }),
    );
    let parsed = parse_config(&exported).expect("exported form parses");
    let ids = vec!["new-1".to_string(), "new-2".to_string()];
    let logs_before = target.get_event_logs().len();
    let views = target.import_config(parsed, ids, Ok(()), 3).unwrap();

    assert_eq!(views.len(), 2);
    assert_eq!(views[0].name, "alpha");
    assert_eq!(views[0].service_type, "_http._tcp");
    assert_eq!(views[0].port, 80);
    assert_eq!(views[0].txt, vec![("path".to_string(), "/x".to_string())]);
    assert!(views[0].enabled);
    assert_eq!(views[0].status, ServiceStatus::Running);
    assert_eq!(views[1].name, "beta");
    assert!(!views[1].enabled);
    assert_eq!(views[1].status, ServiceStatus::Stopped);
    // identities are the fresh ones, not the exported ones
    assert_eq!(views[0].id, "new-1");
    assert_eq!(views[1].id, "new-2");
    // the live hostname is kept, the exported one discarded
    assert_eq!(target.get_host_name(), "target-host");
    // one summary entry
    assert_eq!(target.get_event_logs().len(), logs_before + 1);
    assert_eq!(
        target.get_event_logs().last().unwrap().message,
        "Configuration imported (2 services)"
    );
}

#[test]
fn import_refuses_duplicate_fresh_ids() {
    let mut target = Orchestrator::new(
        AppConfig {
            version: 1,
            hostname: "h".to_string(),
            services: Vec::new(),
        },
        Daemon::Fake(FakeDaemon { fail_names: Vec::new() }),
    );
    let parsed = parse_config(
        "{\"version\":1,\"hostname\":\"x\",\"services\":[{\"id\":\"a\",\"name\":\"n\",\"type\":\"_t._tcp\",\"port\":1,\"txt\":{},\"enabled\":false},{\"id\":\"b\",\"name\":\"m\",\"type\":\"_t._tcp\",\"port\":2,\"txt\":{},\"enabled\":false}]}",
    )
    .unwrap();
    let r = target.import_config(parsed, vec!["same".to_string(), "same".to_string()], Ok(()), 1);
    assert!(matches!(r, Err(AppError::Config(_))));
    assert_eq!(target.get_services().len(), 0);
}

#[test]
fn mdns_type_and_host_qualification() {
    assert_eq!(to_mdns_type("_http._tcp"), "_http._tcp.local.");
    assert_eq!(to_mdns_type("_http._tcp."), "_http._tcp.local.");
    assert_eq!(to_mdns_type("_http._tcp.local"), "_http._tcp.local.");
    assert_eq!(to_mdns_type("_http._tcp.local..."), "_http._tcp.local.");
    assert_eq!(host_fqdn("box"), "box.local.");
    assert_eq!(host_fqdn("box.local"), "box.local.");
    assert_eq!(host_fqdn("box.local."), "box.local.");
}

#[test]
fn error_messages_are_exact() {
    assert_eq!(
        AppError::NotFound("abc".to_string()).message(),
        "Service not found: abc"
    );
    assert_eq!(AppError::Config("bad".to_string()).message(), "Config error: bad");
    assert_eq!(AppError::Mdns("down".to_string()).message(), "mDNS error: down");
    assert_eq!(AppError::Io("full".to_string()).message(), "IO error: full");
}

#[test]
fn interface_grouping_sorts_names_and_skips_loopback() {
    // wlan0 is enumerated before eth0, yet the result is sorted by name
    let raw = vec![
        ("lo".to_string(), "127.0.0.1".to_string(), true),
        ("wlan0".to_string(), "192.168.0.3".to_string(), false),
        ("eth0".to_string(), "192.168.0.2".to_string(), false),
        ("eth0".to_string(), "fe80::1".to_string(), false),
    ];
    let grouped = group_interfaces(&raw);
    assert_eq!(grouped.len(), 2);
    assert_eq!(grouped[0].name, "eth0");
    assert_eq!(grouped[0].addresses, vec!["192.168.0.2".to_string(), "fe80::1".to_string()]);
    assert_eq!(grouped[1].name, "wlan0");
    assert_eq!(grouped[1].addresses, vec!["192.168.0.3".to_string()]);
}

#[test]
fn network_interfaces_report_distinct_names() {
    let interfaces = mdns_manager::network::get_interfaces();
    for a in 0..interfaces.len() {
        for b in (a + 1)..interfaces.len() {
            assert_ne!(interfaces[a].name, interfaces[b].name);
        }
    }
}

#[test]
fn planned_bytes_match_what_the_command_persists() {
    let mut orch = Orchestrator::new(
        AppConfig {
            version: 1,
            hostname: "h".to_string(),
            services: Vec::new(),
        },
        Daemon::Fake(FakeDaemon { fail_names: Vec::new() }),
    );
    let planned = orch
        .plan_add(
            &"id-1".to_string(),
            &"alpha".to_string(),
            &"_http._tcp".to_string(),
            80,
            &Vec::new(),
            true,
        )
        .unwrap();
    orch.add_service(
        "id-1".to_string(),
        "alpha".to_string(),
        "_http._tcp".to_string(),
        80,
        Vec::new(),
        true,
        Ok(()),
        1,
    )
    .unwrap();
    assert_eq!(planned, orch.export_config());

    let planned_toggle = orch.plan_toggle(&"id-1".to_string()).unwrap();
    orch.toggle_service("id-1".to_string(), Ok(()), 2).unwrap();
    assert_eq!(planned_toggle, orch.export_config());

    let planned_all = orch.plan_set_all(true);
    orch.start_all(Ok(()), 3).unwrap();
    assert_eq!(planned_all, orch.export_config());

    let planned_delete = orch.plan_delete(&"id-1".to_string()).unwrap();
    orch.delete_service("id-1".to_string(), Ok(()), 4).unwrap();
    assert_eq!(planned_delete, orch.export_config());
}

#[test]
fn default_config_is_version_one_and_empty() {
    let c = AppConfig::new_default();
    assert_eq!(c.version, 1);
    assert_eq!(c.hostname, "");
    assert!(c.services.is_empty());
    let d = AppConfig::default();
    assert_eq!(d.version, 1);
}

#[test]
fn view_merges_config_and_status() {
    let svc = ServiceConfig {
        id: "i".to_string(),
        name: "n".to_string(),
        service_type: "_t._tcp".to_string(),
        port: 9,
        txt: Vec::new(),
        enabled: true,
    };
    let v = ServiceView::from_config(&svc, ServiceStatus::Error);
    assert_eq!(v.id, "i");
    assert_eq!(v.name, "n");
    assert_eq!(v.port, 9);
    assert!(v.enabled);
    assert_eq!(v.status, ServiceStatus::Error);
}
