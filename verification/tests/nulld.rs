use std::time::Duration;

use nullbox::nulld::config::{builtin_services, parse_restart_policy, services_from_entries, ConfigError, ServiceEntry};
use nullbox::nulld::mount::mount_table;
use nullbox::nulld::service::{resolve_start_order, resolve_stop_order, DepError, RestartPolicy, ServiceDef};
use nullbox::nulld::signal::ExitReason;
use nullbox::nulld::supervisor::{calculate_backoff, ServiceState, Supervisor, MAX_BACKOFF_SECS};

fn make_service(name: &str, deps: &[&str]) -> ServiceDef {
    ServiceDef {
        name: name.to_string(),
        binary: format!("/system/bin/{name}"),
        args: vec![],
        depends_on: deps.iter().map(|s| s.to_string()).collect(),
        restart: RestartPolicy::Always,
    }
}

fn entry(binary: &str, depends_on: &[&str], restart: &str) -> ServiceEntry {
    ServiceEntry {
        binary: binary.to_string(),
        args: vec![],
        depends_on: depends_on.iter().map(|s| s.to_string()).collect(),
        restart: restart.to_string(),
    }
}

#[test]
fn builtin_services_have_correct_deps() {
    let services = builtin_services();
    let cage = services.iter().find(|s| s.name == "cage").unwrap();
    assert!(cage.depends_on.contains(&"egress".to_string()));
    assert!(cage.depends_on.contains(&"ctxgraph".to_string()));
}

#[test]
fn services_from_valid_entries() {
    let entries = vec![
        ("egress".to_string(), entry("/system/bin/egress", &[], "always")),
        ("ctxgraph".to_string(), entry("/system/bin/ctxgraph", &[], "always")),
        ("cage".to_string(), entry("/system/bin/cage", &["egress", "ctxgraph"], "on-failure")),
    ];
    let services = services_from_entries(entries).unwrap();
    assert_eq!(services.len(), 3);
    let cage = services.iter().find(|s| s.name == "cage").unwrap();
    assert_eq!(cage.depends_on, vec!["egress", "ctxgraph"]);
    assert_eq!(cage.restart, RestartPolicy::OnFailure);
}

#[test]
fn services_from_no_entries() {
    let services = services_from_entries(vec![]).unwrap();
    assert!(services.is_empty());
}

#[test]
fn services_from_entries_invalid_restart_policy() {
    let entries = vec![("bad".to_string(), entry("/bin/bad", &[], "bogus"))];
    match services_from_entries(entries) {
        Err(ConfigError::InvalidRestart { service, value }) => {
            assert_eq!(service, "bad");
            assert_eq!(value, "bogus");
        }
        other => panic!("unexpected: {:?}", other),
    }
}

#[test]
fn invalid_restart_message() {
    let e = ConfigError::InvalidRestart { service: "bad".to_string(), value: "bogus".to_string() };
    assert_eq!(
        e.to_string(),
        "invalid restart policy 'bogus' for service 'bad'"
    );
}

#[test]
fn restart_policy_names() {
    assert_eq!(parse_restart_policy("always"), Some(RestartPolicy::Always));
    assert_eq!(parse_restart_policy("on-failure"), Some(RestartPolicy::OnFailure));
    assert_eq!(parse_restart_policy("never"), Some(RestartPolicy::Never));
    assert_eq!(parse_restart_policy("Always"), None);
}

#[test]
fn mount_entries_have_valid_targets() {
    for entry in mount_table() {
        assert!(entry.target.starts_with('/'), "mount target must be absolute: {}", entry.target);
    }
}

#[test]
fn mount_order_proc_before_sys() {
    let mounts = mount_table();
    let proc_idx = mounts.iter().position(|m| m.target == "/proc").expect("/proc mount missing");
    let sys_idx = mounts.iter().position(|m| m.target == "/sys").expect("/sys mount missing");
    assert!(proc_idx < sys_idx, "/proc must be mounted before /sys");
}

#[test]
fn mount_order_dev_before_devpts() {
    let mounts = mount_table();
    let dev_idx = mounts.iter().position(|m| m.target == "/dev").expect("/dev mount missing");
    let pts_idx = mounts.iter().position(|m| m.target == "/dev/pts").expect("/dev/pts mount missing");
    assert!(dev_idx < pts_idx, "/dev must be mounted before /dev/pts");
}

#[test]
fn simple_dependency_order() {
    let services = vec![
        make_service("cage", &["egress", "ctxgraph"]),
        make_service("egress", &[]),
        make_service("ctxgraph", &[]),
    ];

    let order = resolve_start_order(&services).unwrap();

    let cage_idx = order.iter().position(|s| s == "cage").unwrap();
    let egress_idx = order.iter().position(|s| s == "egress").unwrap();
    let ctx_idx = order.iter().position(|s| s == "ctxgraph").unwrap();

    assert!(egress_idx < cage_idx);
    assert!(ctx_idx < cage_idx);
}

#[test]
fn no_dependencies() {
    let services = vec![make_service("a", &[]), make_service("b", &[]), make_service("c", &[])];

    let order = resolve_start_order(&services).unwrap();
    assert_eq!(order.len(), 3);
}

#[test]
fn cycle_detected() {
    let services = vec![make_service("a", &["b"]), make_service("b", &["a"])];

    let result = resolve_start_order(&services);
    assert!(matches!(result, Err(DepError::CycleDetected)));
}

#[test]
fn missing_dependency() {
    let services = vec![make_service("a", &["nonexistent"])];

    let result = resolve_start_order(&services);
    assert!(matches!(result, Err(DepError::MissingDependency { .. })));
}

#[test]
fn missing_dependency_names_both() {
    let services = vec![make_service("a", &["nonexistent"])];
    let err = resolve_start_order(&services).unwrap_err();
    assert_eq!(err.to_string(), "service 'a' depends on unknown service 'nonexistent'");
}

#[test]
fn stop_order_is_reverse_of_start() {
    let services = vec![make_service("cage", &["egress"]), make_service("egress", &[])];

    let start = resolve_start_order(&services).unwrap();
    let stop = resolve_stop_order(&services).unwrap();

    assert_eq!(start[0], stop[1]);
    assert_eq!(start[1], stop[0]);
}

#[test]
fn chain_dependency() {
    let services = vec![make_service("c", &["b"]), make_service("b", &["a"]), make_service("a", &[])];

    let order = resolve_start_order(&services).unwrap();
    assert_eq!(order, vec!["a", "b", "c"]);
}

#[test]
fn stop_order_of_a_cycle_fails_too() {
    let services = vec![make_service("a", &["b"]), make_service("b", &["a"])];
    assert!(matches!(resolve_stop_order(&services), Err(DepError::CycleDetected)));
}

#[test]
fn exit_reason_display() {
    assert_eq!(ExitReason::Exited(0).to_string(), "exited with code 0");
    assert_eq!(ExitReason::Signaled(9).to_string(), "killed by signal 9");
}

#[test]
fn exit_reason_negative_code() {
    assert_eq!(ExitReason::Exited(-1).to_string(), "exited with code -1");
}

#[test]
fn backoff_increases_exponentially() {
    assert_eq!(Duration::from_secs(calculate_backoff(0)), Duration::from_secs(1));
    assert_eq!(Duration::from_secs(calculate_backoff(1)), Duration::from_secs(2));
    assert_eq!(Duration::from_secs(calculate_backoff(2)), Duration::from_secs(4));
    assert_eq!(Duration::from_secs(calculate_backoff(3)), Duration::from_secs(8));
    assert_eq!(Duration::from_secs(calculate_backoff(4)), Duration::from_secs(16));
}

#[test]
fn backoff_caps_at_max() {
    assert_eq!(Duration::from_secs(calculate_backoff(5)), Duration::from_secs(MAX_BACKOFF_SECS));
    assert_eq!(Duration::from_secs(calculate_backoff(10)), Duration::from_secs(MAX_BACKOFF_SECS));
    assert_eq!(calculate_backoff(u32::MAX), MAX_BACKOFF_SECS);
}

#[test]
fn supervisor_creates_from_defs() {
    let defs = vec![ServiceDef {
        name: "test".to_string(),
        binary: "/bin/true".to_string(),
        args: vec![],
        depends_on: vec![],
        restart: RestartPolicy::Always,
    }];

    let sup = Supervisor::new(defs);
    assert!(sup.contains_service("test"));
    assert!(!sup.contains_service("other"));
}

#[test]
fn supervisor_starts_in_dependency_order() {
    let defs = vec![make_service("cage", &["egress"]), make_service("egress", &[])];
    let mut sup = Supervisor::new(defs);
    let launched = std::cell::RefCell::new(Vec::new());
    let launch = |binary: &String, _args: &Vec<String>| -> Result<u32, String> {
        launched.borrow_mut().push(binary.clone());
        Ok(100 + launched.borrow().len() as u32)
    };
    sup.start_all(&launch, 0).unwrap();
    assert_eq!(*launched.borrow(), vec!["/system/bin/egress".to_string(), "/system/bin/cage".to_string()]);
    assert_eq!(sup.service_state("egress"), Some(ServiceState::Running));
    assert_eq!(sup.service_state("cage"), Some(ServiceState::Running));
}

#[test]
fn supervisor_restarts_after_backoff() {
    let defs = vec![make_service("egress", &[])];
    let mut sup = Supervisor::new(defs);
    let launch = |_binary: &String, _args: &Vec<String>| -> Result<u32, String> { Ok(7) };
    sup.start_all(&launch, 0).unwrap();
    let exit = sup.handle_child_exit(7, &ExitReason::Exited(1), 5_000).unwrap();
    assert_eq!(exit.service, "egress");
    assert!(exit.will_restart);
    assert_eq!(exit.backoff_secs, 1);
    assert_eq!(sup.service_state("egress"), Some(ServiceState::WaitingRestart));
    // Not yet due.
    let errors = sup.process_restarts(5_500, &launch);
    assert!(errors.is_empty());
    assert_eq!(sup.service_state("egress"), Some(ServiceState::WaitingRestart));
    // Due after one second.
    let errors = sup.process_restarts(6_000, &launch);
    assert!(errors.is_empty());
    assert_eq!(sup.service_state("egress"), Some(ServiceState::Running));
}

#[test]
fn supervisor_ignores_unknown_pid() {
    let mut sup = Supervisor::new(vec![make_service("egress", &[])]);
    assert!(sup.handle_child_exit(4242, &ExitReason::Signaled(9), 0).is_none());
}

#[test]
fn supervisor_spawn_failure_is_reported() {
    let mut sup = Supervisor::new(vec![make_service("egress", &[])]);
    let launch = |_binary: &String, _args: &Vec<String>| -> Result<u32, String> { Err("no such file".to_string()) };
    let err = sup.start_all(&launch, 0).unwrap_err();
    assert_eq!(err.to_string(), "failed to spawn 'egress': no such file");
    assert_eq!(sup.service_state("egress"), Some(ServiceState::Failed));
}

#[test]
fn stop_all_signals_in_reverse_start_order() {
    let defs = vec![make_service("cage", &["egress"]), make_service("egress", &[]), make_service("ctxgraph", &[])];
    let mut sup = Supervisor::new(defs);
    let next = std::cell::Cell::new(10u32);
    let launch = |_binary: &String, _args: &Vec<String>| -> Result<u32, String> {
        next.set(next.get() + 1);
        Ok(next.get())
    };
    sup.start_all(&launch, 0).unwrap();
    let to_stop = sup.stop_all();
    assert_eq!(
        to_stop,
        vec![("cage".to_string(), 13), ("ctxgraph".to_string(), 12), ("egress".to_string(), 11)]
    );
    assert_eq!(sup.service_state("cage"), Some(ServiceState::Stopped));
    assert!(sup.stop_all().is_empty());
}

#[test]
fn self_dependency_is_a_cycle() {
    let services = vec![make_service("a", &["a"])];
    assert!(matches!(resolve_start_order(&services), Err(DepError::CycleDetected)));
}

#[test]
fn services_from_entries_reports_first_invalid_restart() {
    let entries = vec![
        ("good".to_string(), entry("/bin/good", &[], "never")),
        ("first".to_string(), entry("/bin/first", &[], "sometimes")),
        ("second".to_string(), entry("/bin/second", &[], "often")),
    ];
    match services_from_entries(entries) {
        Err(ConfigError::InvalidRestart { service, value }) => {
            assert_eq!(service, "first");
            assert_eq!(value, "sometimes");
        }
        other => panic!("unexpected: {:?}", other),
    }
}

