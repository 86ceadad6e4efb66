use portwatch::poll::PollState;
use portwatch::types::{clone_snapshot, service_eq, snapshot_eq, Service, ServiceStatus};

fn svc(port: u16, process: &str) -> Service {
    Service {
        port,
        status: ServiceStatus::Open,
        process: Some(process.to_string()),
        pid: None,
        user: None,
        protocol: None,
        local_address: None,
        fd: None,
        type_field: None,
        device: None,
        size_off: None,
        node: None,
        command_line: None,
        exe_path: None,
        start_time: None,
        ppid: None,
    }
}

#[test]
fn first_nonempty_snapshot_is_published() {
    let mut state = PollState::new();
    let scanned = vec![svc(80, "nginx")];
    let out = state.observe(clone_snapshot(&scanned));
    assert!(snapshot_eq(&out.cache, &scanned));
    let published = out.publish.expect("a changed snapshot must be published");
    assert!(snapshot_eq(&published, &scanned));
    assert!(snapshot_eq(&state.baseline, &scanned));
}

#[test]
fn unchanged_snapshot_is_suppressed_but_cache_still_replaced() {
    let mut state = PollState::new();
    let scanned = vec![svc(80, "nginx"), svc(443, "caddy")];
    let first = state.observe(clone_snapshot(&scanned));
    assert!(first.publish.is_some());
    let second = state.observe(clone_snapshot(&scanned));
    assert!(second.publish.is_none());
    assert!(snapshot_eq(&second.cache, &scanned));
    assert!(snapshot_eq(&state.baseline, &scanned));
}

#[test]
fn any_field_difference_counts_as_change() {
    let mut state = PollState::new();
    let a = vec![svc(80, "nginx")];
    state.observe(clone_snapshot(&a));
    let mut b = clone_snapshot(&a);
    b[0].status = ServiceStatus::Closed;
    let out = state.observe(clone_snapshot(&b));
    assert!(out.publish.is_some());
    assert!(service_eq(&state.baseline[0], &b[0]));
}

#[test]
fn reordering_counts_as_change() {
    let mut state = PollState::new();
    let a = vec![svc(80, "nginx"), svc(443, "caddy")];
    state.observe(clone_snapshot(&a));
    let b = vec![svc(443, "caddy"), svc(80, "nginx")];
    let out = state.observe(clone_snapshot(&b));
    assert!(out.publish.is_some());
}

#[test]
fn empty_baseline_equals_empty_scan() {
    let mut state = PollState::new();
    let out = state.observe(Vec::new());
    assert!(out.publish.is_none());
    assert_eq!(out.cache.len(), 0);
}
