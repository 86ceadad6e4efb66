use portwatch::query::{detail_status_code, parse_sort_field, query, QueryParams, SortField};
use portwatch::scan::{find_by_port, record_from, records_from};
use portwatch::types::{service_eq, Service, ServiceInfo, ServiceStatus};

fn svc(port: u16, process: &str, pid: Option<u32>) -> Service {
    Service {
        port,
        status: ServiceStatus::Open,
        process: Some(process.to_string()),
        pid,
        user: None,
        protocol: None,
        local_address: None,
        fd: None,
        type_field: None,
        device: None,
        size_off: None,
        node: None,
        command_line: None,
        exe_path: None,
        start_time: None,
        ppid: None,
    }
}

fn params(
    sort_by: Option<&str>,
    sort_order: Option<&str>,
    page: Option<usize>,
    page_size: Option<usize>,
) -> QueryParams {
    QueryParams {
        sort_by: sort_by.map(|s| s.to_string()),
        sort_order: sort_order.map(|s| s.to_string()),
        page,
        page_size,
    }
}

#[test]
fn sorts_descending_by_port_and_pages() {
    let snapshot = vec![svc(80, "a", None), svc(443, "b", None), svc(22, "c", None)];
    let r = query(&snapshot, &params(Some("port"), Some("desc"), Some(1), Some(2)));
    assert_eq!(r.total, 3);
    assert_eq!(r.page, 1);
    assert_eq!(r.page_size, 2);
    assert_eq!(r.data.len(), 2);
    assert_eq!(r.data[0].port, 443);
    assert_eq!(r.data[1].port, 80);
}

#[test]
fn second_page_continues_where_first_ended() {
    let snapshot = vec![svc(80, "a", None), svc(443, "b", None), svc(22, "c", None)];
    let r = query(&snapshot, &params(Some("port"), Some("asc"), Some(2), Some(2)));
    assert_eq!(r.total, 3);
    assert_eq!(r.data.len(), 1);
    assert_eq!(r.data[0].port, 443);
}

#[test]
fn page_past_the_end_is_empty_with_full_total() {
    let snapshot = vec![svc(80, "a", None), svc(443, "b", None)];
    let r = query(&snapshot, &params(None, None, Some(9), Some(50)));
    assert_eq!(r.total, 2);
    assert_eq!(r.data.len(), 0);
}

#[test]
fn page_size_is_clamped_to_one_hundred() {
    let mut snapshot = Vec::new();
    for p in 0..150u16 {
        snapshot.push(svc(p, "x", None));
    }
    let r = query(&snapshot, &params(None, None, None, Some(500)));
    assert_eq!(r.page_size, 100);
    assert_eq!(r.data.len(), 100);
    assert_eq!(r.total, 150);
}

#[test]
fn defaults_are_page_one_of_twenty_without_sorting() {
    let mut snapshot = Vec::new();
    for p in 0..30u16 {
        snapshot.push(svc(1000 - p, "x", None));
    }
    let r = query(&snapshot, &params(None, None, None, None));
    assert_eq!(r.page, 1);
    assert_eq!(r.page_size, 20);
    assert_eq!(r.data.len(), 20);
    // discovery order kept: no sort field was given
    assert_eq!(r.data[0].port, 1000);
    assert_eq!(r.data[19].port, 981);
}

#[test]
fn page_zero_is_clamped_to_one() {
    let snapshot = vec![svc(80, "a", None), svc(443, "b", None)];
    let r = query(&snapshot, &params(None, None, Some(0), Some(1)));
    assert_eq!(r.page, 1);
    assert_eq!(r.data[0].port, 80);
}

#[test]
fn unknown_sort_field_keeps_discovery_order() {
    let snapshot = vec![svc(443, "b", None), svc(80, "a", None)];
    let r = query(&snapshot, &params(Some("bogus"), None, None, None));
    assert_eq!(r.data[0].port, 443);
    assert_eq!(r.data[1].port, 80);
}

#[test]
fn absent_values_sort_first() {
    let snapshot = vec![svc(1, "b", Some(5)), svc(2, "a", None), svc(3, "c", Some(2))];
    let r = query(&snapshot, &params(Some("pid"), None, None, None));
    assert_eq!(r.data[0].pid, None);
    assert_eq!(r.data[1].pid, Some(2));
    assert_eq!(r.data[2].pid, Some(5));
}

#[test]
fn sorting_by_process_is_lexicographic() {
    let snapshot = vec![svc(1, "nginx", None), svc(2, "apache", None), svc(3, "mysqld", None)];
    let r = query(&snapshot, &params(Some("process"), None, None, None));
    assert_eq!(r.data[0].process.as_deref(), Some("apache"));
    assert_eq!(r.data[1].process.as_deref(), Some("mysqld"));
    assert_eq!(r.data[2].process.as_deref(), Some("nginx"));
}

#[test]
fn equal_keys_keep_discovery_order_both_directions() {
    let snapshot = vec![svc(80, "first", Some(1)), svc(80, "second", Some(2))];
    let asc = query(&snapshot, &params(Some("port"), Some("asc"), None, None));
    assert_eq!(asc.data[0].process.as_deref(), Some("first"));
    assert_eq!(asc.data[1].process.as_deref(), Some("second"));
    let desc = query(&snapshot, &params(Some("port"), Some("desc"), None, None));
    assert_eq!(desc.data[0].process.as_deref(), Some("first"));
    assert_eq!(desc.data[1].process.as_deref(), Some("second"));
}

#[test]
fn descending_reverses_ascending_on_distinct_keys() {
    let snapshot = vec![svc(80, "a", None), svc(443, "b", None), svc(22, "c", None)];
    let asc = query(&snapshot, &params(Some("port"), Some("asc"), None, None));
    let desc = query(&snapshot, &params(Some("port"), Some("desc"), None, None));
    assert_eq!(asc.data.len(), 3);
    for i in 0..3 {
        assert!(service_eq(&asc.data[i], &desc.data[2 - i]));
    }
}

#[test]
fn ascending_sort_is_non_decreasing() {
    let snapshot = vec![
        svc(8080, "a", None),
        svc(22, "b", None),
        svc(443, "c", None),
        svc(80, "d", None),
        svc(22, "e", None),
    ];
    let r = query(&snapshot, &params(Some("port"), None, None, None));
    for w in r.data.windows(2) {
        assert!(w[0].port <= w[1].port);
    }
}

#[test]
fn repeated_queries_agree() {
    let snapshot = vec![svc(80, "a", Some(3)), svc(443, "b", None), svc(22, "c", Some(1))];
    let p = params(Some("process"), Some("desc"), Some(1), Some(2));
    let r1 = query(&snapshot, &p);
    let r2 = query(&snapshot, &p);
    assert_eq!(r1.total, r2.total);
    assert_eq!(r1.page, r2.page);
    assert_eq!(r1.page_size, r2.page_size);
    assert_eq!(r1.data.len(), r2.data.len());
    for i in 0..r1.data.len() {
        assert!(service_eq(&r1.data[i], &r2.data[i]));
    }
}

#[test]
fn every_field_name_is_recognised() {
    assert_eq!(parse_sort_field("port"), Some(SortField::Port));
    assert_eq!(parse_sort_field("status"), Some(SortField::Status));
    assert_eq!(parse_sort_field("process"), Some(SortField::Process));
    assert_eq!(parse_sort_field("pid"), Some(SortField::Pid));
    assert_eq!(parse_sort_field("user"), Some(SortField::User));
    assert_eq!(parse_sort_field("protocol"), Some(SortField::Protocol));
    assert_eq!(parse_sort_field("local_address"), Some(SortField::LocalAddress));
    assert_eq!(parse_sort_field("fd"), Some(SortField::Fd));
    assert_eq!(parse_sort_field("type_field"), Some(SortField::TypeField));
    assert_eq!(parse_sort_field("device"), Some(SortField::Device));
    assert_eq!(parse_sort_field("size_off"), Some(SortField::SizeOff));
    assert_eq!(parse_sort_field("node"), Some(SortField::Node));
    assert_eq!(parse_sort_field("command_line"), Some(SortField::CommandLine));
    assert_eq!(parse_sort_field("exe_path"), Some(SortField::ExePath));
    assert_eq!(parse_sort_field("start_time"), Some(SortField::StartTime));
    assert_eq!(parse_sort_field("ppid"), Some(SortField::Ppid));
    assert_eq!(parse_sort_field("PORT"), None);
    assert_eq!(parse_sort_field(""), None);
}

#[test]
fn status_sorts_open_before_closed() {
    let mut a = svc(1, "a", None);
    a.status = ServiceStatus::Closed;
    let b = svc(2, "b", None);
    let snapshot = vec![a, b];
    let r = query(&snapshot, &params(Some("status"), None, None, None));
    assert_eq!(r.data[0].status, ServiceStatus::Open);
    assert_eq!(r.data[1].status, ServiceStatus::Closed);
}

fn plain_info(port: u16) -> ServiceInfo {
    ServiceInfo {
        port,
        process: None,
        pid: None,
        user: None,
        protocol: None,
        local_address: None,
        fd: None,
        type_field: None,
        device: None,
        size_off: None,
        node: None,
        command_line: None,
        exe_path: None,
        start_time: None,
        ppid: None,
    }
}

#[test]
fn missing_port_gets_not_found_status() {
    let infos = vec![plain_info(80), plain_info(443)];
    let hit = find_by_port(&infos, 9999);
    assert!(hit.is_none());
    assert_eq!(detail_status_code(hit.is_some()), 404);
}

#[test]
fn present_port_gets_success_status() {
    let infos = vec![plain_info(80), plain_info(443)];
    let hit = find_by_port(&infos, 443);
    assert_eq!(hit, Some(1));
    assert_eq!(detail_status_code(hit.is_some()), 200);
}

#[test]
fn probe_outcome_fixes_the_status() {
    let open = record_from(&plain_info(80), true);
    assert_eq!(open.status, ServiceStatus::Open);
    let closed = record_from(&plain_info(80), false);
    assert_eq!(closed.status, ServiceStatus::Closed);
    let batch = records_from(&vec![plain_info(1), plain_info(2)], &vec![true, false]);
    assert_eq!(batch[0].status, ServiceStatus::Open);
    assert_eq!(batch[1].status, ServiceStatus::Closed);
    assert_eq!(batch[1].port, 2);
}
