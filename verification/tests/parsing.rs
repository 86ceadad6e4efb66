use portwatch::parse::{
    dedup_services, parse_discovery_output, parse_pid_value, parse_protocol_address_port,
    trim_value,
};
use portwatch::text::{parse_u16_bytes, parse_u32_bytes};
use portwatch::types::ServiceInfo;

fn info(process: &str, pid: Option<u32>, port: u16) -> ServiceInfo {
    ServiceInfo {
        port,
        process: Some(process.to_string()),
        pid,
        user: None,
        protocol: None,
        local_address: None,
        fd: None,
        type_field: None,
        device: None,
        size_off: None,
        node: None,
        command_line: None,
        exe_path: None,
        start_time: None,
        ppid: None,
    }
}

#[test]
fn parses_well_formed_lines_and_skips_header() {
    let out = b"COMMAND PID USER FD TYPE DEVICE SIZE/OFF NODE NAME\n\
nginx 123 root 6u IPv4 0x1 0t0 TCP *:80 (LISTEN)\n\
mysqld 456 mysql 8u IPv4 0x2 0t0 TCP 127.0.0.1:3306 (LISTEN)\n"
        .to_vec();
    let infos = parse_discovery_output(&out);
    assert_eq!(infos.len(), 2);
    assert_eq!(infos[0].port, 80);
    assert_eq!(infos[0].process.as_deref(), Some("nginx"));
    assert_eq!(infos[0].pid, Some(123));
    assert_eq!(infos[0].user.as_deref(), Some("root"));
    assert_eq!(infos[0].fd.as_deref(), Some("6u"));
    assert_eq!(infos[0].type_field.as_deref(), Some("IPv4"));
    assert_eq!(infos[0].device.as_deref(), Some("0x1"));
    assert_eq!(infos[0].size_off.as_deref(), Some("0t0"));
    assert_eq!(infos[0].node.as_deref(), Some("TCP"));
    assert_eq!(infos[0].local_address.as_deref(), Some("*"));
    assert_eq!(infos[0].command_line, None);
    assert_eq!(infos[0].ppid, None);
    assert_eq!(infos[1].port, 3306);
    assert_eq!(infos[1].process.as_deref(), Some("mysqld"));
    assert_eq!(infos[1].local_address.as_deref(), Some("127.0.0.1"));
}

#[test]
fn drops_short_and_unparsable_lines() {
    let out = b"HEADER\n\
short line with too few columns\n\
proc 1 u 1u IPv4 0x0 0t0 TCP *:notaport (LISTEN)\n\
good 2 u 1u IPv4 0x0 0t0 TCP *:22 (LISTEN)\n"
        .to_vec();
    let infos = parse_discovery_output(&out);
    assert_eq!(infos.len(), 1);
    assert_eq!(infos[0].port, 22);
    assert_eq!(infos[0].process.as_deref(), Some("good"));
}

#[test]
fn empty_output_yields_no_records() {
    let infos = parse_discovery_output(&Vec::new());
    assert_eq!(infos.len(), 0);
    let header_only = parse_discovery_output(&b"COMMAND PID\n".to_vec());
    assert_eq!(header_only.len(), 0);
}

#[test]
fn name_column_with_protocol_prefix() {
    let (proto, addr, port) = parse_protocol_address_port("TCP/1.2.3.4:8080");
    assert_eq!(proto.as_deref(), Some("TCP"));
    assert_eq!(addr.as_deref(), Some("1.2.3.4"));
    assert_eq!(port, Some(8080));
}

#[test]
fn name_column_without_slash_keeps_whole_token_as_protocol() {
    let (proto, addr, port) = parse_protocol_address_port("*:443");
    assert_eq!(proto.as_deref(), Some("*:443"));
    assert_eq!(addr.as_deref(), Some("*"));
    assert_eq!(port, Some(443));
}

#[test]
fn name_column_with_ipv6_style_address_splits_at_last_colon() {
    let (_, addr, port) = parse_protocol_address_port("[::1]:80");
    assert_eq!(addr.as_deref(), Some("[::1]"));
    assert_eq!(port, Some(80));
}

#[test]
fn name_column_without_colon_has_no_address_or_port() {
    let (proto, addr, port) = parse_protocol_address_port("abc");
    assert_eq!(proto.as_deref(), Some("abc"));
    assert_eq!(addr, None);
    assert_eq!(port, None);
}

#[test]
fn name_column_empty_yields_nothing() {
    let (proto, addr, port) = parse_protocol_address_port("   ");
    assert_eq!(proto, None);
    assert_eq!(addr, None);
    assert_eq!(port, None);
}

#[test]
fn dedup_keeps_first_occurrence_and_order() {
    let v = vec![
        info("a", Some(1), 80),
        info("b", Some(2), 443),
        info("a", Some(1), 80),
        info("a", Some(1), 81),
    ];
    let d = dedup_services(&v);
    assert_eq!(d.len(), 3);
    assert_eq!(d[0].process.as_deref(), Some("a"));
    assert_eq!(d[0].port, 80);
    assert_eq!(d[1].process.as_deref(), Some("b"));
    assert_eq!(d[2].port, 81);
}

#[test]
fn dedup_distinguishes_differing_pids() {
    let v = vec![info("a", Some(1), 80), info("a", Some(2), 80), info("a", None, 80)];
    let d = dedup_services(&v);
    assert_eq!(d.len(), 3);
}

#[test]
fn trims_detail_values() {
    assert_eq!(trim_value("  /usr/bin/nginx -g daemon off;  \n"), "/usr/bin/nginx -g daemon off;");
    assert_eq!(trim_value("\t\n "), "");
    assert_eq!(trim_value("plain"), "plain");
}

#[test]
fn parses_pid_detail_values() {
    assert_eq!(parse_pid_value("  42\n"), Some(42));
    assert_eq!(parse_pid_value("nope"), None);
    assert_eq!(parse_pid_value(""), None);
    assert_eq!(parse_pid_value("4294967295"), Some(u32::MAX));
    assert_eq!(parse_pid_value("4294967296"), None);
}

#[test]
fn port_parse_edges() {
    assert_eq!(parse_u16_bytes(&b"65535".to_vec()), Some(65535));
    assert_eq!(parse_u16_bytes(&b"65536".to_vec()), None);
    assert_eq!(parse_u16_bytes(&b"+80".to_vec()), Some(80));
    assert_eq!(parse_u16_bytes(&b"+".to_vec()), None);
    assert_eq!(parse_u16_bytes(&b"".to_vec()), None);
    assert_eq!(parse_u16_bytes(&b"-1".to_vec()), None);
    assert_eq!(parse_u16_bytes(&b"007".to_vec()), Some(7));
    assert_eq!(parse_u32_bytes(&b"123abc".to_vec()), None);
}
