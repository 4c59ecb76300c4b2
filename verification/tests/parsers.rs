use ip_traffic_monitor::pull::{parse_local_ip, IftopMonitor};
use ip_traffic_monitor::push::{BpftraceMonitor, PushParser};

#[test]
fn push_one_cycle() {
    let mut p = PushParser::new();
    assert!(p.step("BPFTRACE_MONITOR_START").is_none());
    assert!(p.step("STATS_UPDATE").is_none());
    assert!(p.step("TX_BYTES:").is_none());
    assert!(p.step("@tx_bytes[8.8.8.8]: 100").is_none());
    // A private key under the same section is dropped.
    assert!(p.step("@tx_bytes[10.0.0.1]: 50").is_none());
    let snap = p.step("STATS_END").expect("cycle must emit one snapshot");
    assert_eq!(snap.len(), 1);
    let st = snap.get("8.8.8.8").unwrap();
    assert_eq!(st.tx_bytes, 100);
    assert_eq!(st.rx_bytes, 0);
    assert_eq!(st.tx_packets, 0);
    assert_eq!(st.rx_packets, 0);
    assert!(snap.get("10.0.0.1").is_none());
}

#[test]
fn push_ignores_lines_before_start() {
    let mut p = PushParser::new();
    assert!(p.step("TX_BYTES:").is_none());
    assert!(p.step("@tx_bytes[8.8.8.8]: 100").is_none());
    assert!(p.step("STATS_END").is_none());
    assert!(p.step("BPFTRACE_MONITOR_START").is_none());
    assert!(p.step("TX_BYTES:").is_none());
    assert!(p.step("@tx_bytes[8.8.8.8]: 7").is_none());
    let snap = p.step("STATS_END").unwrap();
    assert_eq!(snap.get("8.8.8.8").unwrap().tx_bytes, 7);
}

#[test]
fn push_empty_cycle_emits_nothing() {
    let mut p = PushParser::new();
    p.step("BPFTRACE_MONITOR_START");
    p.step("STATS_UPDATE");
    p.step("TX_BYTES:");
    assert!(p.step("STATS_END").is_none());
}

#[test]
fn push_cycle_marker_resets_scratch() {
    let mut p = PushParser::new();
    p.step("BPFTRACE_MONITOR_START");
    p.step("TX_BYTES:");
    p.step("@tx_bytes[8.8.8.8]: 100");
    // A new cycle begins: the half-built map is discarded.
    p.step("STATS_UPDATE");
    p.step("TX_BYTES:");
    p.step("@tx_bytes[9.9.9.9]: 4");
    let snap = p.step("STATS_END").unwrap();
    assert_eq!(snap.len(), 1);
    assert!(snap.get("8.8.8.8").is_none());
    assert_eq!(snap.get("9.9.9.9").unwrap().tx_bytes, 4);
}

#[test]
fn push_sections_fill_fields() {
    let mut p = PushParser::new();
    p.step("BPFTRACE_MONITOR_START");
    p.step("STATS_UPDATE");
    p.step("TX_BYTES:");
    p.step("@tx_bytes[8.8.8.8]: 1");
    p.step("TX_PACKETS:");
    p.step("@tx_packets[8.8.8.8]: 2");
    p.step("RX_BYTES:");
    p.step("@rx_bytes[8.8.8.8]: 3");
    p.step("RX_PACKETS:");
    p.step("@rx_packets[8.8.8.8]: 4");
    let snap = p.step("STATS_END").unwrap();
    let st = snap.get("8.8.8.8").unwrap();
    assert_eq!((st.tx_bytes, st.tx_packets, st.rx_bytes, st.rx_packets), (1, 2, 3, 4));
}

#[test]
fn push_value_lines_need_a_section() {
    let mut p = PushParser::new();
    p.step("BPFTRACE_MONITOR_START");
    p.step("STATS_UPDATE");
    // No section header yet: the value line is ignored.
    p.step("@tx_bytes[8.8.8.8]: 100");
    assert!(p.step("STATS_END").is_none());
}

#[test]
fn generated_script_carries_interval() {
    let m = BpftraceMonitor::new(2, None);
    let script = m.generate_script();
    assert!(script.contains("interval:s:2 {"));
    assert!(script.contains("BPFTRACE_MONITOR_START"));
    assert!(script.contains("STATS_END"));
    assert_eq!(m.name(), "bpftrace");
}

#[test]
fn pull_two_line_record() {
    let mut m = IftopMonitor::new("eth0".to_string(), 2);
    assert_eq!(m.name(), "iftop");
    m.set_local_ip("192.168.1.100".to_string());
    let output = "   1 192.168.1.100 => 500Kb 0 0 0\n     8.8.8.8 <= 100B 0 0 0\n";
    let snap = m.parse_iftop_output(output);
    assert_eq!(snap.len(), 1);
    let st = snap.get("8.8.8.8").unwrap();
    assert_eq!(st.tx_bytes, 128000);
    assert_eq!(st.rx_bytes, 200);
    assert_eq!(st.tx_packets, 0);
    assert_eq!(st.rx_packets, 0);
}

#[test]
fn pull_requires_local_ip_on_first_line() {
    let mut m = IftopMonitor::new("eth0".to_string(), 2);
    m.set_local_ip("192.168.1.100".to_string());
    let output = "   1 192.168.1.99 => 500Kb 0 0 0\n     8.8.8.8 <= 100B 0 0 0\n";
    assert_eq!(m.parse_iftop_output(output).len(), 0);
}

#[test]
fn pull_drops_bad_remote_token() {
    let mut m = IftopMonitor::new("eth0".to_string(), 2);
    m.set_local_ip("192.168.1.100".to_string());
    let output = "   1 192.168.1.100 => 500Kb 0 0 0\n     not-an-ip <= 100B 0 0 0\n";
    assert_eq!(m.parse_iftop_output(output).len(), 0);
}

#[test]
fn pull_unparsable_inbound_rate_counts_as_zero() {
    let mut m = IftopMonitor::new("eth0".to_string(), 2);
    m.set_local_ip("192.168.1.100".to_string());
    let output = "   1 192.168.1.100 => 1Kb 0 0 0\n     8.8.8.8 <= what 0 0 0\n";
    let snap = m.parse_iftop_output(output);
    let st = snap.get("8.8.8.8").unwrap();
    assert_eq!(st.tx_bytes, 256);
    assert_eq!(st.rx_bytes, 0);
}

#[test]
fn pull_without_local_ip_is_empty() {
    let m = IftopMonitor::new("eth0".to_string(), 2);
    let output = "   1 192.168.1.100 => 500Kb 0 0 0\n     8.8.8.8 <= 100B 0 0 0\n";
    assert_eq!(m.parse_iftop_output(output).len(), 0);
}

#[test]
fn local_ip_from_address_tool_output() {
    let output = "2: eth0: <BROADCAST,MULTICAST,UP,LOWER_UP> mtu 1500\n    link/ether aa:bb:cc:dd:ee:ff brd ff:ff:ff:ff:ff:ff\n    inet 192.168.1.100/24 brd 192.168.1.255 scope global eth0\n    inet6 fe80::1/64 scope link\n";
    assert_eq!(parse_local_ip(output).as_deref(), Some("192.168.1.100"));
}

#[test]
fn local_ip_skips_loopback_line() {
    let output = "1: lo: <LOOPBACK,UP,LOWER_UP> mtu 65536\n    inet 127.0.0.1/8 scope host lo\n";
    assert_eq!(parse_local_ip(output), None);
}
