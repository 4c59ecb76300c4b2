use ip_traffic_monitor::export::{escape_label, sorted_report_indices, Accumulator, GeoInfo};
use ip_traffic_monitor::push::PushParser;
use ip_traffic_monitor::snapshot::Snapshot;
use ip_traffic_monitor::stats::TrafficStats;

fn stats(tx_bytes: u64, rx_bytes: u64) -> TrafficStats {
    TrafficStats { tx_bytes, rx_bytes, tx_packets: 0, rx_packets: 0 }
}

fn snap(entries: &[(&str, u64, u64)]) -> Snapshot {
    let mut s = Snapshot::new();
    for (ip, tx, rx) in entries {
        s.put(ip, stats(*tx, *rx));
    }
    s
}

#[test]
fn merge_accumulates_per_ip() {
    let mut acc = Accumulator::new();
    acc.merge(&snap(&[("1.2.3.4", 10, 1)]));
    acc.merge(&snap(&[("1.2.3.4", 5, 2), ("5.6.7.8", 20, 0)]));
    let a = acc.totals_get("1.2.3.4").unwrap();
    assert_eq!((a.tx_bytes, a.rx_bytes), (15, 3));
    let b = acc.totals_get("5.6.7.8").unwrap();
    assert_eq!((b.tx_bytes, b.rx_bytes), (20, 0));
    assert!(acc.totals_get("9.9.9.9").is_none());
}

#[test]
fn merge_order_does_not_change_totals() {
    let a = snap(&[("1.1.1.1", 10, 5), ("2.2.2.2", 3, 0)]);
    let b = snap(&[("2.2.2.2", 7, 1), ("3.3.3.3", 0, 9)]);
    let mut ab = Accumulator::new();
    ab.merge(&a);
    ab.merge(&b);
    let mut ba = Accumulator::new();
    ba.merge(&b);
    ba.merge(&a);
    for ip in ["1.1.1.1", "2.2.2.2", "3.3.3.3"] {
        let x = ab.totals_get(ip).unwrap();
        let y = ba.totals_get(ip).unwrap();
        assert_eq!((x.tx_bytes, x.rx_bytes), (y.tx_bytes, y.rx_bytes));
        assert_eq!((x.tx_packets, x.rx_packets), (y.tx_packets, y.rx_packets));
    }
}

#[test]
fn render_threshold_is_strict() {
    let mut acc = Accumulator::new();
    acc.merge(&snap(&[("1.2.3.4", 1000, 0), ("5.6.7.8", 1001, 0)]));
    let doc = acc.get_ip_traffic_metrics(1000).unwrap();
    assert!(!doc.contains("1.2.3.4"));
    assert!(doc.contains("ip_traffic_tx_bytes_total{remote_ip=\"5.6.7.8\""));
}

#[test]
fn render_series_are_independent() {
    let mut acc = Accumulator::new();
    acc.merge(&snap(&[("1.2.3.4", 50, 5), ("5.6.7.8", 5, 50)]));
    let doc = acc.get_ip_traffic_metrics(10).unwrap();
    assert!(doc.contains("ip_traffic_tx_bytes_total{remote_ip=\"1.2.3.4\""));
    assert!(!doc.contains("ip_traffic_rx_bytes_total{remote_ip=\"1.2.3.4\""));
    assert!(!doc.contains("ip_traffic_tx_bytes_total{remote_ip=\"5.6.7.8\""));
    assert!(doc.contains("ip_traffic_rx_bytes_total{remote_ip=\"5.6.7.8\""));
}

#[test]
fn render_uses_cached_geo_labels() {
    let mut acc = Accumulator::new();
    acc.merge(&snap(&[("8.8.8.8", 100, 0)]));
    let need = acc.ips_needing_geo(0);
    assert_eq!(need, vec!["8.8.8.8".to_string()]);
    acc.insert_geo(
        "8.8.8.8",
        GeoInfo {
            country: "Testland".to_string(),
            province: "Ex \"Prov\"".to_string(),
            city: "City".to_string(),
            isp: "Net".to_string(),
        },
    );
    assert_eq!(acc.ips_needing_geo(0), Vec::<String>::new());
    let doc = acc.get_ip_traffic_metrics(0).unwrap();
    assert!(doc.contains(
        "ip_traffic_tx_bytes_total{remote_ip=\"8.8.8.8\",country=\"Testland\",province=\"Ex \\\"Prov\\\"\",city=\"City\",isp=\"Net\"} 100\n"
    ));
}

#[test]
fn two_push_cycles_end_to_end() {
    let mut p = PushParser::new();
    let mut acc = Accumulator::new();
    let cycle1 = [
        "BPFTRACE_MONITOR_START",
        "STATS_UPDATE",
        "TX_BYTES:",
        "@tx_bytes[1.2.3.4]: 10",
        "STATS_END",
    ];
    let cycle2 = [
        "STATS_UPDATE",
        "TX_BYTES:",
        "@tx_bytes[1.2.3.4]: 5",
        "@tx_bytes[5.6.7.8]: 20",
        "STATS_END",
    ];
    for line in cycle1 {
        if let Some(s) = p.step(line) {
            acc.merge(&s);
        }
    }
    for line in cycle2 {
        if let Some(s) = p.step(line) {
            acc.merge(&s);
        }
    }
    let doc = acc.get_ip_traffic_metrics(0).unwrap();
    assert!(doc.contains(
        "ip_traffic_tx_bytes_total{remote_ip=\"1.2.3.4\",country=\"Unknown\",province=\"Unknown\",city=\"Unknown\",isp=\"Unknown\"} 15\n"
    ));
    assert!(doc.contains(
        "ip_traffic_tx_bytes_total{remote_ip=\"5.6.7.8\",country=\"Unknown\",province=\"Unknown\",city=\"Unknown\",isp=\"Unknown\"} 20\n"
    ));
    assert!(doc.starts_with("# HELP ip_traffic_tx_bytes_total"));
    assert!(doc.contains("# TYPE ip_traffic_rx_bytes_total counter\n"));
}

#[test]
fn escape_label_escapes_specials() {
    assert_eq!(escape_label("plain"), "plain");
    assert_eq!(escape_label("a\\b"), "a\\\\b");
    assert_eq!(escape_label("a\"b"), "a\\\"b");
    assert_eq!(escape_label("a\nb"), "a\\nb");
    assert_eq!(escape_label(""), "");
}

#[test]
fn report_order_is_stable_descending() {
    // Combined deltas: 30, 40, 40, 0 (the silent entry drops out).
    let s = snap(&[("1.1.1.1", 30, 0), ("2.2.2.2", 20, 20), ("3.3.3.3", 40, 0), ("4.4.4.4", 0, 0)]);
    let order = sorted_report_indices(&s);
    assert_eq!(order, vec![1, 2, 0]);
}

#[test]
fn report_lines_show_delta_totals_and_identity() {
    let mut acc = Accumulator::new();
    let s = snap(&[("8.8.8.8", 1024, 0)]);
    acc.merge(&s);
    acc.merge(&snap(&[("8.8.8.8", 1024, 0)]));
    let idents = vec![(Some(42), Some("curl".to_string()))];
    let order = sorted_report_indices(&s);
    let lines = acc.cycle_report(&s, &idents, &order);
    assert_eq!(lines.len(), 1);
    assert_eq!(
        lines[0],
        "  IP: 8.8.8.8 | TX: 1.00 KB | RX: 0 B | total TX: 2.00 KB | total RX: 0 B | PID: 42 (curl)"
    );
}

#[test]
fn report_identity_fallbacks() {
    let mut acc = Accumulator::new();
    let s = snap(&[("8.8.8.8", 1, 0), ("9.9.9.9", 2, 0)]);
    acc.merge(&s);
    let idents = vec![(Some(7), None), (None, None)];
    let order = vec![0usize, 1usize];
    let lines = acc.cycle_report(&s, &idents, &order);
    assert!(lines[0].ends_with("| PID: 7"));
    assert!(lines[1].ends_with("| PID: 0"));
}
