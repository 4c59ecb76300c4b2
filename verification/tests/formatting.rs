use ip_traffic_monitor::snapshot::Snapshot;
use ip_traffic_monitor::stats::{format_bytes, TrafficStats};

#[test]
fn byte_counts_scale_to_units() {
    assert_eq!(format_bytes(0), "0 B");
    assert_eq!(format_bytes(512), "512 B");
    assert_eq!(format_bytes(1023), "1023 B");
    assert_eq!(format_bytes(1024), "1.00 KB");
    assert_eq!(format_bytes(1536), "1.50 KB");
    assert_eq!(format_bytes(10 * 1024 * 1024), "10.00 MB");
    assert_eq!(format_bytes(1024 * 1024 * 1024), "1.00 GB");
    assert_eq!(format_bytes(5 * 1024 * 1024 * 1024 + 512 * 1024 * 1024), "5.50 GB");
}

#[test]
fn counters_add_field_wise() {
    let a = TrafficStats { tx_bytes: 1, rx_bytes: 2, tx_packets: 3, rx_packets: 4 };
    let b = TrafficStats { tx_bytes: 10, rx_bytes: 20, tx_packets: 30, rx_packets: 40 };
    let c = a.add(&b);
    assert_eq!((c.tx_bytes, c.rx_bytes, c.tx_packets, c.rx_packets), (11, 22, 33, 44));
    let d = b.add(&a);
    assert_eq!(c, d);
}

#[test]
fn counters_saturate_instead_of_wrapping() {
    let a = TrafficStats { tx_bytes: u64::MAX - 1, rx_bytes: 0, tx_packets: 0, rx_packets: 0 };
    let b = TrafficStats { tx_bytes: 5, rx_bytes: 0, tx_packets: 0, rx_packets: 0 };
    assert_eq!(a.add(&b).tx_bytes, u64::MAX);
}

#[test]
fn default_counters_are_zero() {
    let z = TrafficStats::default();
    assert_eq!((z.tx_bytes, z.rx_bytes, z.tx_packets, z.rx_packets), (0, 0, 0, 0));
}

#[test]
fn snapshot_insert_and_replace() {
    let mut s = Snapshot::new();
    assert_eq!(s.len(), 0);
    s.put("8.8.8.8", TrafficStats { tx_bytes: 1, rx_bytes: 0, tx_packets: 0, rx_packets: 0 });
    s.put("9.9.9.9", TrafficStats { tx_bytes: 2, rx_bytes: 0, tx_packets: 0, rx_packets: 0 });
    assert_eq!(s.len(), 2);
    s.put("8.8.8.8", TrafficStats { tx_bytes: 7, rx_bytes: 0, tx_packets: 0, rx_packets: 0 });
    assert_eq!(s.len(), 2);
    assert_eq!(s.get("8.8.8.8").unwrap().tx_bytes, 7);
    assert_eq!(s.key_at(0), "8.8.8.8");
    assert_eq!(s.key_at(1), "9.9.9.9");
}

#[test]
fn snapshot_add_assign_creates_and_adds() {
    let mut s = Snapshot::new();
    let d = TrafficStats { tx_bytes: 3, rx_bytes: 1, tx_packets: 0, rx_packets: 0 };
    s.add_assign("8.8.8.8", &d);
    s.add_assign("8.8.8.8", &d);
    let st = s.get("8.8.8.8").unwrap();
    assert_eq!((st.tx_bytes, st.rx_bytes), (6, 2));
}
