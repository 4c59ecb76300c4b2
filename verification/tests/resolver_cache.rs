use ip_traffic_monitor::resolver::{
    parse_proc_net_tcp, ipv4_to_string, PidQuery, Resolver, PID_CACHE_TTL_SECS,
    TCP_CACHE_TTL_SECS,
};

#[test]
fn pid_cache_honors_ttl_window() {
    let t = 1000u64;
    let mut r = Resolver::new();
    r.record_pid("8.8.8.8", Some(42), t);
    // One second before expiry the entry answers.
    assert_eq!(r.pid_cache_lookup("8.8.8.8", t + PID_CACHE_TTL_SECS - 1), Some(Some(42)));
    // One second after expiry it is a miss and gets re-resolved.
    let mut r2 = Resolver::new();
    r2.record_pid("8.8.8.8", Some(42), t);
    assert_eq!(r2.pid_cache_lookup("8.8.8.8", t + PID_CACHE_TTL_SECS + 1), None);
    // The expired entry was dropped, not refreshed: still a miss now.
    assert_eq!(r2.pid_cache_lookup("8.8.8.8", t + PID_CACHE_TTL_SECS + 1), None);
}

#[test]
fn pid_cache_stores_not_found() {
    let mut r = Resolver::new();
    r.record_pid("8.8.8.8", None, 50);
    assert_eq!(r.pid_cache_lookup("8.8.8.8", 51), Some(None));
    assert_eq!(r.pid_cache_lookup("9.9.9.9", 51), None);
}

#[test]
fn resolution_steps_walk_the_layers() {
    let now = 100u64;
    let mut r = Resolver::new();
    // Nothing cached and no connection table yet: it must be rebuilt.
    assert_eq!(r.get_pid_for_ip("8.8.8.8", now), PidQuery::NeedTcpMap);
    r.set_tcp_map(vec![("8.8.8.8".to_string(), 777u32)], now);
    // The table knows the IP: the expensive process scan is next.
    assert_eq!(r.get_pid_for_ip("8.8.8.8", now), PidQuery::NeedInodeScan(777));
    r.record_pid("8.8.8.8", Some(42), now);
    // Now the answer comes straight from the cache.
    assert_eq!(r.get_pid_for_ip("8.8.8.8", now), PidQuery::Cached(Some(42)));
    // An IP the fresh table does not hold resolves to an explicit
    // not-found, which is itself cached.
    assert_eq!(r.get_pid_for_ip("9.9.9.9", now), PidQuery::Cached(None));
    assert_eq!(r.pid_cache_lookup("9.9.9.9", now), Some(None));
}

#[test]
fn tcp_table_goes_stale() {
    let mut r = Resolver::new();
    r.set_tcp_map(vec![("8.8.8.8".to_string(), 777u32)], 100);
    assert_eq!(r.get_pid_for_ip("8.8.8.8", 100 + TCP_CACHE_TTL_SECS - 1), PidQuery::NeedInodeScan(777));
    assert_eq!(
        r.get_pid_for_ip("8.8.8.8", 100 + TCP_CACHE_TTL_SECS + 1),
        PidQuery::NeedTcpMap
    );
}

#[test]
fn tcp_last_entry_wins() {
    let mut r = Resolver::new();
    r.set_tcp_map(
        vec![("8.8.8.8".to_string(), 1u32), ("8.8.8.8".to_string(), 2u32)],
        100,
    );
    assert_eq!(r.get_pid_for_ip("8.8.8.8", 100), PidQuery::NeedInodeScan(2));
}

#[test]
fn name_cache_remembers_names() {
    let mut r = Resolver::new();
    assert!(r.name_cache_lookup(42).is_none());
    r.record_name(42, "curl".to_string());
    assert_eq!(r.name_cache_lookup(42).as_deref(), Some("curl"));
    assert!(r.name_cache_lookup(43).is_none());
}

#[test]
fn kernel_table_parses_little_endian_addresses() {
    let content = "  sl  local_address rem_address   st tx_queue rx_queue tr tm->when retrnsmt   uid  timeout inode\n   0: 0100007F:0016 0808080A:01BB 01 00000000:00000000 00:00000000 00000000     0        0 12345 1 0000000000000000\n   1: bad line\n";
    let entries = parse_proc_net_tcp(content);
    assert_eq!(entries.len(), 1);
    assert_eq!(entries[0].0, "10.8.8.8");
    assert_eq!(entries[0].1, 12345);
}

#[test]
fn dotted_quad_rendering() {
    assert_eq!(ipv4_to_string(127, 0, 0, 1), "127.0.0.1");
    assert_eq!(ipv4_to_string(0, 0, 0, 0), "0.0.0.0");
    assert_eq!(ipv4_to_string(255, 255, 255, 255), "255.255.255.255");
}
