use ip_traffic_monitor::rate::{parse_rate_chars, rate_interval_bytes};
use ip_traffic_monitor::text::str_to_chars;

fn rate_of(s: &str) -> Option<f64> {
    let chars = str_to_chars(s);
    parse_rate_chars(&chars).map(|r| r.num as f64 / r.den as f64)
}

#[test]
fn rate_units() {
    assert_eq!(rate_of("500Kb"), Some(64000.0));
    assert_eq!(rate_of("2Mb"), Some(262144.0));
    assert_eq!(rate_of("10B"), Some(10.0));
    assert_eq!(rate_of("0"), Some(0.0));
    assert_eq!(rate_of("16"), Some(2.0));
}

#[test]
fn rate_more_forms() {
    assert_eq!(rate_of(""), Some(0.0));
    assert_eq!(rate_of("  0  "), Some(0.0));
    assert_eq!(rate_of("8b"), Some(1.0));
    assert_eq!(rate_of("1Gb"), Some(134217728.0));
    assert_eq!(rate_of("1.5Kb"), Some(192.0));
    assert_eq!(rate_of("0.5Mb"), Some(65536.0));
    assert_eq!(rate_of("3.25B"), Some(3.25));
}

#[test]
fn rate_rejects_bad_text() {
    assert_eq!(rate_of("abc"), None);
    assert_eq!(rate_of("1.2.3Kb"), None);
    assert_eq!(rate_of(".Kb"), None);
    assert_eq!(rate_of("-5Kb"), None);
    assert_eq!(rate_of("Kb"), None);
}

#[test]
fn interval_byte_counts() {
    let chars = str_to_chars("500Kb");
    let r = parse_rate_chars(&chars).unwrap();
    assert_eq!(rate_interval_bytes(&r, 2), 128000);
    assert_eq!(rate_interval_bytes(&r, 0), 0);
    let chars = str_to_chars("3.25B");
    let r = parse_rate_chars(&chars).unwrap();
    // 3.25 bytes/sec over 2 seconds truncates to 6 bytes.
    assert_eq!(rate_interval_bytes(&r, 2), 6);
}
