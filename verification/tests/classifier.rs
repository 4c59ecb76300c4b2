use ip_traffic_monitor::ip::is_public;

#[test]
fn private_and_special_ipv4_not_public() {
    assert!(!is_public("0.0.0.0"));
    assert!(!is_public("10.1.2.3"));
    assert!(!is_public("127.0.0.1"));
    assert!(!is_public("172.20.1.1"));
    assert!(!is_public("192.168.0.5"));
    assert!(!is_public("169.254.1.1"));
    assert!(!is_public("224.0.0.1"));
    assert!(!is_public("255.255.255.255"));
}

#[test]
fn special_ipv6_not_public() {
    assert!(!is_public("::1"));
    assert!(!is_public("fe80::1"));
    assert!(!is_public("fc00::1"));
    assert!(!is_public("::"));
    assert!(!is_public("ff02::1"));
    assert!(!is_public("fd12:3456::1"));
}

#[test]
fn public_addresses_are_public() {
    assert!(is_public("8.8.8.8"));
    assert!(is_public("2001:4860:4860::8888"));
    assert!(is_public("1.2.3.4"));
    assert!(is_public("223.255.255.255"));
    assert!(is_public("172.15.0.1"));
    assert!(is_public("172.32.0.1"));
    assert!(is_public("192.167.0.1"));
}

#[test]
fn unparsable_text_not_public() {
    assert!(!is_public(""));
    assert!(!is_public("hello"));
    assert!(!is_public("1.2.3"));
    assert!(!is_public("1.2.3.4.5"));
    assert!(!is_public("256.1.1.1"));
    assert!(!is_public("01.2.3.4"));
    assert!(!is_public("1.2.3.4 "));
    assert!(!is_public("1:2:3"));
    assert!(!is_public("1::2::3"));
    assert!(!is_public(":::"));
    assert!(!is_public("12345::1"));
    assert!(!is_public("1:2:3:4:5:6:7:8:9"));
    assert!(!is_public("g::1"));
}

#[test]
fn ipv6_textual_forms() {
    // Full form, elision in every position, and an embedded IPv4 tail.
    assert!(is_public("1:2:3:4:5:6:7:8"));
    assert!(is_public("1::8"));
    assert!(is_public("1:2:3:4:5:6::8"));
    assert!(!is_public("1:2:3:4:5:6:7::8"));
    assert!(is_public("2001:db8::1"));
    assert!(is_public("64:ff9b::192.0.2.33"));
    assert!(is_public("::ffff:10.0.0.1"));
    assert!(is_public("1:2:3:4:5:6:20.30.40.50"));
    assert!(!is_public("1:2:3:4:5:6:7:20.30.40.50"));
}
