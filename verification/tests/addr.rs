use ippool::addr::{dec_string, ip_string, is_ipv4_literal, is_valid_ip, parse_host, str_eq};

#[test]
fn test_ipv4_literal_accepts_well_formed_addresses() {
    assert!(is_ipv4_literal("0.0.0.0"));
    assert!(is_ipv4_literal("1.2.3.4"));
    assert!(is_ipv4_literal("172.16.0.1"));
    assert!(is_ipv4_literal("255.255.255.255"));
    assert!(is_ipv4_literal("10.0.0.254"));
}

#[test]
fn test_ipv4_literal_rejects_malformed_addresses() {
    assert!(!is_ipv4_literal(""));
    assert!(!is_ipv4_literal("1.2.3"));
    assert!(!is_ipv4_literal("1.2.3.4.5"));
    assert!(!is_ipv4_literal("300.1.1.1"));
    assert!(!is_ipv4_literal("1.2.3.256"));
    assert!(!is_ipv4_literal("01.2.3.4"));
    assert!(!is_ipv4_literal("1.2.3.04"));
    assert!(!is_ipv4_literal("1..3.4"));
    assert!(!is_ipv4_literal("1.2.3."));
    assert!(!is_ipv4_literal(".1.2.3"));
    assert!(!is_ipv4_literal("1.2.3.4 "));
    assert!(!is_ipv4_literal("a.b.c.d"));
    assert!(!is_ipv4_literal("1234.1.1.1"));
}

#[test]
fn test_is_valid_ip_checks_network_prefix() {
    assert!(is_valid_ip("172.16.0", "172.16.0.2"));
    assert!(is_valid_ip("172.16.0", "172.16.0.254"));
    assert!(!is_valid_ip("172.16.0", "172.16.1.2"));
    assert!(!is_valid_ip("172.16.0", "192.168.0.2"));
    assert!(!is_valid_ip("172.16.0", "172.16.0"));
    assert!(!is_valid_ip("172.16.0", "172.16.0.999"));
    // The dot after the prefix matters: "172.16.01" does not continue the
    // prefix "172.16.0".
    assert!(!is_valid_ip("172.16.0", "172.16.01"));
}

#[test]
fn test_dec_string_is_canonical() {
    assert_eq!(dec_string(0), "0");
    assert_eq!(dec_string(7), "7");
    assert_eq!(dec_string(10), "10");
    assert_eq!(dec_string(42), "42");
    assert_eq!(dec_string(100), "100");
    assert_eq!(dec_string(254), "254");
    assert_eq!(dec_string(255), "255");
}

#[test]
fn test_ip_string_joins_prefix_and_host() {
    assert_eq!(ip_string("172.16.0", 2), "172.16.0.2");
    assert_eq!(ip_string("10.0.0", 254), "10.0.0.254");
}

#[test]
fn test_parse_host_accepts_only_canonical_decimals() {
    assert_eq!(parse_host("0"), Some(0));
    assert_eq!(parse_host("2"), Some(2));
    assert_eq!(parse_host("42"), Some(42));
    assert_eq!(parse_host("254"), Some(254));
    assert_eq!(parse_host("255"), Some(255));
    assert_eq!(parse_host("256"), None);
    assert_eq!(parse_host("02"), None);
    assert_eq!(parse_host(""), None);
    assert_eq!(parse_host("1234"), None);
    assert_eq!(parse_host("4x"), None);
}

#[test]
fn test_str_eq_compares_by_content() {
    assert!(str_eq("vm-1", "vm-1"));
    assert!(!str_eq("vm-1", "vm-2"));
    assert!(!str_eq("vm-1", "vm-10"));
    assert!(str_eq("", ""));
}
