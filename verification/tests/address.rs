use hosts_editor::address::is_valid_address;

#[test]
fn valid_ipv4_literals() {
    assert!(is_valid_address("127.0.0.1"));
    assert!(is_valid_address("0.0.0.0"));
    assert!(is_valid_address("255.255.255.255"));
    assert!(is_valid_address("1.2.3.4"));
    assert!(is_valid_address("192.168.0.1"));
}

#[test]
fn invalid_ipv4_literals() {
    assert!(!is_valid_address(""));
    assert!(!is_valid_address("1.2.3"));
    assert!(!is_valid_address("1.2.3.4.5"));
    assert!(!is_valid_address("256.1.1.1"));
    assert!(!is_valid_address("01.2.3.4"));
    assert!(!is_valid_address("1.2.3.04"));
    assert!(!is_valid_address("1.2.3.4x"));
    assert!(!is_valid_address("notanip"));
    assert!(!is_valid_address("1..2.3"));
    assert!(!is_valid_address("1.2.3."));
    assert!(!is_valid_address("1234.1.1.1"));
}

#[test]
fn valid_ipv6_literals() {
    assert!(is_valid_address("::"));
    assert!(is_valid_address("::1"));
    assert!(is_valid_address("1::"));
    assert!(is_valid_address("fe80::1"));
    assert!(is_valid_address("1:2:3:4:5:6:7:8"));
    assert!(is_valid_address("2001:0db8:0000:0000:0000:ff00:0042:8329"));
    assert!(is_valid_address("FE80::A"));
    assert!(is_valid_address("::ffff:192.168.1.1"));
    assert!(is_valid_address("1:2:3:4:5:6:192.168.0.1"));
    assert!(is_valid_address("1:2:3:4:5:6:7::"));
    assert!(is_valid_address("::1:2:3:4:5:6:7"));
}

#[test]
fn invalid_ipv6_literals() {
    assert!(!is_valid_address(":"));
    assert!(!is_valid_address(":::"));
    assert!(!is_valid_address("1"));
    assert!(!is_valid_address("1:2:3:4:5:6:7"));
    assert!(!is_valid_address("1:2:3:4:5:6:7:8:9"));
    assert!(!is_valid_address("1::2::3"));
    assert!(!is_valid_address("1:2:3:4:5:6:7::8"));
    assert!(!is_valid_address("::1:2:3:4:5:6:7:8"));
    assert!(!is_valid_address("12345::"));
    assert!(!is_valid_address("g::1"));
    assert!(!is_valid_address("fe80::1%eth0"));
    assert!(!is_valid_address("1:2:3:4:5:1.2.3.4"));
    assert!(!is_valid_address("1:2:3:4:5:6:7:1.2.3.4"));
}
