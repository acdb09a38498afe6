use netsim::ip::{IpError, IP};
use netsim::mac::MAC;

#[test]
fn parse_then_format_round_trip() {
    let ip = IP::from_string("192.168.1.10").unwrap();
    assert_eq!(ip, IP::V4(192, 168, 1, 10));
    assert_eq!(ip.to_ddn(), "192.168.1.10");
}

#[test]
fn format_then_parse_gives_the_address_back() {
    let samples = vec![
        IP::V4(0, 0, 0, 0),
        IP::V4(255, 255, 255, 255),
        IP::V4(10, 0, 0, 1),
        IP::V4(9, 99, 100, 199),
        IP::V4(127, 0, 0, 1),
    ];
    for ip in samples {
        assert_eq!(IP::from_string(&ip.to_ddn()), Some(ip));
    }
}

#[test]
fn dotted_decimal_has_no_leading_zeros() {
    assert_eq!(IP::V4(0, 7, 70, 200).to_ddn(), "0.7.70.200");
}

#[test]
fn parse_accepts_leading_zeros_and_plus() {
    assert_eq!(IP::from_string("010.001.000.0255"), Some(IP::V4(10, 1, 0, 255)));
    assert_eq!(IP::from_string("+1.+2.+3.+4"), Some(IP::V4(1, 2, 3, 4)));
}

#[test]
fn parse_rejects_malformed_text() {
    assert_eq!(IP::from_string(""), None);
    assert_eq!(IP::from_string("1.2.3"), None);
    assert_eq!(IP::from_string("1.2.3.4.5"), None);
    assert_eq!(IP::from_string("1.2.3."), None);
    assert_eq!(IP::from_string(".1.2.3"), None);
    assert_eq!(IP::from_string("1..2.3"), None);
    assert_eq!(IP::from_string("256.0.0.1"), None);
    assert_eq!(IP::from_string("1.2.3.1000"), None);
    assert_eq!(IP::from_string("1.2.3.-4"), None);
    assert_eq!(IP::from_string("1.2.3.+"), None);
    assert_eq!(IP::from_string("a.b.c.d"), None);
    assert_eq!(IP::from_string("1.2.3.4 "), None);
    assert_eq!(IP::from_string("1.2.3.٤"), None);
}

#[test]
fn dotted_binary_form() {
    assert_eq!(
        IP::V4(192, 168, 1, 10).to_bin_ddn(),
        "11000000.10101000.00000001.00001010"
    );
    assert_eq!(
        IP::V4(0, 255, 128, 1).to_bin_ddn(),
        "00000000.11111111.10000000.00000001"
    );
}

#[test]
fn order_is_most_significant_octet_first() {
    assert!(IP::V4(2, 0, 0, 0).is_greater_than(&IP::V4(1, 255, 255, 255)));
    assert!(IP::V4(1, 2, 0, 0).is_greater_than(&IP::V4(1, 1, 255, 255)));
    assert!(IP::V4(1, 1, 2, 0).is_greater_than(&IP::V4(1, 1, 1, 255)));
    assert!(IP::V4(1, 1, 1, 2).is_greater_than(&IP::V4(1, 1, 1, 1)));
    assert!(!IP::V4(1, 1, 1, 1).is_greater_than(&IP::V4(1, 1, 1, 1)));
    assert!(!IP::V4(1, 255, 255, 255).is_greater_than(&IP::V4(2, 0, 0, 0)));
}

#[test]
fn increment_steps_the_last_octet() {
    let mut ip = IP::V4(10, 0, 0, 1);
    assert!(ip.increment().is_ok());
    assert_eq!(ip, IP::V4(10, 0, 0, 2));
}

#[test]
fn increment_carries() {
    let mut ip = IP::V4(10, 0, 0, 255);
    assert!(ip.increment().is_ok());
    assert_eq!(ip, IP::V4(10, 0, 1, 0));
    let mut ip = IP::V4(10, 0, 255, 255);
    assert!(ip.increment().is_ok());
    assert_eq!(ip, IP::V4(10, 1, 0, 0));
    let mut ip = IP::V4(10, 255, 255, 255);
    assert!(ip.increment().is_ok());
    assert_eq!(ip, IP::V4(11, 0, 0, 0));
}

#[test]
fn increment_result_is_greater() {
    let before = IP::V4(172, 16, 255, 255);
    let mut after = before;
    assert!(after.increment().is_ok());
    assert!(after.is_greater_than(&before));
}

#[test]
fn increment_fails_at_the_last_address() {
    let mut ip = IP::V4(255, 255, 255, 255);
    assert_eq!(ip.increment(), Err(IpError::MaxIPReached));
    assert_eq!(ip, IP::V4(255, 255, 255, 255));
}

#[test]
fn mask_of_prefix_length() {
    assert_eq!(IP::from_cidr(0), IP::V4(0, 0, 0, 0));
    assert_eq!(IP::from_cidr(1), IP::V4(128, 0, 0, 0));
    assert_eq!(IP::from_cidr(8), IP::V4(255, 0, 0, 0));
    assert_eq!(IP::from_cidr(12), IP::V4(255, 240, 0, 0));
    assert_eq!(IP::from_cidr(24), IP::V4(255, 255, 255, 0));
    assert_eq!(IP::from_cidr(30), IP::V4(255, 255, 255, 252));
    assert_eq!(IP::from_cidr(32), IP::V4(255, 255, 255, 255));
    assert_eq!(IP::from_cidr(200), IP::V4(255, 255, 255, 255));
}

#[test]
fn identity_parse_and_format() {
    let mac = MAC::from_string("00:1a:2B:3c:4D:ff").unwrap();
    assert_eq!(mac, MAC::EUI48(0x00, 0x1A, 0x2B, 0x3C, 0x4D, 0xFF));
    assert_eq!(mac.to_hex(), "00:1A:2B:3C:4D:FF");
}

#[test]
fn identity_round_trip() {
    let samples = vec![
        MAC::EUI48(0, 0, 0, 0, 0, 0),
        MAC::EUI48(255, 255, 255, 255, 255, 255),
        MAC::EUI48(1, 35, 69, 103, 137, 171),
        MAC::EUI48(9, 10, 15, 16, 159, 160),
    ];
    for mac in samples {
        assert_eq!(MAC::from_string(&mac.to_hex()), Some(mac));
    }
}

#[test]
fn identity_parse_rejects_malformed_text() {
    assert_eq!(MAC::from_string(""), None);
    assert_eq!(MAC::from_string("00:11:22:33:44"), None);
    assert_eq!(MAC::from_string("00:11:22:33:44:55:66"), None);
    assert_eq!(MAC::from_string("00:11:22:33:44:5"), None);
    assert_eq!(MAC::from_string("00:11:22:33:44:555"), None);
    assert_eq!(MAC::from_string("00:11:22:33:44:GG"), None);
    assert_eq!(MAC::from_string("00:11:22:33:44:+5"), None);
    assert_eq!(MAC::from_string("00-11-22-33-44-55"), None);
    assert_eq!(MAC::from_string("00:11:22:33:44:55:"), None);
}

#[test]
fn identity_equality_is_octet_wise() {
    assert_eq!(MAC::EUI48(1, 2, 3, 4, 5, 6), MAC::EUI48(1, 2, 3, 4, 5, 6));
    assert_ne!(MAC::EUI48(1, 2, 3, 4, 5, 6), MAC::EUI48(1, 2, 3, 4, 5, 7));
}

#[test]
fn fresh_identities_are_drawn() {
    let mut seen = Vec::new();
    for _ in 0..8 {
        seen.push(MAC::new());
    }
    let first = seen[0];
    assert!(seen.iter().any(|m| *m != first));
}
