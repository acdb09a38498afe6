use netsim::dhcp::{DhcpError, DHCP};
use netsim::ip::IP;
use netsim::mac::MAC;
use netsim::nic::{IpAddressType, NIC};

fn nic(ip: IP, prefix: u8) -> NIC {
    NIC { ip, netmask: IP::from_cidr(prefix), mac: MAC::EUI48(2, 0, 0, 0, 0, 1) }
}

#[test]
fn new_interface_keeps_address_and_mask() {
    let n = NIC::new(IP::V4(10, 1, 2, 3), IP::V4(255, 255, 0, 0));
    assert_eq!(n.ip, IP::V4(10, 1, 2, 3));
    assert_eq!(n.netmask, IP::V4(255, 255, 0, 0));
}

#[test]
fn network_address_is_the_bitwise_and() {
    assert_eq!(nic(IP::V4(192, 168, 1, 77), 24).network_address(), IP::V4(192, 168, 1, 0));
    assert_eq!(nic(IP::V4(10, 200, 3, 4), 12).network_address(), IP::V4(10, 192, 0, 0));
    let odd = NIC { ip: IP::V4(172, 31, 255, 9), netmask: IP::V4(255, 0, 255, 1), mac: MAC::EUI48(0, 0, 0, 0, 0, 0) };
    assert_eq!(odd.network_address(), IP::V4(172, 0, 255, 1));
}

#[test]
fn network_address_in_binary() {
    assert_eq!(
        nic(IP::V4(192, 168, 1, 77), 24).network_address_bin(),
        "11000000.10101000.00000001.00000000"
    );
}

#[test]
fn prefix_length_counts_leading_ones() {
    for p in 0..=32u8 {
        assert_eq!(nic(IP::V4(1, 2, 3, 4), p).netmask_u8(), p);
    }
}

#[test]
fn prefix_length_stops_at_the_first_zero_bit() {
    let n = NIC { ip: IP::V4(1, 2, 3, 4), netmask: IP::V4(255, 0, 255, 0), mac: MAC::EUI48(0, 0, 0, 0, 0, 0) };
    assert_eq!(n.netmask_u8(), 8);
    let n = NIC { ip: IP::V4(1, 2, 3, 4), netmask: IP::V4(127, 255, 255, 255), mac: MAC::EUI48(0, 0, 0, 0, 0, 0) };
    assert_eq!(n.netmask_u8(), 0);
    let n = NIC { ip: IP::V4(1, 2, 3, 4), netmask: IP::V4(255, 253, 0, 0), mac: MAC::EUI48(0, 0, 0, 0, 0, 0) };
    assert_eq!(n.netmask_u8(), 14);
}

#[test]
fn capacity_of_narrow_masks_is_zero() {
    assert_eq!(nic(IP::V4(10, 0, 0, 1), 31).total_addressable_ips(), 0);
    assert_eq!(nic(IP::V4(10, 0, 0, 1), 32).total_addressable_ips(), 0);
}

#[test]
fn capacity_of_a_slash_24_is_254() {
    assert_eq!(nic(IP::V4(192, 168, 1, 1), 24).total_addressable_ips(), 254);
}

#[test]
fn capacity_formula() {
    assert_eq!(nic(IP::V4(10, 0, 0, 1), 30).total_addressable_ips(), 2);
    assert_eq!(nic(IP::V4(10, 0, 0, 1), 16).total_addressable_ips(), 65534);
    assert_eq!(nic(IP::V4(10, 0, 0, 1), 8).total_addressable_ips(), 16777214);
    assert_eq!(nic(IP::V4(10, 0, 0, 1), 1).total_addressable_ips(), 2147483646);
    assert_eq!(nic(IP::V4(10, 0, 0, 1), 0).total_addressable_ips(), 4294967294);
}

#[test]
fn same_network_is_reflexive() {
    let samples = vec![
        nic(IP::V4(192, 168, 1, 1), 24),
        nic(IP::V4(10, 0, 0, 1), 0),
        nic(IP::V4(255, 255, 255, 255), 32),
        NIC { ip: IP::V4(172, 16, 5, 9), netmask: IP::V4(255, 0, 255, 0), mac: MAC::EUI48(0, 0, 0, 0, 0, 0) },
    ];
    for n in samples {
        assert!(n.same_network(n));
    }
}

#[test]
fn same_network_compares_network_addresses() {
    let a = nic(IP::V4(192, 168, 1, 1), 24);
    assert!(a.same_network(nic(IP::V4(192, 168, 1, 200), 24)));
    assert!(!a.same_network(nic(IP::V4(192, 168, 2, 1), 24)));
}

#[test]
fn same_network_applies_each_sides_own_mask() {
    let wide = nic(IP::V4(10, 0, 0, 1), 8);
    let narrow = nic(IP::V4(10, 0, 0, 2), 24);
    assert!(wide.same_network(narrow));
    assert!(narrow.same_network(wide));
    let other = nic(IP::V4(10, 1, 0, 2), 24);
    assert!(!wide.same_network(other));
    assert!(!other.same_network(wide));
}

#[test]
fn address_kinds() {
    assert!(matches!(nic(IP::V4(192, 168, 1, 0), 24).ip_address_type(), IpAddressType::NetworkAddress));
    assert!(matches!(nic(IP::V4(192, 168, 1, 1), 24).ip_address_type(), IpAddressType::HostAddress));
    assert!(matches!(nic(IP::V4(192, 168, 1, 254), 24).ip_address_type(), IpAddressType::HostAddress));
    assert!(matches!(nic(IP::V4(192, 168, 1, 255), 24).ip_address_type(), IpAddressType::BroadcastAddress));
    assert!(matches!(nic(IP::V4(255, 255, 255, 255), 8).ip_address_type(), IpAddressType::BroadcastAddress));
}

#[test]
fn loopback() {
    let mut n = nic(IP::V4(192, 168, 1, 1), 24);
    assert!(!n.is_localhost());
    let mac = n.mac;
    n.set_localhost();
    assert_eq!(n.ip, IP::V4(127, 0, 0, 1));
    assert_eq!(n.netmask, IP::V4(255, 0, 0, 0));
    assert_eq!(n.mac, mac);
    assert!(n.is_localhost());
    assert!(nic(IP::V4(127, 9, 9, 9), 24).is_localhost());
}

#[test]
fn pool_is_made() {
    let host = nic(IP::V4(192, 168, 1, 1), 24);
    let pool = DHCP::new(host, IP::V4(192, 168, 1, 10), IP::V4(192, 168, 1, 100)).unwrap();
    assert_eq!(pool.netmask, IP::V4(255, 255, 255, 0));
    assert_eq!(pool.first_ip, IP::V4(192, 168, 1, 10));
    assert_eq!(pool.last_ip, IP::V4(192, 168, 1, 100));
}

#[test]
fn pool_needs_two_addressable_hosts() {
    let host = nic(IP::V4(192, 168, 1, 1), 31);
    assert_eq!(
        DHCP::new(host, IP::V4(192, 168, 1, 0), IP::V4(192, 168, 1, 1)),
        Err(DhcpError::NotEnoughAddressableIPs)
    );
    let host = nic(IP::V4(192, 168, 1, 1), 30);
    assert!(DHCP::new(host, IP::V4(192, 168, 1, 1), IP::V4(192, 168, 1, 2)).is_ok());
}

#[test]
fn pool_bounds_must_be_on_the_network() {
    let host = nic(IP::V4(192, 168, 1, 1), 24);
    assert_eq!(
        DHCP::new(host, IP::V4(192, 168, 2, 10), IP::V4(192, 168, 1, 100)),
        Err(DhcpError::IPsNotInSameNetwork)
    );
    assert_eq!(
        DHCP::new(host, IP::V4(192, 168, 1, 10), IP::V4(192, 168, 2, 100)),
        Err(DhcpError::IPsNotInSameNetwork)
    );
}

#[test]
fn pool_range_must_rise() {
    let host = nic(IP::V4(192, 168, 1, 1), 24);
    assert_eq!(
        DHCP::new(host, IP::V4(192, 168, 1, 100), IP::V4(192, 168, 1, 10)),
        Err(DhcpError::InvalidIPsRange)
    );
    assert_eq!(
        DHCP::new(host, IP::V4(192, 168, 1, 10), IP::V4(192, 168, 1, 10)),
        Err(DhcpError::InvalidIPsRange)
    );
}
