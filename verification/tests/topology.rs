use netsim::commands::{ping, PingStatus};
use netsim::device::{create_device, Device};
use netsim::dhcp::DhcpError;
use netsim::graph::{connection_with_mac, ConnectionError, Graph, GraphError, NodeType};
use netsim::ip::IP;
use netsim::mac::MAC;
use netsim::nic::NIC;
use netsim::router::{create_router, Router, RouterInterface};

fn mac(n: u8) -> MAC {
    MAC::EUI48(2, 0, 0, 0, 0, n)
}

fn device(name: &str, id: u8, ip: IP, prefix: u8) -> Device {
    Device { name: name.to_string(), nic: NIC { ip, netmask: IP::from_cidr(prefix), mac: mac(id) } }
}

fn loopback_device(name: &str, id: u8) -> Device {
    device(name, id, IP::V4(127, 0, 0, 1), 8)
}

fn home_router(lan: u8, wan: u8) -> Router {
    Router::with_interfaces(
        "R1".to_string(),
        NIC { ip: IP::V4(192, 168, 1, 1), netmask: IP::from_cidr(24), mac: mac(lan) },
        NIC { ip: IP::V4(10, 0, 0, 1), netmask: IP::from_cidr(24), mac: mac(wan) },
        Some(IP::V4(192, 168, 1, 10)),
        Some(IP::V4(192, 168, 1, 100)),
        None,
        None,
    )
}

#[test]
fn empty_graph() {
    let g = Graph::new();
    assert!(g.all_nodes().is_empty());
    assert!(g.all_connections().is_empty());
    assert!(g.routers.is_empty());
    assert!(g.devices.is_empty());
    assert_eq!(g.node_type_with_mac(mac(1)), None);
    assert_eq!(g.breadth_first_search(mac(1)), vec![mac(1)]);
}

#[test]
fn device_is_registered() {
    let mut g = Graph::new();
    assert_eq!(g.append_device(loopback_device("D1", 1)), Ok(()));
    assert_eq!(g.node_type_with_mac(mac(1)), Some(NodeType::Device));
    assert_eq!(g.all_nodes(), &vec![(mac(1), NodeType::Device)]);
    assert_eq!(g.nic_with_mac(mac(1)).unwrap().ip, IP::V4(127, 0, 0, 1));
    assert_eq!(g.search_device_with_mac(mac(1)).unwrap().name, "D1");
    assert!(g.search_device_with_mac(mac(2)).is_none());
}

#[test]
fn duplicate_identity_is_refused() {
    let mut g = Graph::new();
    assert_eq!(g.append_device(loopback_device("D1", 1)), Ok(()));
    assert_eq!(g.append_device(loopback_device("D2", 1)), Err(GraphError::AlreadyExistingMacAddress));
    assert_eq!(g.append_router(home_router(1, 3)), Err(GraphError::AlreadyExistingMacAddress));
    assert_eq!(g.append_router(home_router(3, 1)), Err(GraphError::AlreadyExistingMacAddress));
    assert_eq!(g.install_router(home_router(3, 1)), Err(GraphError::AlreadyExistingMacAddress));
    assert_eq!(g.devices.len(), 1);
    assert_eq!(g.routers.len(), 0);
    assert_eq!(g.all_nodes().len(), 1);
    assert!(g.all_connections().is_empty());
}

#[test]
fn router_is_installed_with_its_internal_link() {
    let mut g = Graph::new();
    assert_eq!(g.install_router(home_router(10, 11)), Ok(()));
    assert_eq!(g.all_nodes(), &vec![(mac(10), NodeType::Router), (mac(11), NodeType::Router)]);
    assert_eq!(g.all_connections(), &vec![(mac(10), mac(11))]);
    assert!(g.are_connected(mac(10), mac(11)));
    assert!(g.are_connected(mac(11), mac(10)));
    assert_eq!(g.nic_with_mac(mac(10)).unwrap().ip, IP::V4(192, 168, 1, 1));
    assert_eq!(g.nic_with_mac(mac(11)).unwrap().ip, IP::V4(10, 0, 0, 1));
    let (r, side) = g.search_router_with_mac(mac(11)).unwrap();
    assert_eq!(r.name, "R1");
    assert!(matches!(side, RouterInterface::WAN));
    let (_, side) = g.search_router_with_mac(mac(10)).unwrap();
    assert!(matches!(side, RouterInterface::LAN));
    assert!(g.routers[0].dhcp_lan.is_some());
    assert!(g.routers[0].dhcp_wan.is_none());
}

#[test]
fn internal_link_is_refused_twice() {
    let mut g = Graph::new();
    assert_eq!(g.append_internal_router_connection(mac(1), mac(2)), Ok(()));
    assert_eq!(
        g.append_internal_router_connection(mac(2), mac(1)),
        Err(GraphError::ConnectionAlreadyExists)
    );
    assert_eq!(g.install_router(home_router(1, 2)), Err(GraphError::ConnectionAlreadyExists));
    assert_eq!(g.all_connections().len(), 1);
    assert!(g.all_nodes().is_empty());
}

#[test]
fn created_nodes_have_defaults() {
    let mut g = Graph::new();
    assert!(create_device("D1".to_string(), &mut g).is_ok());
    assert_eq!(g.devices.len(), 1);
    assert_eq!(g.devices[0].name, "D1");
    assert_eq!(g.devices[0].nic.ip, IP::V4(127, 0, 0, 1));
    assert_eq!(g.devices[0].nic.netmask, IP::V4(255, 0, 0, 0));
    assert!(create_router(
        "R1".to_string(),
        &mut g,
        IP::V4(192, 168, 1, 1),
        IP::from_cidr(24),
        IP::V4(10, 0, 0, 1),
        IP::from_cidr(24),
        Some(IP::V4(192, 168, 1, 10)),
        Some(IP::V4(192, 168, 1, 100)),
        Some(IP::V4(10, 0, 0, 10)),
        None,
    )
    .is_ok());
    assert_eq!(g.routers.len(), 1);
    let r = &g.routers[0];
    assert_eq!(r.nic_lan.ip, IP::V4(192, 168, 1, 1));
    assert_eq!(r.nic_wan.ip, IP::V4(10, 0, 0, 1));
    assert!(r.dhcp_lan.is_some());
    assert!(r.dhcp_wan.is_none());
    assert!(g.are_connected(r.nic_lan.mac, r.nic_wan.mac));
    assert_eq!(g.all_nodes().len(), 3);
}

#[test]
fn neighbours_and_links_in_order() {
    let mut g = Graph::new();
    for (a, b) in [(1, 2), (3, 1), (2, 3), (1, 4)] {
        assert_eq!(g.append_internal_router_connection(mac(a), mac(b)), Ok(()));
    }
    assert_eq!(g.neighbors(mac(1)), vec![mac(2), mac(3), mac(4)]);
    assert_eq!(g.neighbors(mac(3)), vec![mac(1), mac(2)]);
    assert_eq!(g.neighbors(mac(9)), Vec::<MAC>::new());
    assert_eq!(g.connections(mac(3)), vec![(mac(3), mac(1)), (mac(2), mac(3))]);
    assert!(g.are_connected(mac(4), mac(1)));
    assert!(!g.are_connected(mac(4), mac(2)));
}

#[test]
fn traversal_goes_level_by_level() {
    let mut g = Graph::new();
    for (a, b) in [(1, 2), (1, 3), (2, 4), (3, 4), (4, 5), (6, 7), (3, 2)] {
        assert_eq!(g.append_internal_router_connection(mac(a), mac(b)), Ok(()));
    }
    assert_eq!(g.breadth_first_search(mac(1)), vec![mac(1), mac(2), mac(3), mac(4), mac(5)]);
    assert_eq!(g.breadth_first_search(mac(5)), vec![mac(5), mac(4), mac(2), mac(3), mac(1)]);
    assert_eq!(g.breadth_first_search(mac(7)), vec![mac(7), mac(6)]);
    assert_eq!(g.breadth_first_search(mac(9)), vec![mac(9)]);
}

#[test]
fn traversal_survives_a_self_link() {
    let mut g = Graph::new();
    assert_eq!(g.append_internal_router_connection(mac(1), mac(1)), Ok(()));
    assert_eq!(g.append_internal_router_connection(mac(1), mac(2)), Ok(()));
    assert_eq!(g.breadth_first_search(mac(1)), vec![mac(1), mac(2)]);
}

#[test]
fn device_takes_a_lease_from_the_router() {
    let mut g = Graph::new();
    assert_eq!(g.append_device(loopback_device("D1", 1)), Ok(()));
    assert_eq!(g.install_router(home_router(10, 11)), Ok(()));
    assert_eq!(connection_with_mac(&mut g, mac(1), mac(10)), Ok(Some(IP::V4(192, 168, 1, 10))));
    let d1 = g.nic_with_mac(mac(1)).unwrap();
    assert_eq!(d1.ip, IP::V4(192, 168, 1, 10));
    assert_eq!(d1.netmask, IP::V4(255, 255, 255, 0));
    assert_eq!(d1.netmask_u8(), 24);
    assert_eq!(d1.mac, mac(1));
    assert!(g.are_connected(mac(1), mac(10)));
    assert_eq!(g.all_connections(), &vec![(mac(10), mac(11)), (mac(1), mac(10))]);
}

#[test]
fn created_device_takes_a_lease() {
    let mut g = Graph::new();
    assert!(create_device("D1".to_string(), &mut g).is_ok());
    assert!(create_router(
        "R1".to_string(),
        &mut g,
        IP::V4(192, 168, 1, 1),
        IP::from_cidr(24),
        IP::V4(10, 0, 0, 1),
        IP::from_cidr(24),
        Some(IP::V4(192, 168, 1, 10)),
        Some(IP::V4(192, 168, 1, 100)),
        None,
        None,
    )
    .is_ok());
    let d1 = g.devices[0].nic.mac;
    let lan = g.routers[0].nic_lan.mac;
    assert_eq!(connection_with_mac(&mut g, d1, lan), Ok(Some(IP::V4(192, 168, 1, 10))));
    assert_eq!(g.devices[0].nic.ip, IP::V4(192, 168, 1, 10));
    assert_eq!(g.devices[0].nic.netmask, IP::from_cidr(24));
    assert!(g.are_connected(d1, lan));
}

#[test]
fn same_network_links_directly() {
    let mut g = Graph::new();
    assert_eq!(g.append_device(loopback_device("D1", 1)), Ok(()));
    assert_eq!(g.append_device(loopback_device("D2", 2)), Ok(()));
    assert_eq!(connection_with_mac(&mut g, mac(1), mac(2)), Ok(None));
    assert!(g.are_connected(mac(2), mac(1)));
    assert_eq!(g.nic_with_mac(mac(1)).unwrap().ip, IP::V4(127, 0, 0, 1));
}

#[test]
fn no_dhcp_server_in_reach() {
    let mut g = Graph::new();
    assert_eq!(g.append_device(device("D1", 1, IP::V4(10, 0, 0, 5), 24)), Ok(()));
    assert_eq!(g.append_device(device("D2", 2, IP::V4(192, 168, 1, 5), 24)), Ok(()));
    assert_eq!(g.install_router(home_router(10, 11)), Ok(()));
    assert_eq!(
        connection_with_mac(&mut g, mac(1), mac(2)),
        Err(ConnectionError::Dhcp(DhcpError::NoDHCPServerFound))
    );
    assert_eq!(g.nic_with_mac(mac(1)).unwrap().ip, IP::V4(10, 0, 0, 5));
    assert_eq!(g.nic_with_mac(mac(1)).unwrap().netmask, IP::from_cidr(24));
    assert_eq!(g.nic_with_mac(mac(2)).unwrap().ip, IP::V4(192, 168, 1, 5));
    assert!(!g.are_connected(mac(1), mac(2)));
    assert_eq!(g.all_connections().len(), 1);
}

#[test]
fn pool_exhausted() {
    let mut g = Graph::new();
    let router = Router::with_interfaces(
        "R1".to_string(),
        NIC { ip: IP::V4(192, 168, 1, 1), netmask: IP::from_cidr(24), mac: mac(10) },
        NIC { ip: IP::V4(192, 168, 1, 11), netmask: IP::from_cidr(24), mac: mac(11) },
        Some(IP::V4(192, 168, 1, 10)),
        Some(IP::V4(192, 168, 1, 11)),
        None,
        None,
    );
    assert_eq!(g.install_router(router), Ok(()));
    assert_eq!(g.append_device(loopback_device("D1", 1)), Ok(()));
    assert_eq!(g.routers[0].get_next_dhcp_ip(&g, RouterInterface::LAN), Ok(IP::V4(192, 168, 1, 10)));
    assert_eq!(connection_with_mac(&mut g, mac(1), mac(10)), Ok(Some(IP::V4(192, 168, 1, 10))));
    let nodes = g.all_nodes().clone();
    let links = g.all_connections().clone();
    assert_eq!(
        g.routers[0].get_next_dhcp_ip(&g, RouterInterface::LAN),
        Err(DhcpError::NoMoreIPsAvailable)
    );
    assert_eq!(
        g.routers[0].get_next_dhcp_ip(&g, RouterInterface::LAN),
        Err(DhcpError::NoMoreIPsAvailable)
    );
    assert_eq!(g.all_nodes(), &nodes);
    assert_eq!(g.all_connections(), &links);
    assert_eq!(g.nic_with_mac(mac(1)).unwrap().ip, IP::V4(192, 168, 1, 10));
    assert_eq!(g.nic_with_mac(mac(10)).unwrap().ip, IP::V4(192, 168, 1, 1));
}

#[test]
fn exhausted_pool_refuses_the_link() {
    let mut g = Graph::new();
    let router = Router::with_interfaces(
        "R1".to_string(),
        NIC { ip: IP::V4(192, 168, 1, 10), netmask: IP::from_cidr(24), mac: mac(10) },
        NIC { ip: IP::V4(192, 168, 1, 11), netmask: IP::from_cidr(24), mac: mac(11) },
        Some(IP::V4(192, 168, 1, 10)),
        Some(IP::V4(192, 168, 1, 11)),
        None,
        None,
    );
    assert_eq!(g.install_router(router), Ok(()));
    assert_eq!(g.append_device(loopback_device("D1", 1)), Ok(()));
    assert_eq!(
        connection_with_mac(&mut g, mac(1), mac(10)),
        Err(ConnectionError::Dhcp(DhcpError::NoMoreIPsAvailable))
    );
    assert_eq!(g.nic_with_mac(mac(1)).unwrap().ip, IP::V4(127, 0, 0, 1));
    assert_eq!(g.all_connections().len(), 1);
}

#[test]
fn lease_skips_taken_addresses() {
    let mut g = Graph::new();
    let router = Router::with_interfaces(
        "R1".to_string(),
        NIC { ip: IP::V4(192, 168, 1, 10), netmask: IP::from_cidr(24), mac: mac(10) },
        NIC { ip: IP::V4(192, 168, 1, 11), netmask: IP::from_cidr(24), mac: mac(11) },
        Some(IP::V4(192, 168, 1, 10)),
        Some(IP::V4(192, 168, 1, 20)),
        None,
        None,
    );
    assert_eq!(g.install_router(router), Ok(()));
    assert_eq!(g.routers[0].get_next_dhcp_ip(&g, RouterInterface::LAN), Ok(IP::V4(192, 168, 1, 12)));
}

#[test]
fn lease_needs_a_pool() {
    let mut g = Graph::new();
    assert_eq!(g.install_router(home_router(10, 11)), Ok(()));
    assert_eq!(g.routers[0].get_next_dhcp_ip(&g, RouterInterface::WAN), Err(DhcpError::DisabledDHCP));
}

#[test]
fn ping_outcomes() {
    let mut g = Graph::new();
    assert_eq!(g.append_device(loopback_device("D1", 1)), Ok(()));
    let d1 = g.nic_with_mac(mac(1)).unwrap();
    assert_eq!(ping(&g, d1, IP::V4(8, 8, 8, 8)), PingStatus::HostUnreachable);
    assert_eq!(ping(&g, d1, IP::V4(127, 0, 0, 2)), PingStatus::Timeout);
    assert_eq!(ping(&g, d1, IP::V4(127, 0, 0, 1)), PingStatus::Success);
}

#[test]
fn ping_reaches_over_links() {
    let mut g = Graph::new();
    assert_eq!(g.append_device(loopback_device("D1", 1)), Ok(()));
    assert_eq!(g.append_device(device("D2", 2, IP::V4(192, 168, 1, 50), 24)), Ok(()));
    assert_eq!(g.install_router(home_router(10, 11)), Ok(()));
    assert_eq!(connection_with_mac(&mut g, mac(1), mac(10)), Ok(Some(IP::V4(192, 168, 1, 10))));
    let d1 = g.nic_with_mac(mac(1)).unwrap();
    assert_eq!(ping(&g, d1, IP::V4(192, 168, 1, 1)), PingStatus::Success);
    assert_eq!(ping(&g, d1, IP::V4(192, 168, 1, 50)), PingStatus::Timeout);
    assert_eq!(ping(&g, d1, IP::V4(10, 0, 0, 1)), PingStatus::HostUnreachable);
    assert!(g.breadth_first_search_ip(mac(1), IP::V4(10, 0, 0, 1)));
    assert!(!g.breadth_first_search_ip(mac(2), IP::V4(10, 0, 0, 1)));
    assert!(g.breadth_first_search_ip(mac(2), IP::V4(192, 168, 1, 50)));
}

#[test]
fn full_device_refuses_another_link() {
    let mut g = Graph::new();
    assert_eq!(g.append_device(loopback_device("D1", 1)), Ok(()));
    assert_eq!(g.append_device(loopback_device("D2", 2)), Ok(()));
    assert_eq!(g.append_device(loopback_device("D3", 3)), Ok(()));
    assert_eq!(connection_with_mac(&mut g, mac(1), mac(2)), Ok(None));
    let links = g.all_connections().clone();
    assert_eq!(
        connection_with_mac(&mut g, mac(1), mac(3)),
        Err(ConnectionError::Graph(GraphError::MaxConnectionReached(mac(1))))
    );
    assert_eq!(
        connection_with_mac(&mut g, mac(3), mac(1)),
        Err(ConnectionError::Graph(GraphError::MaxConnectionReached(mac(1))))
    );
    let d1 = g.nic_with_mac(mac(1)).unwrap();
    let d3 = g.nic_with_mac(mac(3)).unwrap();
    assert_eq!(g.append_connection(d3, d1), Err(GraphError::MaxConnectionReached(mac(1))));
    assert_eq!(g.all_connections(), &links);
}

#[test]
fn full_device_on_another_network_refuses_before_any_lease() {
    let mut g = Graph::new();
    assert_eq!(g.append_device(loopback_device("D1", 1)), Ok(()));
    assert_eq!(g.append_device(loopback_device("D2", 2)), Ok(()));
    assert_eq!(g.install_router(home_router(10, 11)), Ok(()));
    assert_eq!(connection_with_mac(&mut g, mac(1), mac(10)), Ok(Some(IP::V4(192, 168, 1, 10))));
    let links = g.all_connections().clone();
    assert_eq!(
        connection_with_mac(&mut g, mac(2), mac(1)),
        Err(ConnectionError::Graph(GraphError::MaxConnectionReached(mac(1))))
    );
    assert_eq!(
        connection_with_mac(&mut g, mac(1), mac(2)),
        Err(ConnectionError::Graph(GraphError::MaxConnectionReached(mac(1))))
    );
    assert_eq!(g.nic_with_mac(mac(2)).unwrap().ip, IP::V4(127, 0, 0, 1));
    assert_eq!(g.all_connections(), &links);
}

#[test]
fn full_router_interface_refuses_another_link() {
    let mut g = Graph::new();
    assert_eq!(g.append_device(loopback_device("D1", 1)), Ok(()));
    assert_eq!(g.append_device(loopback_device("D2", 2)), Ok(()));
    assert_eq!(g.install_router(home_router(10, 11)), Ok(()));
    assert_eq!(connection_with_mac(&mut g, mac(1), mac(10)), Ok(Some(IP::V4(192, 168, 1, 10))));
    assert_eq!(
        connection_with_mac(&mut g, mac(2), mac(10)),
        Err(ConnectionError::Graph(GraphError::MaxConnectionReached(mac(10))))
    );
    assert_eq!(g.all_connections().len(), 2);
}

#[test]
fn linked_pair_is_refused() {
    let mut g = Graph::new();
    assert_eq!(g.append_device(loopback_device("D1", 1)), Ok(()));
    assert_eq!(g.append_device(loopback_device("D2", 2)), Ok(()));
    assert_eq!(connection_with_mac(&mut g, mac(1), mac(2)), Ok(None));
    assert_eq!(
        connection_with_mac(&mut g, mac(2), mac(1)),
        Err(ConnectionError::Graph(GraphError::ConnectionAlreadyExists))
    );
    let d1 = g.nic_with_mac(mac(1)).unwrap();
    let d2 = g.nic_with_mac(mac(2)).unwrap();
    assert_eq!(g.append_connection(d2, d1), Err(GraphError::ConnectionAlreadyExists));
}

#[test]
fn unknown_interface_is_refused() {
    let mut g = Graph::new();
    assert_eq!(g.append_device(loopback_device("D1", 1)), Ok(()));
    assert_eq!(connection_with_mac(&mut g, mac(9), mac(1)), Err(ConnectionError::UnknownInterface(mac(9))));
    assert_eq!(connection_with_mac(&mut g, mac(1), mac(8)), Err(ConnectionError::UnknownInterface(mac(8))));
    let d1 = g.nic_with_mac(mac(1)).unwrap();
    let ghost = NIC { ip: IP::V4(127, 0, 0, 2), netmask: IP::from_cidr(8), mac: mac(9) };
    assert_eq!(g.append_connection(d1, ghost), Err(GraphError::ConnectionNotPossible));
    assert_eq!(g.append_connection(ghost, d1), Err(GraphError::ConnectionNotPossible));
    assert_eq!(g.update_nic(mac(9), ghost), Err(GraphError::ConnectionNotPossible));
    assert_eq!(g.nic_with_mac(mac(9)), None);
}

#[test]
fn mismatched_networks_are_refused_by_the_graph() {
    let mut g = Graph::new();
    assert_eq!(g.append_device(device("D1", 1, IP::V4(10, 0, 0, 5), 24)), Ok(()));
    assert_eq!(g.append_device(device("D2", 2, IP::V4(192, 168, 1, 5), 24)), Ok(()));
    let d1 = g.nic_with_mac(mac(1)).unwrap();
    let d2 = g.nic_with_mac(mac(2)).unwrap();
    assert_eq!(g.append_connection(d1, d2), Err(GraphError::ConnectionNotPossible));
    assert!(g.all_connections().is_empty());
}

#[test]
fn linked_source_is_not_readdressed() {
    let mut g = Graph::new();
    assert_eq!(g.install_router(home_router(10, 11)), Ok(()));
    let other = Router::with_interfaces(
        "R2".to_string(),
        NIC { ip: IP::V4(172, 16, 0, 1), netmask: IP::from_cidr(16), mac: mac(20) },
        NIC { ip: IP::V4(172, 17, 0, 1), netmask: IP::from_cidr(16), mac: mac(21) },
        None,
        None,
        None,
        None,
    );
    assert_eq!(g.install_router(other), Ok(()));
    assert_eq!(
        connection_with_mac(&mut g, mac(20), mac(10)),
        Err(ConnectionError::Graph(GraphError::ConnectionNotPossible))
    );
    assert_eq!(g.nic_with_mac(mac(20)).unwrap().ip, IP::V4(172, 16, 0, 1));
}

#[test]
fn lease_from_the_wrong_side_is_rolled_back() {
    let mut g = Graph::new();
    assert_eq!(g.append_device(loopback_device("D1", 1)), Ok(()));
    assert_eq!(g.install_router(home_router(10, 11)), Ok(()));
    assert_eq!(
        connection_with_mac(&mut g, mac(1), mac(11)),
        Err(ConnectionError::Graph(GraphError::ConnectionNotPossible))
    );
    assert_eq!(g.nic_with_mac(mac(1)).unwrap().ip, IP::V4(127, 0, 0, 1));
    assert_eq!(g.nic_with_mac(mac(1)).unwrap().netmask, IP::V4(255, 0, 0, 0));
    assert_eq!(g.all_connections().len(), 1);
}

#[test]
fn later_pool_serves_when_the_first_is_exhausted() {
    let mut g = Graph::new();
    let first = Router::with_interfaces(
        "R1".to_string(),
        NIC { ip: IP::V4(192, 168, 1, 10), netmask: IP::from_cidr(24), mac: mac(10) },
        NIC { ip: IP::V4(192, 168, 1, 11), netmask: IP::from_cidr(24), mac: mac(11) },
        None,
        None,
        Some(IP::V4(192, 168, 1, 10)),
        Some(IP::V4(192, 168, 1, 11)),
    );
    assert_eq!(g.install_router(first), Ok(()));
    let second = Router::with_interfaces(
        "R2".to_string(),
        NIC { ip: IP::V4(192, 168, 1, 2), netmask: IP::from_cidr(24), mac: mac(20) },
        NIC { ip: IP::V4(172, 17, 0, 1), netmask: IP::from_cidr(16), mac: mac(21) },
        Some(IP::V4(192, 168, 1, 30)),
        Some(IP::V4(192, 168, 1, 40)),
        None,
        None,
    );
    assert_eq!(g.install_router(second), Ok(()));
    assert_eq!(connection_with_mac(&mut g, mac(20), mac(11)), Ok(None));
    assert_eq!(g.append_device(loopback_device("D1", 1)), Ok(()));
    assert_eq!(g.breadth_first_search(mac(10)), vec![mac(10), mac(11), mac(20), mac(21)]);
    assert_eq!(connection_with_mac(&mut g, mac(1), mac(10)), Ok(Some(IP::V4(192, 168, 1, 30))));
    assert_eq!(g.nic_with_mac(mac(1)).unwrap().ip, IP::V4(192, 168, 1, 30));
}

#[test]
fn record_is_replaced() {
    let mut g = Graph::new();
    assert_eq!(g.append_device(loopback_device("D1", 1)), Ok(()));
    assert_eq!(g.install_router(home_router(10, 11)), Ok(()));
    let lan = NIC { ip: IP::V4(192, 168, 9, 1), netmask: IP::from_cidr(24), mac: mac(10) };
    let wan = NIC { ip: IP::V4(10, 9, 0, 1), netmask: IP::from_cidr(16), mac: mac(11) };
    let dev = NIC { ip: IP::V4(192, 168, 9, 2), netmask: IP::from_cidr(24), mac: mac(1) };
    assert_eq!(g.update_nic(mac(10), lan), Ok(()));
    assert_eq!(g.update_nic(mac(11), wan), Ok(()));
    assert_eq!(g.update_nic(mac(1), dev), Ok(()));
    assert_eq!(g.nic_with_mac(mac(10)), Some(lan));
    assert_eq!(g.nic_with_mac(mac(11)), Some(wan));
    assert_eq!(g.nic_with_mac(mac(1)), Some(dev));
    assert_eq!(g.routers[0].name, "R1");
    assert_eq!(g.devices[0].name, "D1");
}

#[test]
fn lease_search_leaves_the_source_alone_without_a_pool() {
    let mut g = Graph::new();
    assert_eq!(g.append_device(loopback_device("D1", 1)), Ok(()));
    assert_eq!(g.append_device(loopback_device("D2", 2)), Ok(()));
    let mut src = g.nic_with_mac(mac(1)).unwrap();
    let dst = g.nic_with_mac(mac(2)).unwrap();
    assert_eq!(
        g.breadth_first_search_and_dhcp_connection(&mut src, &dst),
        Err(DhcpError::NoDHCPServerFound)
    );
    assert_eq!(src, g.nic_with_mac(mac(1)).unwrap());
}

#[test]
fn live_address_off_the_network_is_not_leased() {
    let mut g = Graph::new();
    let mask = IP::V4(255, 0, 255, 0);
    let router = Router::with_interfaces(
        "R1".to_string(),
        NIC { ip: IP::V4(10, 0, 0, 1), netmask: mask, mac: mac(10) },
        NIC { ip: IP::V4(10, 0, 0, 255), netmask: mask, mac: mac(11) },
        Some(IP::V4(10, 0, 0, 255)),
        Some(IP::V4(10, 1, 0, 0)),
        None,
        None,
    );
    assert!(router.dhcp_lan.is_some());
    assert_eq!(g.install_router(router), Ok(()));
    assert_eq!(g.append_device(device("D1", 1, IP::V4(10, 0, 1, 0), 8)), Ok(()));
    assert_eq!(connection_with_mac(&mut g, mac(1), mac(10)), Ok(None));
    let lan = g.nic_with_mac(mac(10)).unwrap();
    assert!(g.breadth_first_search_ip(mac(10), IP::V4(10, 0, 0, 255)));
    assert!(g.breadth_first_search_ip(mac(10), IP::V4(10, 0, 1, 0)));
    assert_eq!(ping(&g, lan, IP::V4(10, 0, 1, 0)), PingStatus::HostUnreachable);
    assert_eq!(
        g.all_routers()[0].get_next_dhcp_ip(&g, RouterInterface::LAN),
        Ok(IP::V4(10, 0, 1, 1))
    );
}

#[test]
fn pool_off_the_network_is_exhausted_where_its_addresses_are_live() {
    let mut g = Graph::new();
    let mut router = Router::with_interfaces(
        "R1".to_string(),
        NIC { ip: IP::V4(192, 168, 1, 1), netmask: IP::from_cidr(24), mac: mac(10) },
        NIC { ip: IP::V4(10, 0, 0, 5), netmask: IP::from_cidr(24), mac: mac(11) },
        None,
        None,
        None,
        None,
    );
    router.dhcp_lan = Some(netsim::dhcp::DHCP {
        netmask: IP::from_cidr(24),
        first_ip: IP::V4(10, 0, 0, 5),
        last_ip: IP::V4(10, 0, 0, 5),
    });
    assert_eq!(g.install_router(router), Ok(()));
    assert!(g.breadth_first_search_ip(mac(10), IP::V4(10, 0, 0, 5)));
    assert_eq!(
        g.all_routers()[0].get_next_dhcp_ip(&g, RouterInterface::LAN),
        Err(DhcpError::NoMoreIPsAvailable)
    );
    assert_eq!(g.append_device(loopback_device("D1", 1)), Ok(()));
    assert_eq!(
        connection_with_mac(&mut g, mac(1), mac(10)),
        Err(ConnectionError::Dhcp(DhcpError::NoMoreIPsAvailable))
    );
    assert_eq!(g.nic_with_mac(mac(1)).unwrap().ip, IP::V4(127, 0, 0, 1));
}

#[test]
fn free_address_off_the_network_is_leased() {
    let mut g = Graph::new();
    let mut router = Router::with_interfaces(
        "R1".to_string(),
        NIC { ip: IP::V4(192, 168, 1, 1), netmask: IP::from_cidr(24), mac: mac(10) },
        NIC { ip: IP::V4(10, 0, 0, 5), netmask: IP::from_cidr(24), mac: mac(11) },
        None,
        None,
        None,
        None,
    );
    router.dhcp_lan = Some(netsim::dhcp::DHCP {
        netmask: IP::from_cidr(24),
        first_ip: IP::V4(10, 0, 0, 5),
        last_ip: IP::V4(10, 0, 0, 6),
    });
    assert_eq!(g.install_router(router), Ok(()));
    assert_eq!(
        g.all_routers()[0].get_next_dhcp_ip(&g, RouterInterface::LAN),
        Ok(IP::V4(10, 0, 0, 6))
    );
}

#[test]
fn records_are_enumerated() {
    let mut g = Graph::new();
    assert!(g.all_routers().is_empty());
    assert!(g.all_devices().is_empty());
    assert_eq!(g.append_device(loopback_device("D1", 1)), Ok(()));
    assert_eq!(g.install_router(home_router(10, 11)), Ok(()));
    assert_eq!(g.all_devices().len(), 1);
    assert_eq!(g.all_devices()[0].name, "D1");
    assert_eq!(g.all_routers().len(), 1);
    assert_eq!(g.all_routers()[0].nic_lan.mac, mac(10));
}
