use netsim::dhcp::DhcpError;
use netsim::graph::{ConnectionError, Graph, GraphError, NodeType};
use netsim::ip::IP;
use netsim::load::{
    ConnectionLoad, DeviceLoad, LoadedConnections, LoadedData, LoadedDevices, LoadedRouter,
    LoadedRouterDHCP, LoadedRouterInterface, PoolLoad, RouterLoad,
};
use netsim::mac::MAC;
use netsim::router::Router;
use netsim::nic::NIC;
use netsim::text::octet_from_string;

fn side(ip: &str, prefix: u8, mac: Option<&str>, range: Option<(&str, &str)>) -> LoadedRouterInterface {
    LoadedRouterInterface {
        ip: ip.to_string(),
        netmask: prefix,
        mac: mac.map(|m| m.to_string()),
        dhcp: range.map(|(a, b)| LoadedRouterDHCP { first_ip: a.to_string(), last_ip: b.to_string() }),
    }
}

fn home() -> LoadedRouter {
    LoadedRouter {
        name: "R1".to_string(),
        lan: side("192.168.1.1", 24, Some("02:00:00:00:00:0A"), Some(("192.168.1.10", "192.168.1.100"))),
        wan: side("10.0.0.1", 24, Some("02:00:00:00:00:0B"), None),
    }
}

fn dev(name: &str, ip: Option<&str>, prefix: Option<u8>, mac: Option<&str>) -> LoadedDevices {
    LoadedDevices {
        name: name.to_string(),
        ip: ip.map(|s| s.to_string()),
        netmask: prefix,
        mac: mac.map(|s| s.to_string()),
    }
}

fn link(from: &str, to: &str) -> LoadedConnections {
    LoadedConnections { from: from.to_string(), to: to.to_string() }
}

#[test]
fn octet_reader() {
    assert_eq!(octet_from_string("0"), Some(0));
    assert_eq!(octet_from_string("24"), Some(24));
    assert_eq!(octet_from_string("255"), Some(255));
    assert_eq!(octet_from_string("+7"), Some(7));
    assert_eq!(octet_from_string("007"), Some(7));
    assert_eq!(octet_from_string("256"), None);
    assert_eq!(octet_from_string(""), None);
    assert_eq!(octet_from_string("-1"), None);
    assert_eq!(octet_from_string("1 "), None);
    assert_eq!(octet_from_string("99999999999999999999999"), None);
}

#[test]
fn whole_description_is_applied() {
    let mut g = Graph::new();
    let data = LoadedData {
        routers: Some(vec![home()]),
        devices: Some(vec![dev("D1", None, None, Some("02:00:00:00:00:01"))]),
        connections: Some(vec![link("02:00:00:00:00:01", "02:00:00:00:00:0a")]),
    };
    let report = g.load_data(data);
    assert_eq!(report.routers, vec![RouterLoad::Loaded(PoolLoad::Made, PoolLoad::Absent)]);
    assert_eq!(report.devices, vec![DeviceLoad::Loaded]);
    assert_eq!(report.connections, vec![ConnectionLoad::Linked(Some(IP::V4(192, 168, 1, 10)))]);
    let d1 = MAC::EUI48(2, 0, 0, 0, 0, 1);
    let lan = MAC::EUI48(2, 0, 0, 0, 0, 10);
    let wan = MAC::EUI48(2, 0, 0, 0, 0, 11);
    assert_eq!(
        g.all_nodes(),
        &vec![(lan, NodeType::Router), (wan, NodeType::Router), (d1, NodeType::Device)]
    );
    assert_eq!(g.all_connections(), &vec![(lan, wan), (d1, lan)]);
    assert_eq!(g.nic_with_mac(d1).unwrap().ip, IP::V4(192, 168, 1, 10));
    assert_eq!(g.nic_with_mac(d1).unwrap().netmask, IP::from_cidr(24));
    assert_eq!(g.routers[0].name, "R1");
    assert_eq!(g.devices[0].name, "D1");
}

#[test]
fn empty_description_changes_nothing() {
    let mut g = Graph::new();
    let report = g.load_data(LoadedData { routers: None, devices: None, connections: None });
    assert!(report.routers.is_empty());
    assert!(report.devices.is_empty());
    assert!(report.connections.is_empty());
    assert!(g.all_nodes().is_empty());
}

#[test]
fn bad_items_do_not_stop_the_others() {
    let mut g = Graph::new();
    let mut bad_lan_mac = home();
    bad_lan_mac.lan.mac = Some("nope".to_string());
    let mut bad_lan_ip = home();
    bad_lan_ip.lan.ip = "300.1.1.1".to_string();
    let mut bad_wan_mac = home();
    bad_wan_mac.wan.mac = Some("02:00:00:00:00".to_string());
    let mut bad_wan_ip = home();
    bad_wan_ip.wan.ip = "10.0.0".to_string();
    let data = LoadedData {
        routers: Some(vec![bad_lan_mac, bad_lan_ip, bad_wan_mac, bad_wan_ip, home(), home()]),
        devices: Some(vec![
            dev("bad mac", None, None, Some("zz:00:00:00:00:01")),
            dev("bad ip", Some("1.2.3"), None, Some("02:00:00:00:00:02")),
            dev("D3", Some("192.168.1.50"), Some(24), Some("02:00:00:00:00:03")),
            dev("again", None, None, Some("02:00:00:00:00:03")),
            dev("D4", None, None, None),
        ]),
        connections: Some(vec![
            link("bad", "02:00:00:00:00:03"),
            link("02:00:00:00:00:03", "bad"),
            link("02:00:00:00:00:03", "02:00:00:00:00:0A"),
            link("02:00:00:00:00:03", "02:00:00:00:00:77"),
        ]),
    };
    let report = g.load_data(data);
    assert_eq!(
        report.routers,
        vec![
            RouterLoad::InvalidLanMac,
            RouterLoad::InvalidLanIp,
            RouterLoad::InvalidWanMac,
            RouterLoad::InvalidWanIp,
            RouterLoad::Loaded(PoolLoad::Made, PoolLoad::Absent),
            RouterLoad::Refused(GraphError::ConnectionAlreadyExists, PoolLoad::Made, PoolLoad::Absent),
        ]
    );
    assert_eq!(
        report.devices,
        vec![
            DeviceLoad::InvalidMac,
            DeviceLoad::InvalidIp,
            DeviceLoad::Loaded,
            DeviceLoad::Refused(GraphError::AlreadyExistingMacAddress),
            DeviceLoad::Loaded,
        ]
    );
    let unknown = MAC::EUI48(2, 0, 0, 0, 0, 0x77);
    assert_eq!(
        report.connections,
        vec![
            ConnectionLoad::InvalidSourceMac,
            ConnectionLoad::InvalidDestinationMac,
            ConnectionLoad::Linked(None),
            ConnectionLoad::Refused(
                ConnectionError::UnknownInterface(unknown),
                ConnectionError::UnknownInterface(unknown),
            ),
        ]
    );
    assert_eq!(g.routers.len(), 1);
    assert_eq!(g.devices.len(), 2);
    assert_eq!(g.devices[1].nic.ip, IP::V4(127, 0, 0, 1));
    assert_eq!(g.devices[1].nic.netmask, IP::from_cidr(8));
    assert_eq!(g.all_connections().len(), 2);
}

#[test]
fn pools_of_a_described_router() {
    let mut g = Graph::new();
    let router = LoadedRouter {
        name: "R".to_string(),
        lan: side("192.168.1.1", 24, None, Some(("192.168.1.x", "192.168.1.100"))),
        wan: side("10.0.0.1", 24, None, Some(("10.0.0.10", "oops"))),
    };
    assert_eq!(g.load_router(&router), RouterLoad::Loaded(PoolLoad::InvalidFirstIp, PoolLoad::InvalidLastIp));
    let router = LoadedRouter {
        name: "S".to_string(),
        lan: side("192.168.2.1", 24, None, Some(("a", "b"))),
        wan: side("10.0.1.1", 31, None, Some(("10.0.1.0", "10.0.1.1"))),
    };
    assert_eq!(
        g.load_router(&router),
        RouterLoad::Loaded(PoolLoad::InvalidBothIps, PoolLoad::Refused(DhcpError::NotEnoughAddressableIPs))
    );
    let router = LoadedRouter {
        name: "T".to_string(),
        lan: side("192.168.3.1", 24, None, Some(("192.168.4.10", "192.168.3.100"))),
        wan: side("10.0.2.1", 24, None, Some(("10.0.2.9", "10.0.2.9"))),
    };
    assert_eq!(
        g.load_router(&router),
        RouterLoad::Loaded(
            PoolLoad::Refused(DhcpError::IPsNotInSameNetwork),
            PoolLoad::Refused(DhcpError::InvalidIPsRange)
        )
    );
    assert_eq!(g.routers.len(), 3);
    assert_eq!(g.all_nodes().len(), 6);
    assert_eq!(g.all_connections().len(), 3);
    for r in &g.routers {
        assert!(r.dhcp_lan.is_none());
        assert!(r.dhcp_wan.is_none());
        assert_ne!(r.nic_lan.mac, r.nic_wan.mac);
    }
}

#[test]
fn link_is_tried_the_other_way_round() {
    let mut g = Graph::new();
    assert_eq!(g.load_router(&home()), RouterLoad::Loaded(PoolLoad::Made, PoolLoad::Absent));
    assert_eq!(g.load_device(&dev("D1", None, None, Some("02:00:00:00:00:01"))), DeviceLoad::Loaded);
    let outcome = g.load_connection(&link("02:00:00:00:00:0A", "02:00:00:00:00:01"));
    assert_eq!(
        outcome,
        ConnectionLoad::LinkedReversed(
            ConnectionError::Graph(GraphError::ConnectionNotPossible),
            Some(IP::V4(192, 168, 1, 10))
        )
    );
    let d1 = MAC::EUI48(2, 0, 0, 0, 0, 1);
    let lan = MAC::EUI48(2, 0, 0, 0, 0, 10);
    assert_eq!(g.all_connections()[1], (d1, lan));
    assert_eq!(g.nic_with_mac(lan).unwrap().ip, IP::V4(192, 168, 1, 1));
}

#[test]
fn router_with_one_identity_twice_is_refused() {
    let mut g = Graph::new();
    let same = MAC::EUI48(2, 0, 0, 0, 0, 9);
    let router = Router::with_interfaces(
        "R".to_string(),
        NIC { ip: IP::V4(192, 168, 1, 1), netmask: IP::from_cidr(24), mac: same },
        NIC { ip: IP::V4(10, 0, 0, 1), netmask: IP::from_cidr(24), mac: same },
        None,
        None,
        None,
        None,
    );
    assert_eq!(g.append_router(router.clone()), Err(GraphError::AlreadyExistingMacAddress));
    assert_eq!(g.install_router(router), Err(GraphError::AlreadyExistingMacAddress));
    assert!(g.all_nodes().is_empty());
    assert!(g.all_connections().is_empty());
    assert!(g.routers.is_empty());
}
