//! Bulk loading: a described topology is applied to a graph item by item.
//! An item that cannot be applied is reported and left out; the others are
//! applied all the same.

use crate::device::Device;
use crate::dhcp::{DHCP, DhcpError};
use crate::graph::{ConnectionError, Graph, GraphError, connection_with_mac};
use crate::ip::{IP, cidr_mask, parse_ddn};
use crate::mac::{MAC, parse_mac};
use crate::model::GraphView;
use crate::nic::{NIC, loopback_ip};
use crate::router::Router;
use vstd::prelude::*;

verus! {

/// The range of a lease pool, as described.
#[derive(Clone, Debug)]
pub struct LoadedRouterDHCP {
    pub first_ip: String,
    pub last_ip: String,
}

/// One interface of a router, as described: the address in dotted decimal,
/// the prefix length of the mask, the identity in text form if one is
/// wanted, and the range of a lease pool if one is wanted.
#[derive(Clone, Debug)]
pub struct LoadedRouterInterface {
    pub ip: String,
    pub netmask: u8,
    pub mac: Option<String>,
    pub dhcp: Option<LoadedRouterDHCP>,
}

/// A router, as described.
#[derive(Clone, Debug)]
pub struct LoadedRouter {
    pub name: String,
    pub lan: LoadedRouterInterface,
    pub wan: LoadedRouterInterface,
}

/// A device, as described. What is left out takes a default: the loopback
/// address, the prefix length 8, a random identity.
#[derive(Clone, Debug)]
pub struct LoadedDevices {
    pub name: String,
    pub ip: Option<String>,
    pub netmask: Option<u8>,
    pub mac: Option<String>,
}

/// A link, as described: the identities of its two interfaces in text form.
#[derive(Clone, Debug)]
pub struct LoadedConnections {
    pub from: String,
    pub to: String,
}

/// A topology, as described: routers, devices and links, each list in the
/// order in which it is to be applied.
#[derive(Clone, Debug)]
pub struct LoadedData {
    pub routers: Option<Vec<LoadedRouter>>,
    pub devices: Option<Vec<LoadedDevices>>,
    pub connections: Option<Vec<LoadedConnections>>,
}

/// What became of the lease pool of one side of a described router.
#[derive(Clone, Copy, Debug, PartialEq, Eq)]
pub enum PoolLoad {
    /// None was described.
    Absent,
    /// The pool was made.
    Made,
    /// The first address of the range is no address.
    InvalidFirstIp,
    /// The last address of the range is no address.
    InvalidLastIp,
    /// Neither bound of the range is an address.
    InvalidBothIps,
    /// The range makes no pool for the interface.
    Refused(DhcpError),
}

/// What became of a described router.
#[derive(Clone, Copy, Debug, PartialEq, Eq)]
pub enum RouterLoad {
    /// It was installed, with these pools on its LAN and WAN side.
    Loaded(PoolLoad, PoolLoad),
    /// The graph refused it.
    Refused(GraphError, PoolLoad, PoolLoad),
    /// The identity of its LAN interface is no identity.
    InvalidLanMac,
    /// The address of its LAN interface is no address.
    InvalidLanIp,
    /// The identity of its WAN interface is no identity.
    InvalidWanMac,
    /// The address of its WAN interface is no address.
    InvalidWanIp,
}

/// What became of a described device.
#[derive(Clone, Copy, Debug, PartialEq, Eq)]
pub enum DeviceLoad {
    /// It was added.
    Loaded,
    /// The graph refused it.
    Refused(GraphError),
    /// Its identity is no identity.
    InvalidMac,
    /// Its address is no address.
    InvalidIp,
}

/// What became of a described link.
#[derive(Clone, Copy, Debug, PartialEq, Eq)]
pub enum ConnectionLoad {
    /// The link was made as described; the source took this lease, if it
    /// needed one.
    Linked(Option<IP>),
    /// The link was refused as described, for the reason given, and made
    /// the other way round.
    LinkedReversed(ConnectionError, Option<IP>),
    /// The link was refused both ways, for these reasons.
    Refused(ConnectionError, ConnectionError),
    /// The identity of its source is no identity.
    InvalidSourceMac,
    /// The identity of its destination is no identity.
    InvalidDestinationMac,
}

/// What became of each item of a described topology, in the order of the
/// description.
#[derive(Clone, Debug)]
pub struct LoadReport {
    pub routers: Vec<RouterLoad>,
    pub devices: Vec<DeviceLoad>,
    pub connections: Vec<ConnectionLoad>,
}

/// The identity of a described interface: the one written, if it is an
/// identity; `drawn` where none is written.
pub open spec fn written_identity(text: Option<String>, drawn: MAC) -> Option<MAC> {
    match text {
        Some(text) => parse_mac(text@),
        None => Some(drawn),
    }
}

/// The lease pool of a described router interface, and what is reported of
/// it.
pub open spec fn pool_plan(nic: NIC, range: Option<LoadedRouterDHCP>) -> (Option<DHCP>, PoolLoad) {
    match range {
        None => (None, PoolLoad::Absent),
        Some(range) => match (parse_ddn(range.first_ip@), parse_ddn(range.last_ip@)) {
            (Some(first_ip), Some(last_ip)) => match DHCP::create(nic, first_ip, last_ip) {
                Ok(pool) => (Some(pool), PoolLoad::Made),
                Err(e) => (None, PoolLoad::Refused(e)),
            },
            (None, Some(_)) => (None, PoolLoad::InvalidFirstIp),
            (Some(_), None) => (None, PoolLoad::InvalidLastIp),
            (None, None) => (None, PoolLoad::InvalidBothIps),
        },
    }
}

/// The router that a description makes, with what is reported of its two
/// pools; or the reason why it makes none. The LAN side is read first, and
/// of each side the identity before the address.
pub open spec fn router_plan(entry: LoadedRouter, drawn_lan: MAC, drawn_wan: MAC) -> Result<
    (Router, PoolLoad, PoolLoad),
    RouterLoad,
> {
    let lan_mac = written_identity(entry.lan.mac, drawn_lan);
    let lan_ip = parse_ddn(entry.lan.ip@);
    let wan_mac = written_identity(entry.wan.mac, drawn_wan);
    let wan_ip = parse_ddn(entry.wan.ip@);
    if lan_mac is None {
        Err(RouterLoad::InvalidLanMac)
    } else if lan_ip is None {
        Err(RouterLoad::InvalidLanIp)
    } else if wan_mac is None {
        Err(RouterLoad::InvalidWanMac)
    } else if wan_ip is None {
        Err(RouterLoad::InvalidWanIp)
    } else {
        let nic_lan = NIC {
            ip: lan_ip->0,
            netmask: cidr_mask(entry.lan.netmask as int),
            mac: lan_mac->0,
        };
        let nic_wan = NIC {
            ip: wan_ip->0,
            netmask: cidr_mask(entry.wan.netmask as int),
            mac: wan_mac->0,
        };
        let lan_pool = pool_plan(nic_lan, entry.lan.dhcp);
        let wan_pool = pool_plan(nic_wan, entry.wan.dhcp);
        Ok(
            (
                Router {
                    name: entry.name,
                    nic_lan,
                    nic_wan,
                    dhcp_lan: lan_pool.0,
                    dhcp_wan: wan_pool.0,
                },
                lan_pool.1,
                wan_pool.1,
            ),
        )
    }
}

/// The device that a description makes, or the reason why it makes none.
pub open spec fn device_plan(entry: LoadedDevices, drawn: MAC) -> Result<Device, DeviceLoad> {
    let mac = written_identity(entry.mac, drawn);
    let ip = match entry.ip {
        Some(text) => parse_ddn(text@),
        None => Some(loopback_ip()),
    };
    let netmask = match entry.netmask {
        Some(prefix) => cidr_mask(prefix as int),
        None => cidr_mask(8),
    };
    if mac is None {
        Err(DeviceLoad::InvalidMac)
    } else if ip is None {
        Err(DeviceLoad::InvalidIp)
    } else {
        Ok(Device { name: entry.name, nic: NIC { ip: ip->0, netmask, mac: mac->0 } })
    }
}

/// What applying a described router makes of the state, and what is
/// reported of it.
pub open spec fn router_loaded(g: GraphView, entry: LoadedRouter, drawn_lan: MAC, drawn_wan: MAC) -> (
    GraphView,
    RouterLoad,
) {
    match router_plan(entry, drawn_lan, drawn_wan) {
        Err(skip) => (g, skip),
        Ok((router, lan_pool, wan_pool)) => match g.install(router) {
            Ok(after) => (after, RouterLoad::Loaded(lan_pool, wan_pool)),
            Err(e) => (g, RouterLoad::Refused(e, lan_pool, wan_pool)),
        },
    }
}

/// What applying a described device makes of the state, and what is
/// reported of it.
pub open spec fn device_loaded(g: GraphView, entry: LoadedDevices, drawn: MAC) -> (
    GraphView,
    DeviceLoad,
) {
    match device_plan(entry, drawn) {
        Err(skip) => (g, skip),
        Ok(device) => if g.kind(device.nic.mac) is None {
            (g.with_device(device), DeviceLoad::Loaded)
        } else {
            (g, DeviceLoad::Refused(GraphError::AlreadyExistingMacAddress))
        },
    }
}

/// What applying a described link makes of the state, and what is reported
/// of it: the link is tried as described, and where that is refused, the
/// other way round.
pub open spec fn connection_loaded(g: GraphView, entry: LoadedConnections) -> (
    GraphView,
    ConnectionLoad,
) {
    match (parse_mac(entry.from@), parse_mac(entry.to@)) {
        (None, _) => (g, ConnectionLoad::InvalidSourceMac),
        (Some(_), None) => (g, ConnectionLoad::InvalidDestinationMac),
        (Some(from), Some(to)) => match g.connect(from, to) {
            Ok((after, lease)) => (after, ConnectionLoad::Linked(lease)),
            Err(first) => match g.connect(to, from) {
                Ok((after, lease)) => (after, ConnectionLoad::LinkedReversed(first, lease)),
                Err(second) => (g, ConnectionLoad::Refused(first, second)),
            },
        },
    }
}

/// What applying described routers in order makes of the state, with the
/// report of each. `draws` gives, for each position, the identities to use
/// where the description writes none.
pub open spec fn routers_loaded(g: GraphView, entries: Seq<LoadedRouter>, draws: Seq<(MAC, MAC)>) -> (
    GraphView,
    Seq<RouterLoad>,
)
    decreases entries.len(),
{
    if entries.len() == 0 {
        (g, Seq::empty())
    } else {
        let before = routers_loaded(g, entries.drop_last(), draws);
        let drawn = draws[entries.len() - 1];
        let last = router_loaded(before.0, entries.last(), drawn.0, drawn.1);
        (last.0, before.1.push(last.1))
    }
}

/// What applying described devices in order makes of the state, with the
/// report of each.
pub open spec fn devices_loaded(g: GraphView, entries: Seq<LoadedDevices>, draws: Seq<MAC>) -> (
    GraphView,
    Seq<DeviceLoad>,
)
    decreases entries.len(),
{
    if entries.len() == 0 {
        (g, Seq::empty())
    } else {
        let before = devices_loaded(g, entries.drop_last(), draws);
        let last = device_loaded(before.0, entries.last(), draws[entries.len() - 1]);
        (last.0, before.1.push(last.1))
    }
}

/// What applying described links in order makes of the state, with the
/// report of each.
pub open spec fn connections_loaded(g: GraphView, entries: Seq<LoadedConnections>) -> (
    GraphView,
    Seq<ConnectionLoad>,
)
    decreases entries.len(),
{
    if entries.len() == 0 {
        (g, Seq::empty())
    } else {
        let before = connections_loaded(g, entries.drop_last());
        let last = connection_loaded(before.0, entries.last());
        (last.0, before.1.push(last.1))
    }
}

/// The items of a list that may be left out of a description.
pub open spec fn listed<T>(list: Option<Vec<T>>) -> Seq<T> {
    match list {
        Some(list) => list@,
        None => Seq::empty(),
    }
}

/// What applying a described topology makes of the state: first the
/// routers, then the devices, then the links. With the state come the
/// reports of the routers, of the devices and of the links.
pub open spec fn data_loaded(
    g: GraphView,
    data: LoadedData,
    router_draws: Seq<(MAC, MAC)>,
    device_draws: Seq<MAC>,
) -> (GraphView, Seq<RouterLoad>, Seq<DeviceLoad>, Seq<ConnectionLoad>) {
    let routers = routers_loaded(g, listed(data.routers), router_draws);
    let devices = devices_loaded(routers.0, listed(data.devices), device_draws);
    let connections = connections_loaded(devices.0, listed(data.connections));
    (connections.0, routers.1, devices.1, connections.1)
}

/// Reads the identity of a described interface, drawing one at random
/// where none is written.
fn read_identity(text: &Option<String>) -> (r: Option<MAC>)
    ensures
        exists|drawn: MAC| r == #[trigger] written_identity(*text, drawn),
{
    match text {
        Some(text) => {
            let r = MAC::from_string(text.as_str());
            assert(r == written_identity(Some(*text), MAC::EUI48(0, 0, 0, 0, 0, 0)));
            r
        },
        None => {
            let drawn = MAC::new();
            assert(Some(drawn) == written_identity(None, drawn));
            Some(drawn)
        },
    }
}

/// Reads the lease pool of a described router interface.
fn read_pool(nic: NIC, range: &Option<LoadedRouterDHCP>) -> (r: (Option<DHCP>, PoolLoad))
    ensures
        r == pool_plan(nic, *range),
{
    match range {
        None => (None, PoolLoad::Absent),
        Some(range) => {
            let first_ip = IP::from_string(range.first_ip.as_str());
            let last_ip = IP::from_string(range.last_ip.as_str());
            match (first_ip, last_ip) {
                (Some(first_ip), Some(last_ip)) => match DHCP::new(nic, first_ip, last_ip) {
                    Ok(pool) => (Some(pool), PoolLoad::Made),
                    Err(e) => (None, PoolLoad::Refused(e)),
                },
                (None, Some(_)) => (None, PoolLoad::InvalidFirstIp),
                (Some(_), None) => (None, PoolLoad::InvalidLastIp),
                (None, None) => (None, PoolLoad::InvalidBothIps),
            }
        },
    }
}

/// Reads a described router.
fn read_router(entry: &LoadedRouter) -> (r: Result<(Router, PoolLoad, PoolLoad), RouterLoad>)
    ensures
        exists|drawn_lan: MAC, drawn_wan: MAC|
            r == #[trigger] router_plan(*entry, drawn_lan, drawn_wan),
{
    let lan_mac = read_identity(&entry.lan.mac);
    let ghost drawn_lan = choose|drawn: MAC| lan_mac == #[trigger] written_identity(entry.lan.mac, drawn);
    let ghost zero = MAC::EUI48(0, 0, 0, 0, 0, 0);
    let lan_mac = match lan_mac {
        Some(mac) => mac,
        None => {
            assert(router_plan(*entry, drawn_lan, zero) == Err::<(Router, PoolLoad, PoolLoad), _>(RouterLoad::InvalidLanMac));
            return Err(RouterLoad::InvalidLanMac);
        },
    };
    let lan_ip = match IP::from_string(entry.lan.ip.as_str()) {
        Some(ip) => ip,
        None => {
            assert(router_plan(*entry, drawn_lan, zero) == Err::<(Router, PoolLoad, PoolLoad), _>(RouterLoad::InvalidLanIp));
            return Err(RouterLoad::InvalidLanIp);
        },
    };
    let wan_mac = read_identity(&entry.wan.mac);
    let ghost drawn_wan = choose|drawn: MAC| wan_mac == #[trigger] written_identity(entry.wan.mac, drawn);
    let wan_mac = match wan_mac {
        Some(mac) => mac,
        None => {
            assert(router_plan(*entry, drawn_lan, drawn_wan) == Err::<(Router, PoolLoad, PoolLoad), _>(RouterLoad::InvalidWanMac));
            return Err(RouterLoad::InvalidWanMac);
        },
    };
    let wan_ip = match IP::from_string(entry.wan.ip.as_str()) {
        Some(ip) => ip,
        None => {
            assert(router_plan(*entry, drawn_lan, drawn_wan) == Err::<(Router, PoolLoad, PoolLoad), _>(RouterLoad::InvalidWanIp));
            return Err(RouterLoad::InvalidWanIp);
        },
    };
    let nic_lan = NIC { ip: lan_ip, netmask: IP::from_cidr(entry.lan.netmask), mac: lan_mac };
    let nic_wan = NIC { ip: wan_ip, netmask: IP::from_cidr(entry.wan.netmask), mac: wan_mac };
    let (dhcp_lan, lan_pool) = read_pool(nic_lan, &entry.lan.dhcp);
    let (dhcp_wan, wan_pool) = read_pool(nic_wan, &entry.wan.dhcp);
    let router = Router { name: entry.name.clone(), nic_lan, nic_wan, dhcp_lan, dhcp_wan };
    assert(router_plan(*entry, drawn_lan, drawn_wan) == Ok::<_, RouterLoad>((router, lan_pool, wan_pool)));
    Ok((router, lan_pool, wan_pool))
}

/// Reads a described device.
fn read_device(entry: &LoadedDevices) -> (r: Result<Device, DeviceLoad>)
    ensures
        exists|drawn: MAC| r == #[trigger] device_plan(*entry, drawn),
{
    let mac = read_identity(&entry.mac);
    let ghost drawn = choose|drawn: MAC| mac == #[trigger] written_identity(entry.mac, drawn);
    let mac = match mac {
        Some(mac) => mac,
        None => {
            assert(device_plan(*entry, drawn) == Err::<Device, _>(DeviceLoad::InvalidMac));
            return Err(DeviceLoad::InvalidMac);
        },
    };
    let ip = match &entry.ip {
        Some(text) => IP::from_string(text.as_str()),
        None => Some(IP::V4(127, 0, 0, 1)),
    };
    let ip = match ip {
        Some(ip) => ip,
        None => {
            assert(device_plan(*entry, drawn) == Err::<Device, _>(DeviceLoad::InvalidIp));
            return Err(DeviceLoad::InvalidIp);
        },
    };
    let netmask = match entry.netmask {
        Some(prefix) => IP::from_cidr(prefix),
        None => IP::from_cidr(8),
    };
    let device = Device { name: entry.name.clone(), nic: NIC { ip, netmask, mac } };
    assert(device_plan(*entry, drawn) == Ok::<Device, DeviceLoad>(device));
    Ok(device)
}

impl Graph {
    /// Applies a described router: it is read, and installed with its
    /// internal link unless the graph refuses it.
    pub fn load_router(&mut self, entry: &LoadedRouter) -> (r: RouterLoad)
        ensures
            exists|drawn_lan: MAC, drawn_wan: MAC|
                (final(self)@, r) == #[trigger] router_loaded(
                    old(self)@,
                    *entry,
                    drawn_lan,
                    drawn_wan,
                ),
            old(self)@.wf() ==> final(self)@.wf(),
    {
        let plan = read_router(entry);
        let ghost drawn = choose|drawn: (MAC, MAC)|
            plan == #[trigger] router_plan(*entry, drawn.0, drawn.1);
        proof {
            let (a, b) = choose|a: MAC, b: MAC| plan == #[trigger] router_plan(*entry, a, b);
            assert(plan == router_plan(*entry, (a, b).0, (a, b).1));
        }
        let r = match plan {
            Err(skip) => skip,
            Ok((router, lan_pool, wan_pool)) => match self.install_router(router) {
                Ok(_) => RouterLoad::Loaded(lan_pool, wan_pool),
                Err(e) => RouterLoad::Refused(e, lan_pool, wan_pool),
            },
        };
        assert((self@, r) == router_loaded(old(self)@, *entry, drawn.0, drawn.1));
        r
    }

    /// Applies a described device: it is read, and added unless the graph
    /// refuses it.
    pub fn load_device(&mut self, entry: &LoadedDevices) -> (r: DeviceLoad)
        ensures
            exists|drawn: MAC|
                (final(self)@, r) == #[trigger] device_loaded(old(self)@, *entry, drawn),
            old(self)@.wf() ==> final(self)@.wf(),
    {
        let plan = read_device(entry);
        let ghost drawn = choose|drawn: MAC| plan == #[trigger] device_plan(*entry, drawn);
        let r = match plan {
            Err(skip) => skip,
            Ok(device) => match self.append_device(device) {
                Ok(_) => DeviceLoad::Loaded,
                Err(e) => DeviceLoad::Refused(e),
            },
        };
        assert((self@, r) == device_loaded(old(self)@, *entry, drawn));
        r
    }

    /// Applies a described link: the two identities are read, and the link
    /// is tried as described and, where that is refused, the other way
    /// round.
    pub fn load_connection(&mut self, entry: &LoadedConnections) -> (r: ConnectionLoad)
        ensures
            (final(self)@, r) == connection_loaded(old(self)@, *entry),
            old(self)@.wf() ==> final(self)@.wf(),
    {
        let mac_src = match MAC::from_string(entry.from.as_str()) {
            Some(mac) => mac,
            None => {
                return ConnectionLoad::InvalidSourceMac;
            },
        };
        let mac_dest = match MAC::from_string(entry.to.as_str()) {
            Some(mac) => mac,
            None => {
                return ConnectionLoad::InvalidDestinationMac;
            },
        };
        match connection_with_mac(self, mac_src, mac_dest) {
            Ok(lease) => ConnectionLoad::Linked(lease),
            Err(first) => match connection_with_mac(self, mac_dest, mac_src) {
                Ok(lease) => ConnectionLoad::LinkedReversed(first, lease),
                Err(second) => ConnectionLoad::Refused(first, second),
            },
        }
    }

    /// Applies a described topology: the routers, then the devices, then
    /// the links, each list in its order. Every item is applied on its
    /// own; one that fails is reported and does not stop the others.
    pub fn load_data(&mut self, loaded_data: LoadedData) -> (r: LoadReport)
        ensures
            exists|router_draws: Seq<(MAC, MAC)>, device_draws: Seq<MAC>|
                (final(self)@, r.routers@, r.devices@, r.connections@) == #[trigger] data_loaded(
                    old(self)@,
                    loaded_data,
                    router_draws,
                    device_draws,
                ),
            old(self)@.wf() ==> final(self)@.wf(),
    {
        let loaded_routers = match loaded_data.routers {
            Some(e) => e,
            None => Vec::new(),
        };
        let loaded_devices = match loaded_data.devices {
            Some(e) => e,
            None => Vec::new(),
        };
        let loaded_connections = match loaded_data.connections {
            Some(e) => e,
            None => Vec::new(),
        };
        assert(loaded_routers@ == listed(loaded_data.routers));
        assert(loaded_devices@ == listed(loaded_data.devices));
        assert(loaded_connections@ == listed(loaded_data.connections));

        let mut routers: Vec<RouterLoad> = Vec::new();
        let ghost mut router_draws: Seq<(MAC, MAC)> = Seq::empty();
        let mut i: usize = 0;
        assert(loaded_routers@.take(0) =~= Seq::empty());
        while i < loaded_routers.len()
            invariant
                i <= loaded_routers.len(),
                router_draws.len() == i,
                old(self)@.wf() ==> self@.wf(),
                (self@, routers@) == routers_loaded(
                    old(self)@,
                    loaded_routers@.take(i as int),
                    router_draws,
                ),
            decreases loaded_routers.len() - i,
        {
            let ghost before = self@;
            let ghost entries = loaded_routers@.take(i as int);
            let outcome = self.load_router(&loaded_routers[i]);
            proof {
                let (a, b) = choose|a: MAC, b: MAC|
                    (self@, outcome) == #[trigger] router_loaded(before, loaded_routers@[i as int], a, b);
                let next = loaded_routers@.take(i + 1);
                assert(next.drop_last() =~= entries);
                assert(next.last() == loaded_routers@[i as int]);
                lemma_router_draws(old(self)@, entries, router_draws, router_draws.push((a, b)));
                router_draws = router_draws.push((a, b));
            }
            routers.push(outcome);
            i += 1;
        }
        assert(loaded_routers@.take(i as int) =~= loaded_routers@);
        let ghost after_routers = self@;

        let mut devices: Vec<DeviceLoad> = Vec::new();
        let ghost mut device_draws: Seq<MAC> = Seq::empty();
        let mut i: usize = 0;
        assert(loaded_devices@.take(0) =~= Seq::empty());
        while i < loaded_devices.len()
            invariant
                i <= loaded_devices.len(),
                device_draws.len() == i,
                old(self)@.wf() ==> self@.wf(),
                (self@, devices@) == devices_loaded(
                    after_routers,
                    loaded_devices@.take(i as int),
                    device_draws,
                ),
            decreases loaded_devices.len() - i,
        {
            let ghost before = self@;
            let ghost entries = loaded_devices@.take(i as int);
            let outcome = self.load_device(&loaded_devices[i]);
            proof {
                let a = choose|a: MAC|
                    (self@, outcome) == #[trigger] device_loaded(before, loaded_devices@[i as int], a);
                let next = loaded_devices@.take(i + 1);
                assert(next.drop_last() =~= entries);
                assert(next.last() == loaded_devices@[i as int]);
                lemma_device_draws(after_routers, entries, device_draws, device_draws.push(a));
                device_draws = device_draws.push(a);
            }
            devices.push(outcome);
            i += 1;
        }
        assert(loaded_devices@.take(i as int) =~= loaded_devices@);
        let ghost after_devices = self@;

        let mut connections: Vec<ConnectionLoad> = Vec::new();
        let mut i: usize = 0;
        assert(loaded_connections@.take(0) =~= Seq::empty());
        while i < loaded_connections.len()
            invariant
                i <= loaded_connections.len(),
                old(self)@.wf() ==> self@.wf(),
                (self@, connections@) == connections_loaded(
                    after_devices,
                    loaded_connections@.take(i as int),
                ),
            decreases loaded_connections.len() - i,
        {
            let ghost entries = loaded_connections@.take(i as int);
            let outcome = self.load_connection(&loaded_connections[i]);
            proof {
                let next = loaded_connections@.take(i + 1);
                assert(next.drop_last() =~= entries);
                assert(next.last() == loaded_connections@[i as int]);
            }
            connections.push(outcome);
            i += 1;
        }
        assert(loaded_connections@.take(i as int) =~= loaded_connections@);
        let r = LoadReport { routers, devices, connections };
        assert((self@, r.routers@, r.devices@, r.connections@) == data_loaded(
            old(self)@,
            loaded_data,
            router_draws,
            device_draws,
        ));
        r
    }
}

/// Draws behind the last described router do not count.
proof fn lemma_router_draws(
    g: GraphView,
    entries: Seq<LoadedRouter>,
    draws: Seq<(MAC, MAC)>,
    longer: Seq<(MAC, MAC)>,
)
    requires
        entries.len() <= draws.len() <= longer.len(),
        forall|i: int| 0 <= i < entries.len() ==> draws[i] == longer[i],
    ensures
        routers_loaded(g, entries, draws) == routers_loaded(g, entries, longer),
    decreases entries.len(),
{
    if entries.len() > 0 {
        lemma_router_draws(g, entries.drop_last(), draws, longer);
    }
}

/// Draws behind the last described device do not count.
proof fn lemma_device_draws(
    g: GraphView,
    entries: Seq<LoadedDevices>,
    draws: Seq<MAC>,
    longer: Seq<MAC>,
)
    requires
        entries.len() <= draws.len() <= longer.len(),
        forall|i: int| 0 <= i < entries.len() ==> draws[i] == longer[i],
    ensures
        devices_loaded(g, entries, draws) == devices_loaded(g, entries, longer),
    decreases entries.len(),
{
    if entries.len() > 0 {
        lemma_device_draws(g, entries.drop_last(), draws, longer);
    }
}

} // verus!
