//! The state of a topology as mathematics: what is registered, what is
//! linked, and what each operation on the graph makes of it.

use crate::commands::PingStatus;
use crate::device::Device;
use crate::dhcp::{DHCP, DhcpError};
use crate::graph::{ConnectionError, GraphError, NodeType};
use crate::ip::IP;
use crate::mac::MAC;
use crate::nic::{NIC, loopback_ip, loopback_mask, network_of};
use crate::router::{Router, RouterInterface};
use crate::topology::{bfs_order, joins, linked, links_of};
use vstd::prelude::*;

verus! {

/// What a graph holds: the registry of identities with the kind of node
/// each belongs to, the links, the routers and the devices, each in the
/// order in which they were added.
pub struct GraphView {
    pub registry: Seq<(MAC, NodeType)>,
    pub links: Seq<(MAC, MAC)>,
    pub routers: Seq<Router>,
    pub devices: Seq<Device>,
}

/// The kind under which `mac` is registered at or behind position `from`,
/// going by the first entry found.
pub open spec fn kind_from(registry: Seq<(MAC, NodeType)>, mac: MAC, from: int) -> Option<NodeType>
    decreases registry.len() - from,
{
    if from < 0 || from >= registry.len() {
        None
    } else if registry[from].0 == mac {
        Some(registry[from].1)
    } else {
        kind_from(registry, mac, from + 1)
    }
}

/// The position of the first router, at or behind `from`, one of whose
/// interfaces has the identity `mac`.
pub open spec fn router_from(routers: Seq<Router>, mac: MAC, from: int) -> Option<int>
    decreases routers.len() - from,
{
    if from < 0 || from >= routers.len() {
        None
    } else if routers[from].owns(mac) {
        Some(from)
    } else {
        router_from(routers, mac, from + 1)
    }
}

/// The position of the first device, at or behind `from`, whose interface
/// has the identity `mac`.
pub open spec fn device_from(devices: Seq<Device>, mac: MAC, from: int) -> Option<int>
    decreases devices.len() - from,
{
    if from < 0 || from >= devices.len() {
        None
    } else if devices[from].nic.mac == mac {
        Some(from)
    } else {
        device_from(devices, mac, from + 1)
    }
}

/// How many links an interface of a node of the given kind may have: one
/// for a device, two for a router interface.
pub open spec fn port_limit(kind: NodeType) -> nat {
    match kind {
        NodeType::Device => 1,
        NodeType::Router => 2,
    }
}

/// The search for a kind finds the first entry for `mac`, and finds none
/// only where there is no entry.
pub proof fn lemma_kind_from(registry: Seq<(MAC, NodeType)>, mac: MAC, from: int)
    requires
        0 <= from,
    ensures
        match kind_from(registry, mac, from) {
            Some(kind) => exists|i: int|
                from <= i < registry.len() && #[trigger] registry[i] == (mac, kind),
            None => forall|i: int| from <= i < registry.len() ==> (#[trigger] registry[i]).0 != mac,
        },
    decreases registry.len() - from,
{
    if from < registry.len() {
        if registry[from].0 == mac {
            assert(registry[from] == (mac, registry[from].1));
        } else {
            lemma_kind_from(registry, mac, from + 1);
        }
    }
}

/// The search for a router finds the first one that owns `mac`, and finds
/// none only where no router owns it.
pub proof fn lemma_router_from(routers: Seq<Router>, mac: MAC, from: int)
    requires
        0 <= from,
    ensures
        match router_from(routers, mac, from) {
            Some(i) => from <= i < routers.len() && routers[i].owns(mac) && forall|j: int|
                from <= j < i ==> !(#[trigger] routers[j]).owns(mac),
            None => forall|j: int| from <= j < routers.len() ==> !(#[trigger] routers[j]).owns(mac),
        },
    decreases routers.len() - from,
{
    if from < routers.len() && !routers[from].owns(mac) {
        lemma_router_from(routers, mac, from + 1);
    }
}

/// The search for a device finds the first one with the identity `mac`,
/// and finds none only where no device has it.
pub proof fn lemma_device_from(devices: Seq<Device>, mac: MAC, from: int)
    requires
        0 <= from,
    ensures
        match device_from(devices, mac, from) {
            Some(i) => from <= i < devices.len() && devices[i].nic.mac == mac && forall|j: int|
                from <= j < i ==> (#[trigger] devices[j]).nic.mac != mac,
            None => forall|j: int| from <= j < devices.len() ==> (#[trigger] devices[j]).nic.mac != mac,
        },
    decreases devices.len() - from,
{
    if from < devices.len() && devices[from].nic.mac != mac {
        lemma_device_from(devices, mac, from + 1);
    }
}

impl GraphView {
    /// The state of a graph to which nothing has been added.
    pub open spec fn empty() -> GraphView {
        GraphView {
            registry: Seq::empty(),
            links: Seq::empty(),
            routers: Seq::empty(),
            devices: Seq::empty(),
        }
    }

    /// The kind of node under which `mac` is registered, if it is.
    pub open spec fn kind(self, mac: MAC) -> Option<NodeType> {
        kind_from(self.registry, mac, 0)
    }

    /// The position of the router that owns `mac`, if one does.
    pub open spec fn router_index(self, mac: MAC) -> Option<int> {
        router_from(self.routers, mac, 0)
    }

    /// The position of the device whose interface has the identity `mac`,
    /// if one has.
    pub open spec fn device_index(self, mac: MAC) -> Option<int> {
        device_from(self.devices, mac, 0)
    }

    /// The interface with the identity `mac`: looked up among the routers
    /// or the devices, as the registry says. `None` where the identity is
    /// not registered or no record of that kind has it.
    pub open spec fn nic(self, mac: MAC) -> Option<NIC> {
        match self.kind(mac) {
            Some(NodeType::Router) => match self.router_index(mac) {
                Some(i) => Some(self.routers[i].nic_at(self.routers[i].side_of(mac))),
                None => None,
            },
            Some(NodeType::Device) => match self.device_index(mac) {
                Some(i) => Some(self.devices[i].nic),
                None => None,
            },
            None => None,
        }
    }

    /// Whether `router` can be added: its two interfaces have different
    /// identities, and neither is registered.
    pub open spec fn admits(self, router: Router) -> bool {
        &&& router.nic_lan.mac != router.nic_wan.mac
        &&& self.kind(router.nic_lan.mac) is None
        &&& self.kind(router.nic_wan.mac) is None
    }

    /// The state with `router` added: both its identities are registered,
    /// LAN first.
    pub open spec fn with_router(self, router: Router) -> GraphView {
        GraphView {
            registry: self.registry.push((router.nic_lan.mac, NodeType::Router)).push(
                (router.nic_wan.mac, NodeType::Router),
            ),
            routers: self.routers.push(router),
            ..self
        }
    }

    /// The state with `device` added and its identity registered.
    pub open spec fn with_device(self, device: Device) -> GraphView {
        GraphView {
            registry: self.registry.push((device.nic.mac, NodeType::Device)),
            devices: self.devices.push(device),
            ..self
        }
    }

    /// The state with a link from `a` to `b` added behind the others.
    pub open spec fn with_link(self, a: MAC, b: MAC) -> GraphView {
        GraphView { links: self.links.push((a, b)), ..self }
    }

    /// The state in which the record of the interface `mac` holds `nic`
    /// instead. Where there is no such record, nothing changes.
    pub open spec fn with_nic(self, mac: MAC, nic: NIC) -> GraphView {
        match self.kind(mac) {
            Some(NodeType::Router) => match self.router_index(mac) {
                Some(i) => GraphView {
                    routers: self.routers.update(
                        i,
                        self.routers[i].with_nic(self.routers[i].side_of(mac), nic),
                    ),
                    ..self
                },
                None => self,
            },
            Some(NodeType::Device) => match self.device_index(mac) {
                Some(i) => GraphView {
                    devices: self.devices.update(i, Device { nic: nic, ..self.devices[i] }),
                    ..self
                },
                None => self,
            },
            None => self,
        }
    }

    /// Whether the interface `mac` has as many links as its kind allows, or
    /// more. An identity that is not registered is never full.
    pub open spec fn full(self, mac: MAC) -> bool {
        match self.kind(mac) {
            Some(kind) => links_of(self.links, mac).len() >= port_limit(kind),
            None => false,
        }
    }

    /// Why a link between the two interfaces is refused, or `None` where it
    /// is accepted. The reasons are tried in this order: the two are linked
    /// already; then for the first interface and after it for the second,
    /// that it is not registered, or that it is full; last, that the two
    /// are not on the same network.
    pub open spec fn link_refusal(self, nic1: NIC, nic2: NIC) -> Option<GraphError> {
        if linked(self.links, nic1.mac, nic2.mac) {
            Some(GraphError::ConnectionAlreadyExists)
        } else if self.kind(nic1.mac) is None {
            Some(GraphError::ConnectionNotPossible)
        } else if self.full(nic1.mac) {
            Some(GraphError::MaxConnectionReached(nic1.mac))
        } else if self.kind(nic2.mac) is None {
            Some(GraphError::ConnectionNotPossible)
        } else if self.full(nic2.mac) {
            Some(GraphError::MaxConnectionReached(nic2.mac))
        } else if !nic1.on_network_of(nic2) {
            Some(GraphError::ConnectionNotPossible)
        } else {
            None
        }
    }

    /// Whether the interface with the identity `mac` holds the address
    /// `ip`: the registry says of which kind the node is, and a record of
    /// that kind has both the identity and the address.
    pub open spec fn holds(self, mac: MAC, ip: IP) -> bool {
        match self.kind(mac) {
            Some(NodeType::Device) => exists|i: int|
                0 <= i < self.devices.len() && device_holds(#[trigger] self.devices[i], mac, ip),
            Some(NodeType::Router) => exists|i: int|
                0 <= i < self.routers.len() && router_holds(#[trigger] self.routers[i], mac, ip),
            None => false,
        }
    }

    /// Whether the address `ip` is live as seen from `start`: an interface
    /// that the traversal from `start` visits holds it.
    pub open spec fn live(self, start: MAC, ip: IP) -> bool {
        exists|i: int|
            0 <= i < bfs_order(self.links, start).len() && self.holds(
                #[trigger] bfs_order(self.links, start)[i],
                ip,
            )
    }

    /// How a ping from the interface `src` to the address `dest` ends.
    pub open spec fn ping(self, src: NIC, dest: IP) -> PingStatus {
        if network_of(dest, src.netmask) != src.network() {
            PingStatus::HostUnreachable
        } else if self.live(src.mac, dest) {
            PingStatus::Success
        } else {
            PingStatus::Timeout
        }
    }

    /// Whether the address `ip` is taken, as the interface `nic` finds by
    /// probing it: an interface that can be reached from `nic` holds it.
    /// Neither the address nor the mask of `nic` is looked at, so an
    /// address that lies off the network of `nic` is taken all the same
    /// where it is live.
    pub open spec fn taken(self, nic: NIC, ip: IP) -> bool {
        self.live(nic.mac, ip)
    }

    /// Whether `c` is the first free address of the pool: it lies in the
    /// range, it is not taken, and every address of the range below it is.
    pub open spec fn first_free(self, nic: NIC, pool: DHCP, c: IP) -> bool {
        &&& pool.first_ip@ <= c@ <= pool.last_ip@
        &&& !self.taken(nic, c)
        &&& forall|e: IP| pool.first_ip@ <= e@ < c@ ==> #[trigger] self.taken(nic, e)
    }

    /// The lease that the interface `nic` gives from `pool`: the least
    /// address of the range that is not taken, or no lease where every
    /// address of the range is taken.
    pub open spec fn lease(self, nic: NIC, pool: DHCP) -> Result<IP, DhcpError> {
        if exists|c: IP| self.first_free(nic, pool, c) {
            Ok(choose|c: IP| self.first_free(nic, pool, c))
        } else {
            Err(DhcpError::NoMoreIPsAvailable)
        }
    }

    /// The lease that `router` gives on the given side.
    pub open spec fn router_lease(self, router: Router, side: RouterInterface) -> Result<
        IP,
        DhcpError,
    > {
        match router.pool_at(side) {
            None => Err(DhcpError::DisabledDHCP),
            Some(pool) => self.lease(router.nic_at(side), pool),
        }
    }

    /// What the interface `mac` answers to a request for a lease: nothing
    /// where it is no router interface with a pool; else the lease with the
    /// mask of the pool, or the reason why the pool gave none.
    pub open spec fn offer(self, mac: MAC) -> Option<Result<(IP, IP), DhcpError>> {
        match self.router_index(mac) {
            Some(i) => {
                let router = self.routers[i];
                let side = router.side_of(mac);
                match router.pool_at(side) {
                    Some(pool) => Some(
                        match self.router_lease(router, side) {
                            Ok(ip) => Ok((ip, pool.netmask)),
                            Err(e) => Err(e),
                        },
                    ),
                    None => None,
                }
            },
            None => None,
        }
    }

    /// The lease found by asking the identities of `order` from position
    /// `from` on, in order: the first lease offered, with its mask. Where
    /// none is offered, the reason given by the last pool that was asked,
    /// or `fallback` if none was.
    pub open spec fn lease_search(self, order: Seq<MAC>, from: int, fallback: DhcpError) -> Result<
        (IP, IP),
        DhcpError,
    >
        decreases order.len() - from,
    {
        if from < 0 || from >= order.len() {
            Err(fallback)
        } else {
            match self.offer(order[from]) {
                None => self.lease_search(order, from + 1, fallback),
                Some(Ok(found)) => Ok(found),
                Some(Err(e)) => self.lease_search(order, from + 1, e),
            }
        }
    }

    /// Every identity is registered once.
    pub open spec fn registered_once(self) -> bool {
        forall|i: int, j: int|
            0 <= i < j < self.registry.len() ==> (#[trigger] self.registry[i]).0
                != (#[trigger] self.registry[j]).0
    }

    /// Every registered identity has an interface on record.
    pub open spec fn registry_backed(self) -> bool {
        forall|i: int|
            0 <= i < self.registry.len() ==> self.nic((#[trigger] self.registry[i]).0) is Some
    }

    /// The two interfaces of every router have different identities, both
    /// registered as a router's, and no two routers share an identity.
    pub open spec fn routers_sound(self) -> bool {
        &&& forall|i: int|
            0 <= i < self.routers.len() ==> {
                let r = #[trigger] self.routers[i];
                &&& r.nic_lan.mac != r.nic_wan.mac
                &&& self.kind(r.nic_lan.mac) == Some(NodeType::Router)
                &&& self.kind(r.nic_wan.mac) == Some(NodeType::Router)
            }
        &&& forall|i: int, j: int|
            0 <= i < j < self.routers.len() ==> !(#[trigger] self.routers[i]).owns(
                (#[trigger] self.routers[j]).nic_lan.mac,
            ) && !self.routers[i].owns(self.routers[j].nic_wan.mac)
    }

    /// The interface of every device has an identity registered as a
    /// device's, and no two devices share an identity.
    pub open spec fn devices_sound(self) -> bool {
        &&& forall|i: int|
            0 <= i < self.devices.len() ==> self.kind((#[trigger] self.devices[i]).nic.mac)
                == Some(NodeType::Device)
        &&& forall|i: int, j: int|
            0 <= i < j < self.devices.len() ==> (#[trigger] self.devices[i]).nic.mac
                != (#[trigger] self.devices[j]).nic.mac
    }

    /// Both ends of every link are registered, no two links join the same
    /// pair of identities, and no interface has more links than its kind
    /// allows.
    pub open spec fn links_sound(self) -> bool {
        &&& forall|i: int|
            0 <= i < self.links.len() ==> self.kind((#[trigger] self.links[i]).0) is Some
                && self.kind(self.links[i].1) is Some
        &&& forall|i: int, j: int|
            0 <= i < j < self.links.len() ==> !joins(
                #[trigger] self.links[j],
                (#[trigger] self.links[i]).0,
                self.links[i].1,
            )
        &&& forall|mac: MAC|
            (#[trigger] self.kind(mac)) matches Some(kind) ==> links_of(self.links, mac).len()
                <= port_limit(kind)
    }

    /// What holds of every state that the operations of the graph lead to:
    /// no two interfaces share an identity, the registry and the records
    /// agree, and the links keep to the rules.
    pub open spec fn wf(self) -> bool {
        &&& self.registered_once()
        &&& self.registry_backed()
        &&& self.routers_sound()
        &&& self.devices_sound()
        &&& self.links_sound()
    }

    /// What installing `router` makes of the state: the router is added,
    /// its identities are registered, and its two interfaces are linked
    /// with each other. Refused where the two identities are linked
    /// already, and then where one of them is registered already.
    pub open spec fn install(self, router: Router) -> Result<GraphView, GraphError> {
        if linked(self.links, router.nic_lan.mac, router.nic_wan.mac) {
            Err(GraphError::ConnectionAlreadyExists)
        } else if !self.admits(router) {
            Err(GraphError::AlreadyExistingMacAddress)
        } else {
            Ok(self.with_router(router).with_link(router.nic_lan.mac, router.nic_wan.mac))
        }
    }

    /// The interface that a source asks a lease for: the interface itself
    /// if it has a link, and else the interface with the loopback address
    /// and mask in place of its own.
    pub open spec fn petitioner(self, nic: NIC) -> NIC {
        if links_of(self.links, nic.mac).len() == 0 {
            NIC { ip: loopback_ip(), netmask: loopback_mask(), mac: nic.mac }
        } else {
            nic
        }
    }

    /// What linking the interface `src` to the interface `dst` makes of the
    /// state, with the lease that `src` was given, if it needed one.
    ///
    /// The link is refused where the two are linked already; where one of
    /// them has no record; where one of them is full. Two interfaces on
    /// the same network are then linked as they are. Else the source must
    /// take a new address: it may do so only if it has no link yet, or has
    /// a loopback address; the identities that can be reached from `dst`
    /// are asked for a lease in the order of the traversal; and the source,
    /// with the lease as its address and the mask of the pool, must be on
    /// the network of `dst`. Only then is the record of the source changed
    /// and the link made.
    pub open spec fn connect(self, src: MAC, dst: MAC) -> Result<
        (GraphView, Option<IP>),
        ConnectionError,
    > {
        if linked(self.links, src, dst) {
            Err(ConnectionError::Graph(GraphError::ConnectionAlreadyExists))
        } else if self.nic(src) is None {
            Err(ConnectionError::UnknownInterface(src))
        } else if self.nic(dst) is None {
            Err(ConnectionError::UnknownInterface(dst))
        } else if self.full(src) {
            Err(ConnectionError::Graph(GraphError::MaxConnectionReached(src)))
        } else if self.full(dst) {
            Err(ConnectionError::Graph(GraphError::MaxConnectionReached(dst)))
        } else if self.nic(src)->0.on_network_of(self.nic(dst)->0) {
            Ok((self.with_link(src, dst), None))
        } else if self.petitioner(self.nic(src)->0).ip.octet(0) != 127 {
            Err(ConnectionError::Graph(GraphError::ConnectionNotPossible))
        } else {
            match self.lease_search(bfs_order(self.links, dst), 0, DhcpError::NoDHCPServerFound) {
                Err(e) => Err(ConnectionError::Dhcp(e)),
                Ok((ip, netmask)) => {
                    let leased = NIC { ip, netmask, mac: src };
                    if leased.on_network_of(self.nic(dst)->0) {
                        Ok((self.with_nic(src, leased).with_link(src, dst), Some(ip)))
                    } else {
                        Err(ConnectionError::Graph(GraphError::ConnectionNotPossible))
                    }
                },
            }
        }
    }
}

/// Whether `device` has the identity `mac` and the address `ip`.
pub open spec fn device_holds(device: Device, mac: MAC, ip: IP) -> bool {
    device.nic.mac == mac && device.nic.ip == ip
}

/// Whether one interface of `router` has the identity `mac` and the
/// address `ip`.
pub open spec fn router_holds(router: Router, mac: MAC, ip: IP) -> bool {
    ||| router.nic_lan.mac == mac && router.nic_lan.ip == ip
    ||| router.nic_wan.mac == mac && router.nic_wan.ip == ip
}

/// What the lease from a pool is: an address of the range that is not
/// live, below which every address of the range is live; and no lease
/// exactly where every address of the range is live.
pub proof fn lemma_lease(g: GraphView, nic: NIC, pool: DHCP)
    ensures
        match g.lease(nic, pool) {
            Ok(ip) => pool.first_ip@ <= ip@ <= pool.last_ip@ && !g.live(nic.mac, ip) && forall|
                c: IP,
            | pool.first_ip@ <= c@ < ip@ ==> #[trigger] g.live(nic.mac, c),
            Err(e) => e == DhcpError::NoMoreIPsAvailable,
        },
        g.lease(nic, pool) is Err <==> forall|c: IP|
            pool.first_ip@ <= c@ <= pool.last_ip@ ==> #[trigger] g.live(nic.mac, c),
{
    if exists|c: IP| g.first_free(nic, pool, c) {
        let ip = choose|c: IP| g.first_free(nic, pool, c);
        assert(g.first_free(nic, pool, ip));
        assert(!g.taken(nic, ip));
        assert forall|c: IP| pool.first_ip@ <= c@ < ip@ implies #[trigger] g.live(nic.mac, c) by {
            assert(g.taken(nic, c));
        }
    } else {
        assert forall|c: IP| pool.first_ip@ <= c@ <= pool.last_ip@ implies #[trigger] g.live(
            nic.mac,
            c,
        ) by {
            if !g.live(nic.mac, c) {
                lemma_least_free(g, nic, pool, c, (c@ - pool.first_ip@) as nat);
            }
        }
    }
}

/// Where an address of the range is not live, the range has a first free
/// address.
pub proof fn lemma_least_free(g: GraphView, nic: NIC, pool: DHCP, c: IP, distance: nat)
    requires
        pool.first_ip@ <= c@ <= pool.last_ip@,
        distance == c@ - pool.first_ip@,
        !g.live(nic.mac, c),
    ensures
        exists|f: IP| g.first_free(nic, pool, f),
    decreases distance,
{
    if forall|e: IP| pool.first_ip@ <= e@ < c@ ==> #[trigger] g.taken(nic, e) {
        assert(g.first_free(nic, pool, c));
    } else {
        let e = choose|e: IP| pool.first_ip@ <= e@ < c@ && !#[trigger] g.taken(nic, e);
        lemma_least_free(g, nic, pool, e, (e@ - pool.first_ip@) as nat);
    }
}

/// Where every pool that is asked has all its addresses live, and one is
/// asked at all, the search for a lease ends with the error that no more
/// addresses are available.
pub proof fn lemma_pools_exhausted(g: GraphView, order: Seq<MAC>, from: int, fallback: DhcpError)
    requires
        0 <= from,
        forall|i: int|
            from <= i < order.len() ==> (g.offer(#[trigger] order[i]) matches Some(answer)
                ==> answer == Err::<(IP, IP), DhcpError>(DhcpError::NoMoreIPsAvailable)),
    ensures
        g.lease_search(order, from, fallback) == Err::<(IP, IP), DhcpError>(
            if fallback == DhcpError::NoMoreIPsAvailable || exists|i: int|
                from <= i < order.len() && g.offer(#[trigger] order[i]) is Some {
                DhcpError::NoMoreIPsAvailable
            } else {
                fallback
            },
        ),
    decreases order.len() - from,
{
    if from < order.len() {
        let answer = g.offer(order[from]);
        match answer {
            None => {
                lemma_pools_exhausted(g, order, from + 1, fallback);
                if exists|i: int| from <= i < order.len() && g.offer(#[trigger] order[i]) is Some {
                    let i = choose|i: int|
                        from <= i < order.len() && g.offer(#[trigger] order[i]) is Some;
                    assert(from + 1 <= i < order.len() && g.offer(order[i]) is Some);
                }
            },
            Some(_) => {
                lemma_pools_exhausted(g, order, from + 1, DhcpError::NoMoreIPsAvailable);
                assert(g.offer(order[from]) is Some);
            },
        }
    }
}

/// The search for a lease gives what the first interface asked that
/// offers a lease offers.
pub proof fn lemma_first_offer(g: GraphView, order: Seq<MAC>, from: int, at: int, fallback: DhcpError)
    requires
        0 <= from <= at < order.len(),
        g.offer(order[at]) matches Some(Ok(_)),
        forall|i: int| from <= i < at ==> !(g.offer(#[trigger] order[i]) matches Some(Ok(_))),
    ensures
        g.lease_search(order, from, fallback) == Ok::<(IP, IP), DhcpError>(
            g.offer(order[at])->0->Ok_0,
        ),
    decreases at - from,
{
    if from < at {
        assert(!(g.offer(order[from]) matches Some(Ok(_))));
        match g.offer(order[from]) {
            None => lemma_first_offer(g, order, from + 1, at, fallback),
            Some(Err(e)) => lemma_first_offer(g, order, from + 1, at, e),
            Some(Ok(_)) => {},
        }
    }
}

/// A pool has at most one first free address.
pub proof fn lemma_first_free_unique(g: GraphView, nic: NIC, pool: DHCP, c1: IP, c2: IP)
    requires
        g.first_free(nic, pool, c1),
        g.first_free(nic, pool, c2),
    ensures
        c1 == c2,
{
    if c1@ < c2@ {
        assert(g.taken(nic, c1));
    } else if c2@ < c1@ {
        assert(g.taken(nic, c2));
    } else {
        c1.lemma_value_injective(c2);
    }
}

/// The interface on record under an identity has that identity.
pub proof fn lemma_nic_identity(g: GraphView, mac: MAC)
    ensures
        g.nic(mac) matches Some(nic) ==> nic.mac == mac && g.kind(mac) is Some,
{
    lemma_router_from(g.routers, mac, 0);
    lemma_device_from(g.devices, mac, 0);
}

/// The first router that owns `mac` is the one that the search finds.
pub proof fn lemma_router_first(routers: Seq<Router>, mac: MAC, from: int, i: int)
    requires
        0 <= from <= i < routers.len(),
        routers[i].owns(mac),
        forall|j: int| from <= j < i ==> !(#[trigger] routers[j]).owns(mac),
    ensures
        router_from(routers, mac, from) == Some(i),
    decreases i - from,
{
    if from < i {
        assert(!routers[from].owns(mac));
        lemma_router_first(routers, mac, from + 1, i);
    }
}

/// The first device with the identity `mac` is the one that the search
/// finds.
pub proof fn lemma_device_first(devices: Seq<Device>, mac: MAC, from: int, i: int)
    requires
        0 <= from <= i < devices.len(),
        devices[i].nic.mac == mac,
        forall|j: int| from <= j < i ==> (#[trigger] devices[j]).nic.mac != mac,
    ensures
        device_from(devices, mac, from) == Some(i),
    decreases i - from,
{
    if from < i {
        assert(devices[from].nic.mac != mac);
        lemma_device_first(devices, mac, from + 1, i);
    }
}

/// Of two changes to the record of one interface, the second alone counts,
/// as long as the first kept the identity.
pub proof fn lemma_with_nic_twice(g: GraphView, mac: MAC, first: NIC, second: NIC)
    requires
        first.mac == mac,
    ensures
        g.with_nic(mac, first).with_nic(mac, second) == g.with_nic(mac, second),
{
    let g1 = g.with_nic(mac, first);
    lemma_router_from(g.routers, mac, 0);
    lemma_device_from(g.devices, mac, 0);
    match g.kind(mac) {
        Some(NodeType::Router) => {
            if let Some(i) = g.router_index(mac) {
                assert forall|j: int| 0 <= j < i implies !(#[trigger] g1.routers[j]).owns(mac) by {
                    assert(g1.routers[j] == g.routers[j]);
                }
                lemma_router_first(g1.routers, mac, 0, i);
                assert(g1.with_nic(mac, second).routers =~= g.with_nic(mac, second).routers);
            }
        },
        Some(NodeType::Device) => {
            if let Some(i) = g.device_index(mac) {
                assert forall|j: int| 0 <= j < i implies (#[trigger] g1.devices[j]).nic.mac
                    != mac by {
                    assert(g1.devices[j] == g.devices[j]);
                }
                lemma_device_first(g1.devices, mac, 0, i);
                assert(g1.with_nic(mac, second).devices =~= g.with_nic(mac, second).devices);
            }
        },
        None => {},
    }
}

/// Putting on record what is on record changes nothing.
pub proof fn lemma_with_nic_same(g: GraphView, mac: MAC)
    ensures
        g.nic(mac) matches Some(nic) ==> g.with_nic(mac, nic) == g,
{
    lemma_router_from(g.routers, mac, 0);
    lemma_device_from(g.devices, mac, 0);
    if let Some(nic) = g.nic(mac) {
        assert(g.with_nic(mac, nic).routers =~= g.routers);
        assert(g.with_nic(mac, nic).devices =~= g.devices);
    }
}

/// An interface that is full takes no further link: linking it is refused
/// with the identity that is full, the source's before the destination's,
/// whatever the networks of the two are and whether or not a lease could
/// be had.
pub proof fn lemma_full_interface_refused(g: GraphView, src: MAC, dst: MAC)
    requires
        !linked(g.links, src, dst),
        g.nic(src) is Some,
        g.nic(dst) is Some,
        g.full(src) || g.full(dst),
    ensures
        g.connect(src, dst) == Err::<(GraphView, Option<IP>), ConnectionError>(
            ConnectionError::Graph(
                GraphError::MaxConnectionReached(
                    if g.full(src) {
                        src
                    } else {
                        dst
                    },
                ),
            ),
        ),
{
}

/// A device whose interface has a link is full: it can be linked neither
/// to nor from any other interface.
pub proof fn lemma_linked_device_refused(g: GraphView, device: MAC, other: MAC)
    requires
        g.kind(device) == Some(NodeType::Device),
        links_of(g.links, device).len() >= 1,
        g.nic(device) is Some,
        g.nic(other) is Some,
        !linked(g.links, device, other),
    ensures
        g.full(device),
        g.connect(device, other) == Err::<(GraphView, Option<IP>), ConnectionError>(
            ConnectionError::Graph(GraphError::MaxConnectionReached(device)),
        ),
        g.connect(other, device) == Err::<(GraphView, Option<IP>), ConnectionError>(
            ConnectionError::Graph(
                GraphError::MaxConnectionReached(
                    if g.full(other) {
                        other
                    } else {
                        device
                    },
                ),
            ),
        ),
{
    assert forall|i: int| 0 <= i < g.links.len() implies !joins(
        #[trigger] g.links[i],
        other,
        device,
    ) by {
        if joins(g.links[i], other, device) {
            assert(joins(g.links[i], device, other));
        }
    }
    lemma_full_interface_refused(g, device, other);
    lemma_full_interface_refused(g, other, device);
}

/// Where none of the identities asked is a router interface with a pool,
/// the search for a lease ends with the fallback.
pub proof fn lemma_no_pool_no_lease(g: GraphView, order: Seq<MAC>, from: int, fallback: DhcpError)
    requires
        0 <= from,
        forall|i: int| from <= i < order.len() ==> g.offer(#[trigger] order[i]) is None,
    ensures
        g.lease_search(order, from, fallback) == Err::<(IP, IP), DhcpError>(fallback),
    decreases order.len() - from,
{
    if from < order.len() {
        assert(g.offer(order[from]) is None);
        lemma_no_pool_no_lease(g, order, from + 1, fallback);
    }
}

/// Two interfaces on different networks, the source without a link, are
/// not linked where no pool can be reached from the destination: the
/// attempt ends with the error that no DHCP server was found.
pub proof fn lemma_no_server_in_reach(g: GraphView, src: MAC, dst: MAC)
    requires
        !linked(g.links, src, dst),
        g.nic(src) is Some,
        g.nic(dst) is Some,
        !g.full(src),
        !g.full(dst),
        !g.nic(src)->0.on_network_of(g.nic(dst)->0),
        links_of(g.links, src).len() == 0,
        forall|i: int|
            0 <= i < bfs_order(g.links, dst).len() ==> g.offer(
                #[trigger] bfs_order(g.links, dst)[i],
            ) is None,
    ensures
        g.connect(src, dst) == Err::<(GraphView, Option<IP>), ConnectionError>(
            ConnectionError::Dhcp(DhcpError::NoDHCPServerFound),
        ),
{
    lemma_nic_identity(g, src);
    lemma_no_pool_no_lease(g, bfs_order(g.links, dst), 0, DhcpError::NoDHCPServerFound);
}

} // verus!
