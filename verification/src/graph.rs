//! The topology graph: nodes, links between their interfaces, and the
//! questions asked of them.

use crate::device::Device;
use crate::dhcp::DhcpError;
use crate::ip::IP;
use crate::mac::MAC;
use crate::model::{
    GraphView, device_from, device_holds, kind_from, lemma_nic_identity, lemma_with_nic_same,
    lemma_with_nic_twice, router_from, router_holds,
};
use crate::nic::NIC;
use crate::router::{Router, RouterInterface};
use crate::wellformed::{
    lemma_wf_connect, lemma_wf_empty, lemma_wf_install, lemma_wf_with_device, lemma_wf_with_link,
    lemma_wf_with_nic, lemma_wf_with_router,
};
use crate::topology::{
    absorb, bfs_order, bfs_scan, joins, lemma_bfs_order, lemma_scan_step, lemma_seen_bound, linked,
    links_of, neighbors_of, reachable, scan_inv, is_walk,
};
use vstd::prelude::*;

verus! {

/// The kind of node that an interface belongs to.
#[derive(Clone, Copy, Debug, PartialEq, Eq, Structural)]
pub enum NodeType {
    Router,
    Device,
}

/// Why the graph refused an operation.
#[derive(Clone, Copy, Debug, PartialEq, Eq, Structural)]
pub enum GraphError {
    /// An identity of the new node is registered already.
    AlreadyExistingMacAddress,
    /// The two interfaces are linked already.
    ConnectionAlreadyExists,
    /// The interface with this identity has all the links it may have.
    MaxConnectionReached(MAC),
    /// An interface is missing, or the two are not on the same network.
    ConnectionNotPossible,
}

/// Why two interfaces could not be linked.
#[derive(Clone, Copy, Debug, PartialEq, Eq, Structural)]
pub enum ConnectionError {
    /// No interface with this identity is on record.
    UnknownInterface(MAC),
    /// The graph refused the link.
    Graph(GraphError),
    /// The source needed a lease and got none.
    Dhcp(DhcpError),
}

/// A topology: routers and devices, the registry of their interfaces'
/// identities, and the links between interfaces.
#[derive(Clone)]
pub struct Graph {
    nodes: Vec<(MAC, NodeType)>,
    connections: Vec<(MAC, MAC)>,
    pub routers: Vec<Router>,
    pub devices: Vec<Device>,
}

impl View for Graph {
    type V = GraphView;

    closed spec fn view(&self) -> GraphView {
        GraphView {
            registry: self.nodes@,
            links: self.connections@,
            routers: self.routers@,
            devices: self.devices@,
        }
    }
}

impl Graph {
    /// A graph with no node and no link.
    pub fn new() -> (r: Graph)
        ensures
            r@ == GraphView::empty(),
            r@.wf(),
    {
        proof {
            lemma_wf_empty();
        }
        Graph {
            nodes: Vec::new(),
            connections: Vec::new(),
            routers: Vec::new(),
            devices: Vec::new(),
        }
    }

    /// The registry: every registered identity with the kind of its node,
    /// in the order of registration.
    pub fn all_nodes(&self) -> (r: &Vec<(MAC, NodeType)>)
        ensures
            r@ == self@.registry,
    {
        &self.nodes
    }

    /// The routers, in the order in which they were added.
    pub fn all_routers(&self) -> (r: &Vec<Router>)
        ensures
            r@ == self@.routers,
    {
        &self.routers
    }

    /// The devices, in the order in which they were added.
    pub fn all_devices(&self) -> (r: &Vec<Device>)
        ensures
            r@ == self@.devices,
    {
        &self.devices
    }

    /// The links, in the order in which they were made.
    pub fn all_connections(&self) -> (r: &Vec<(MAC, MAC)>)
        ensures
            r@ == self@.links,
    {
        &self.connections
    }

    /// Adds a router and registers the identities of its two interfaces,
    /// unless one of them is registered already or the two are the same.
    pub fn append_router(&mut self, router: Router) -> (r: Result<(), GraphError>)
        ensures
            old(self)@.admits(router) ==> r is Ok && final(self)@ == old(self)@.with_router(
                router,
            ),
            !old(self)@.admits(router) ==> r == Err::<(), GraphError>(
                GraphError::AlreadyExistingMacAddress,
            ) && final(self)@ == old(self)@,
            old(self)@.wf() ==> final(self)@.wf(),
    {
        proof {
            if self@.wf() && self@.admits(router) {
                lemma_wf_with_router(self@, router);
            }
        }
        if router.nic_lan.mac == router.nic_wan.mac || self.node_type_with_mac(
            router.nic_lan.mac,
        ).is_some() || self.node_type_with_mac(router.nic_wan.mac).is_some() {
            return Err(GraphError::AlreadyExistingMacAddress);
        }
        self.nodes.push((router.nic_lan.mac, NodeType::Router));
        self.nodes.push((router.nic_wan.mac, NodeType::Router));
        self.routers.push(router);
        Ok(())
    }

    /// Adds a device and registers the identity of its interface, unless
    /// it is registered already.
    pub fn append_device(&mut self, device: Device) -> (r: Result<(), GraphError>)
        ensures
            old(self)@.kind(device.nic.mac) is None ==> r is Ok && final(self)@ == old(
                self,
            )@.with_device(device),
            old(self)@.kind(device.nic.mac) is Some ==> r == Err::<(), GraphError>(
                GraphError::AlreadyExistingMacAddress,
            ) && final(self)@ == old(self)@,
            old(self)@.wf() ==> final(self)@.wf(),
    {
        proof {
            if self@.wf() && self@.kind(device.nic.mac) is None {
                lemma_wf_with_device(self@, device);
            }
        }
        if self.node_type_with_mac(device.nic.mac).is_some() {
            return Err(GraphError::AlreadyExistingMacAddress);
        }
        self.nodes.push((device.nic.mac, NodeType::Device));
        self.devices.push(device);
        Ok(())
    }

    /// Links two interfaces, unless the link is refused: the graph is then
    /// left as it was. Address and mask are those of the interfaces as
    /// given, not those on record.
    pub fn append_connection(&mut self, nic1: NIC, nic2: NIC) -> (r: Result<(), GraphError>)
        ensures
            match old(self)@.link_refusal(nic1, nic2) {
                Some(e) => r == Err::<(), GraphError>(e) && final(self)@ == old(self)@,
                None => r is Ok && final(self)@ == old(self)@.with_link(nic1.mac, nic2.mac),
            },
            old(self)@.wf() ==> final(self)@.wf(),
    {
        proof {
            if self@.wf() && self@.link_refusal(nic1, nic2) is None {
                lemma_wf_with_link(self@, nic1.mac, nic2.mac);
            }
        }
        if self.are_connected(nic1.mac, nic2.mac) {
            return Err(GraphError::ConnectionAlreadyExists);
        }
        if let Some(e) = self.port_refusal(nic1.mac) {
            return Err(e);
        }
        if let Some(e) = self.port_refusal(nic2.mac) {
            return Err(e);
        }
        if !nic1.same_network(nic2) {
            return Err(GraphError::ConnectionNotPossible);
        }
        self.connections.push((nic1.mac, nic2.mac));
        Ok(())
    }

    /// Why the interface `mac` can take no further link: it is not
    /// registered, or it is full.
    fn port_refusal(&self, mac: MAC) -> (r: Option<GraphError>)
        ensures
            r == if self@.kind(mac) is None {
                Some(GraphError::ConnectionNotPossible)
            } else if self@.full(mac) {
                Some(GraphError::MaxConnectionReached(mac))
            } else {
                None
            },
    {
        let connections = self.connections(mac);
        match self.node_type_with_mac(mac) {
            Some(NodeType::Device) => {
                if connections.len() >= 1 {
                    Some(GraphError::MaxConnectionReached(mac))
                } else {
                    None
                }
            },
            Some(NodeType::Router) => {
                if connections.len() >= 2 {
                    Some(GraphError::MaxConnectionReached(mac))
                } else {
                    None
                }
            },
            None => Some(GraphError::ConnectionNotPossible),
        }
    }

    /// Links the two interfaces of one router. Neither the networks nor
    /// the number of links are looked at; only a link that exists already
    /// is refused.
    pub fn append_internal_router_connection(&mut self, mac_lan: MAC, mac_wan: MAC) -> (r: Result<
        (),
        GraphError,
    >)
        ensures
            linked(old(self)@.links, mac_lan, mac_wan) ==> r == Err::<(), GraphError>(
                GraphError::ConnectionAlreadyExists,
            ) && final(self)@ == old(self)@,
            !linked(old(self)@.links, mac_lan, mac_wan) ==> r is Ok && final(self)@ == old(
                self,
            )@.with_link(mac_lan, mac_wan),
            old(self)@.wf() && old(self)@.kind(mac_lan) is Some && old(self)@.kind(mac_wan)
                is Some && !old(self)@.full(mac_lan) && !old(self)@.full(mac_wan)
                ==> final(self)@.wf(),
    {
        proof {
            if self@.wf() && self@.kind(mac_lan) is Some && self@.kind(mac_wan) is Some
                && !self@.full(mac_lan) && !self@.full(mac_wan) && !linked(
                self@.links,
                mac_lan,
                mac_wan,
            ) {
                lemma_wf_with_link(self@, mac_lan, mac_wan);
            }
        }
        if self.are_connected(mac_lan, mac_wan) {
            return Err(GraphError::ConnectionAlreadyExists);
        }
        self.connections.push((mac_lan, mac_wan));
        Ok(())
    }

    /// The identities linked to `mac`, one for each link that touches it,
    /// in the order of the links.
    pub fn neighbors(&self, mac: MAC) -> (r: Vec<MAC>)
        ensures
            r@ == neighbors_of(self@.links, mac),
    {
        let mut neighbors: Vec<MAC> = Vec::new();
        let mut i: usize = 0;
        assert(self.connections@.take(0) =~= Seq::empty());
        while i < self.connections.len()
            invariant
                i <= self.connections.len(),
                neighbors@ == neighbors_of(self.connections@.take(i as int), mac),
            decreases self.connections.len() - i,
        {
            let (mac1, mac2) = self.connections[i];
            proof {
                let next = self.connections@.take(i + 1);
                assert(next.drop_last() =~= self.connections@.take(i as int));
                assert(next.last() == (mac1, mac2));
            }
            if mac1 == mac {
                neighbors.push(mac2);
            } else if mac2 == mac {
                neighbors.push(mac1);
            }
            i += 1;
        }
        assert(self.connections@.take(i as int) =~= self.connections@);
        neighbors
    }

    /// The links that touch `mac`, in their order.
    pub fn connections(&self, mac: MAC) -> (r: Vec<(MAC, MAC)>)
        ensures
            r@ == links_of(self@.links, mac),
    {
        let mut connections: Vec<(MAC, MAC)> = Vec::new();
        let mut i: usize = 0;
        assert(self.connections@.take(0) =~= Seq::empty());
        while i < self.connections.len()
            invariant
                i <= self.connections.len(),
                connections@ == links_of(self.connections@.take(i as int), mac),
            decreases self.connections.len() - i,
        {
            let (mac1, mac2) = self.connections[i];
            proof {
                let next = self.connections@.take(i + 1);
                assert(next.drop_last() =~= self.connections@.take(i as int));
                assert(next.last() == (mac1, mac2));
            }
            if mac1 == mac || mac2 == mac {
                connections.push((mac1, mac2));
            }
            i += 1;
        }
        assert(self.connections@.take(i as int) =~= self.connections@);
        connections
    }

    /// Whether a link joins the two identities, in either direction.
    pub fn are_connected(&self, mac1: MAC, mac2: MAC) -> (r: bool)
        ensures
            r == linked(self@.links, mac1, mac2),
    {
        let mut i: usize = 0;
        while i < self.connections.len()
            invariant
                i <= self.connections.len(),
                forall|j: int| 0 <= j < i ==> !joins(#[trigger] self.connections@[j], mac1, mac2),
            decreases self.connections.len() - i,
        {
            let (m1, m2) = self.connections[i];
            if (m1 == mac1 && m2 == mac2) || (m1 == mac2 && m2 == mac1) {
                assert(joins(self.connections@[i as int], mac1, mac2));
                return true;
            }
            i += 1;
        }
        false
    }

    /// The kind of node under which `mac` is registered, if it is.
    pub fn node_type_with_mac(&self, mac: MAC) -> (r: Option<NodeType>)
        ensures
            r == self@.kind(mac),
    {
        let mut i: usize = 0;
        while i < self.nodes.len()
            invariant
                i <= self.nodes.len(),
                kind_from(self.nodes@, mac, 0) == kind_from(self.nodes@, mac, i as int),
            decreases self.nodes.len() - i,
        {
            let (node_mac, kind) = self.nodes[i];
            if node_mac == mac {
                return Some(kind);
            }
            i += 1;
        }
        None
    }

    /// The position of the first router one of whose interfaces has the
    /// identity `mac`.
    fn router_position(&self, mac: MAC) -> (r: Option<usize>)
        ensures
            match r {
                Some(i) => self@.router_index(mac) == Some(i as int) && i < self@.routers.len()
                    && self@.routers[i as int].owns(mac),
                None => self@.router_index(mac) is None,
            },
    {
        let mut i: usize = 0;
        while i < self.routers.len()
            invariant
                i <= self.routers.len(),
                router_from(self.routers@, mac, 0) == router_from(self.routers@, mac, i as int),
            decreases self.routers.len() - i,
        {
            if self.routers[i].nic_lan.mac == mac || self.routers[i].nic_wan.mac == mac {
                return Some(i);
            }
            i += 1;
        }
        None
    }

    /// The position of the first device whose interface has the identity
    /// `mac`.
    fn device_position(&self, mac: MAC) -> (r: Option<usize>)
        ensures
            match r {
                Some(i) => self@.device_index(mac) == Some(i as int) && i < self@.devices.len()
                    && self@.devices[i as int].nic.mac == mac,
                None => self@.device_index(mac) is None,
            },
    {
        let mut i: usize = 0;
        while i < self.devices.len()
            invariant
                i <= self.devices.len(),
                device_from(self.devices@, mac, 0) == device_from(self.devices@, mac, i as int),
            decreases self.devices.len() - i,
        {
            if self.devices[i].nic.mac == mac {
                return Some(i);
            }
            i += 1;
        }
        None
    }

    /// The first router that owns `mac`, with the side on which it does.
    pub fn search_router_with_mac(&self, mac: MAC) -> (r: Option<(Router, RouterInterface)>)
        ensures
            r == match self@.router_index(mac) {
                Some(i) => Some((self@.routers[i], self@.routers[i].side_of(mac))),
                None => None,
            },
    {
        match self.router_position(mac) {
            Some(i) => {
                let router = self.routers[i].clone();
                if router.nic_lan.mac == mac {
                    Some((router, RouterInterface::LAN))
                } else {
                    Some((router, RouterInterface::WAN))
                }
            },
            None => None,
        }
    }

    /// The first device whose interface has the identity `mac`.
    pub fn search_device_with_mac(&self, mac: MAC) -> (r: Option<Device>)
        ensures
            r == match self@.device_index(mac) {
                Some(i) => Some(self@.devices[i]),
                None => None,
            },
    {
        match self.device_position(mac) {
            Some(i) => Some(self.devices[i].clone()),
            None => None,
        }
    }

    /// The interface with the identity `mac`, as it is on record.
    pub fn nic_with_mac(&self, mac: MAC) -> (r: Option<NIC>)
        ensures
            r == self@.nic(mac),
    {
        match self.node_type_with_mac(mac) {
            Some(NodeType::Router) => {
                match self.router_position(mac) {
                    Some(i) => {
                        if self.routers[i].nic_lan.mac == mac {
                            Some(self.routers[i].nic_lan)
                        } else {
                            Some(self.routers[i].nic_wan)
                        }
                    },
                    None => None,
                }
            },
            Some(NodeType::Device) => {
                match self.device_position(mac) {
                    Some(i) => Some(self.devices[i].nic),
                    None => None,
                }
            },
            None => None,
        }
    }

    /// Puts `new_nic` on record in place of the interface with the
    /// identity `mac`. Fails, and changes nothing, where there is no such
    /// record.
    pub fn update_nic(&mut self, mac: MAC, new_nic: NIC) -> (r: Result<(), GraphError>)
        ensures
            final(self)@ == old(self)@.with_nic(mac, new_nic),
            old(self)@.nic(mac) is Some ==> r is Ok,
            old(self)@.nic(mac) is None ==> r == Err::<(), GraphError>(
                GraphError::ConnectionNotPossible,
            ) && final(self)@ == old(self)@,
            old(self)@.wf() && new_nic.mac == mac ==> final(self)@.wf(),
    {
        proof {
            if new_nic.mac == mac {
                lemma_wf_with_nic(self@, mac, new_nic);
            }
        }
        match self.node_type_with_mac(mac) {
            Some(NodeType::Router) => {
                match self.router_position(mac) {
                    Some(i) => {
                        if self.routers[i].nic_lan.mac == mac {
                            self.routers[i].nic_lan = new_nic;
                        } else {
                            self.routers[i].nic_wan = new_nic;
                        }
                        Ok(())
                    },
                    None => Err(GraphError::ConnectionNotPossible),
                }
            },
            Some(NodeType::Device) => {
                match self.device_position(mac) {
                    Some(i) => {
                        self.devices[i].nic = new_nic;
                        Ok(())
                    },
                    None => Err(GraphError::ConnectionNotPossible),
                }
            },
            None => Err(GraphError::ConnectionNotPossible),
        }
    }

    /// The identities that a breadth-first traversal from `start` visits,
    /// in the order of the visit: `start` first, then level by level, the
    /// neighbours of each identity in the order of the links. Exactly what
    /// can be reached from `start` is visited, and nothing twice.
    pub fn breadth_first_search(&self, start: MAC) -> (r: Vec<MAC>)
        ensures
            r@ == bfs_order(self@.links, start),
            r@.len() >= 1,
            r@[0] == start,
            r@.no_duplicates(),
            forall|x: MAC| #[trigger] r@.contains(x) <==> reachable(self@.links, start, x),
    {
        let ghost links = self.connections@;
        let mut visited: Vec<MAC> = Vec::new();
        visited.push(start);
        let mut done: usize = 0;
        proof {
            assert(visited@ =~= seq![start]);
            assert(is_walk(links, visited@));
            assert(visited@[0] == start && visited@.last() == start);
            assert(reachable(links, start, visited@[0]));
            lemma_bfs_order(links, start);
        }
        while done < visited.len()
            invariant
                links == self.connections@,
                scan_inv(links, start, visited@, done as nat),
                bfs_scan(links, visited@, done as nat) == bfs_order(links, start),
            decreases 2 * links.len() + 1 - done,
        {
            proof {
                lemma_seen_bound(links, visited@);
                lemma_scan_step(links, start, visited@, done as nat);
            }
            let found = self.neighbors(visited[done]);
            let ghost seen = visited@;
            let mut j: usize = 0;
            assert(found@.take(0) =~= Seq::empty());
            while j < found.len()
                invariant
                    j <= found.len(),
                    visited@ == absorb(seen, found@.take(j as int)),
                decreases found.len() - j,
            {
                let neighbor = found[j];
                proof {
                    let next = found@.take(j + 1);
                    assert(next.drop_last() =~= found@.take(j as int));
                    assert(next.last() == neighbor);
                }
                if !Self::holds_identity(&visited, neighbor) {
                    visited.push(neighbor);
                }
                j += 1;
            }
            assert(found@.take(j as int) =~= found@);
            done += 1;
        }
        proof {
            lemma_seen_bound(links, visited@);
        }
        visited
    }

    /// Whether `mac` occurs in `list`.
    fn holds_identity(list: &Vec<MAC>, mac: MAC) -> (r: bool)
        ensures
            r == list@.contains(mac),
    {
        let mut i: usize = 0;
        while i < list.len()
            invariant
                i <= list.len(),
                forall|j: int| 0 <= j < i ==> list@[j] != mac,
            decreases list.len() - i,
        {
            if list[i] == mac {
                return true;
            }
            i += 1;
        }
        false
    }

    /// Whether the interface with the identity `mac` holds the address
    /// `ip`.
    fn interface_holds(&self, mac: MAC, ip: IP) -> (r: bool)
        ensures
            r == self@.holds(mac, ip),
    {
        match self.node_type_with_mac(mac) {
            Some(NodeType::Device) => {
                let mut i: usize = 0;
                while i < self.devices.len()
                    invariant
                        i <= self.devices.len(),
                        self@.kind(mac) == Some(NodeType::Device),
                        forall|j: int|
                            0 <= j < i ==> !device_holds(#[trigger] self@.devices[j], mac, ip),
                    decreases self.devices.len() - i,
                {
                    if self.devices[i].nic.mac == mac && self.devices[i].nic.ip == ip {
                        assert(device_holds(self@.devices[i as int], mac, ip));
                        return true;
                    }
                    i += 1;
                }
                false
            },
            Some(NodeType::Router) => {
                let mut i: usize = 0;
                while i < self.routers.len()
                    invariant
                        i <= self.routers.len(),
                        self@.kind(mac) == Some(NodeType::Router),
                        forall|j: int|
                            0 <= j < i ==> !router_holds(#[trigger] self@.routers[j], mac, ip),
                    decreases self.routers.len() - i,
                {
                    if self.routers[i].nic_lan.mac == mac && self.routers[i].nic_lan.ip == ip {
                        assert(router_holds(self@.routers[i as int], mac, ip));
                        return true;
                    }
                    if self.routers[i].nic_wan.mac == mac && self.routers[i].nic_wan.ip == ip {
                        assert(router_holds(self@.routers[i as int], mac, ip));
                        return true;
                    }
                    i += 1;
                }
                false
            },
            None => false,
        }
    }

    /// Whether an interface that can be reached from `start` holds the
    /// address `ip`.
    pub fn breadth_first_search_ip(&self, start: MAC, ip: IP) -> (r: bool)
        ensures
            r == self@.live(start, ip),
            r == exists|mac: MAC|
                reachable(self@.links, start, mac) && #[trigger] self@.holds(mac, ip),
    {
        let accessibles = self.breadth_first_search(start);
        let mut i: usize = 0;
        while i < accessibles.len()
            invariant
                i <= accessibles.len(),
                accessibles@ == bfs_order(self@.links, start),
                forall|x: MAC|
                    #[trigger] accessibles@.contains(x) <==> reachable(self@.links, start, x),
                forall|j: int| 0 <= j < i ==> !self@.holds(#[trigger] accessibles@[j], ip),
            decreases accessibles.len() - i,
        {
            if self.interface_holds(accessibles[i], ip) {
                assert(self@.holds(accessibles@[i as int], ip));
                assert(accessibles@.contains(accessibles@[i as int]));
                return true;
            }
            i += 1;
        }
        assert forall|mac: MAC| reachable(self@.links, start, mac) implies !#[trigger] self@.holds(
            mac,
            ip,
        ) by {
            assert(accessibles@.contains(mac));
        }
        false
    }

    /// Looks for a lease for `nic_src` among the interfaces that can be
    /// reached from `nic_dest`, asking them in the order of the traversal.
    /// The first lease offered is written into `nic_src`, with the mask of
    /// its pool. Where none is offered, `nic_src` stays as it was, and the
    /// error is that of the last pool asked, or that no pool was found.
    /// The graph itself is not changed.
    pub fn breadth_first_search_and_dhcp_connection(
        &mut self,
        nic_src: &mut NIC,
        nic_dest: &NIC,
    ) -> (r: Result<IP, DhcpError>)
        ensures
            final(self)@ == old(self)@,
            match old(self)@.lease_search(
                bfs_order(old(self)@.links, nic_dest.mac),
                0,
                DhcpError::NoDHCPServerFound,
            ) {
                Ok((ip, netmask)) => r == Ok::<IP, DhcpError>(ip) && *final(nic_src) == (NIC {
                    ip,
                    netmask,
                    mac: old(nic_src).mac,
                }),
                Err(e) => r == Err::<IP, DhcpError>(e) && *final(nic_src) == *old(nic_src),
            },
    {
        let mut last_dhcp_error: DhcpError = DhcpError::NoDHCPServerFound;
        let accessibles = self.breadth_first_search(nic_dest.mac);
        let ghost order = accessibles@;
        let mut i: usize = 0;
        while i < accessibles.len()
            invariant
                i <= accessibles.len(),
                order == accessibles@,
                order == bfs_order(self@.links, nic_dest.mac),
                *self == *old(self),
                *nic_src == *old(nic_src),
                self@.lease_search(order, 0, DhcpError::NoDHCPServerFound) == self@.lease_search(
                    order,
                    i as int,
                    last_dhcp_error,
                ),
            decreases accessibles.len() - i,
        {
            match self.lease_offer(accessibles[i]) {
                Some(Ok((ip, netmask))) => {
                    nic_src.ip = ip;
                    nic_src.netmask = netmask;
                    return Ok(ip);
                },
                Some(Err(e)) => {
                    last_dhcp_error = e;
                },
                None => {},
            }
            i += 1;
        }
        Err(last_dhcp_error)
    }

    /// What the interface `mac` answers to a request for a lease: nothing
    /// where it is no router interface with a pool; else the lease with
    /// the mask of the pool, or the reason why the pool gave none.
    fn lease_offer(&self, mac: MAC) -> (r: Option<Result<(IP, IP), DhcpError>>)
        ensures
            r == self@.offer(mac),
    {
        let idx = match self.router_position(mac) {
            Some(idx) => idx,
            None => {
                return None;
            },
        };
        let interface: RouterInterface = if self.routers[idx].nic_lan.mac == mac {
            RouterInterface::LAN
        } else {
            RouterInterface::WAN
        };
        let dhcp = match interface {
            RouterInterface::LAN => self.routers[idx].dhcp_lan,
            RouterInterface::WAN => self.routers[idx].dhcp_wan,
        };
        match dhcp {
            Some(pool) => {
                match self.routers[idx].get_next_dhcp_ip(self, interface) {
                    Ok(ip) => Some(Ok((ip, pool.netmask))),
                    Err(e) => Some(Err(e)),
                }
            },
            None => None,
        }
    }

    /// Installs a router: adds it, registers the identities of its two
    /// interfaces, and links the two with each other. Where it is refused,
    /// the graph is left as it was.
    pub fn install_router(&mut self, router: Router) -> (r: Result<(), GraphError>)
        ensures
            match old(self)@.install(router) {
                Ok(after) => r is Ok && final(self)@ == after,
                Err(e) => r == Err::<(), GraphError>(e) && final(self)@ == old(self)@,
            },
            old(self)@.wf() ==> final(self)@.wf(),
    {
        proof {
            if self@.wf() {
                lemma_wf_install(self@, router);
            }
        }
        let mac_lan = router.nic_lan.mac;
        let mac_wan = router.nic_wan.mac;
        if self.are_connected(mac_lan, mac_wan) {
            return Err(GraphError::ConnectionAlreadyExists);
        }
        match self.append_router(router) {
            Err(e) => {
                return Err(e);
            },
            _ => {},
        }
        self.append_internal_router_connection(mac_lan, mac_wan)
    }
}

/// Links the interface `mac_src` to the interface `mac_dest`. Where the two
/// are not on the same network, the source first takes a lease from a pool
/// that can be reached from the destination; the lease is then returned.
/// Where the link is refused, the graph is left as it was: no new address
/// stays on record without the link.
pub fn connection_with_mac(graph: &mut Graph, mac_src: MAC, mac_dest: MAC) -> (r: Result<
    Option<IP>,
    ConnectionError,
>)
    ensures
        match old(graph)@.connect(mac_src, mac_dest) {
            Ok((after, lease)) => r == Ok::<Option<IP>, ConnectionError>(lease) && final(graph)@
                == after,
            Err(e) => r == Err::<Option<IP>, ConnectionError>(e) && final(graph)@ == old(graph)@,
        },
        old(graph)@.wf() ==> final(graph)@.wf(),
{
    proof {
        if graph@.wf() {
            lemma_wf_connect(graph@, mac_src, mac_dest);
        }
        lemma_nic_identity(graph@, mac_src);
        lemma_nic_identity(graph@, mac_dest);
        lemma_with_nic_same(graph@, mac_src);
    }
    if graph.are_connected(mac_src, mac_dest) {
        return Err(ConnectionError::Graph(GraphError::ConnectionAlreadyExists));
    }
    let mut nic_src = match graph.nic_with_mac(mac_src) {
        Some(nic) => nic,
        None => {
            return Err(ConnectionError::UnknownInterface(mac_src));
        },
    };
    let nic_src_before = nic_src;
    let nic_dest = match graph.nic_with_mac(mac_dest) {
        Some(nic) => nic,
        None => {
            return Err(ConnectionError::UnknownInterface(mac_dest));
        },
    };
    if let Some(e) = graph.port_refusal(mac_src) {
        return Err(ConnectionError::Graph(e));
    }
    if let Some(e) = graph.port_refusal(mac_dest) {
        return Err(ConnectionError::Graph(e));
    }
    let mut lease: Option<IP> = None;
    if !nic_src.same_network(nic_dest) {
        if graph.connections(nic_src.mac).len() == 0 {
            nic_src.set_localhost();
        }
        if !nic_src.is_localhost() {
            return Err(ConnectionError::Graph(GraphError::ConnectionNotPossible));
        }
        match graph.breadth_first_search_and_dhcp_connection(&mut nic_src, &nic_dest) {
            Ok(ip) => {
                lease = Some(ip);
                if let Err(e) = graph.update_nic(mac_src, nic_src) {
                    return Err(ConnectionError::Graph(e));
                }
            },
            Err(e) => {
                return Err(ConnectionError::Dhcp(e));
            },
        }
    }
    proof {
        lemma_with_nic_twice(old(graph)@, mac_src, nic_src, nic_src_before);
    }
    match graph.append_connection(nic_src, nic_dest) {
        Ok(_) => Ok(lease),
        Err(e) => {
            let _ = graph.update_nic(mac_src, nic_src_before);
            Err(ConnectionError::Graph(e))
        },
    }
}

} // verus!
