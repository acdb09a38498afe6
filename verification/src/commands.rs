//! Commands over a topology.

use crate::graph::Graph;
use crate::ip::IP;
use crate::nic::NIC;
use vstd::prelude::*;

verus! {

/// How a ping ended.
#[derive(Clone, Copy, Debug, PartialEq, Eq, Structural)]
pub enum PingStatus {
    /// An interface that the source reaches holds the address.
    Success,
    /// The address is not on the network of the source.
    HostUnreachable,
    /// The address is on the network of the source, but no interface that
    /// the source reaches holds it.
    Timeout,
}

/// Pings `dest` from the interface `src`. That the address is on the
/// network of the source is decided from the source's own address and mask
/// alone; who holds the address, by a traversal of the links from the
/// identity of the source.
pub fn ping(graph: &Graph, src: NIC, dest: IP) -> (r: PingStatus)
    ensures
        r == graph@.ping(src, dest),
{
    if !src.same_network(NIC { ip: dest, netmask: src.netmask, mac: src.mac }) {
        return PingStatus::HostUnreachable;
    }
    if !graph.breadth_first_search_ip(src.mac, dest) {
        return PingStatus::Timeout;
    }
    PingStatus::Success
}

} // verus!
