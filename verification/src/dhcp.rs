//! Lease pools: the range of addresses that an interface may hand out.

use crate::ip::IP;
use crate::nic::{NIC, capacity, network_of, prefix_len};
use vstd::prelude::*;

verus! {

/// A lease pool: a range of addresses, first to last, under the mask of the
/// interface that it was made for.
#[derive(Clone, Copy, Debug, PartialEq, Eq, Structural)]
pub struct DHCP {
    pub netmask: IP,
    pub first_ip: IP,
    pub last_ip: IP,
}

/// Why a lease pool could not be made, or gave no lease.
#[derive(Clone, Copy, Debug, PartialEq, Eq, Structural)]
pub enum DhcpError {
    /// The interface has no pool.
    DisabledDHCP,
    /// The subnet of the interface addresses fewer than two hosts.
    NotEnoughAddressableIPs,
    /// A bound of the range is not on the network of the interface.
    IPsNotInSameNetwork,
    /// The last address of the range is not above the first.
    InvalidIPsRange,
    /// Every address of the range is taken.
    NoMoreIPsAvailable,
    /// No interface with a pool can be reached.
    NoDHCPServerFound,
}

impl DHCP {
    /// What holds of every pool that `new` has made: its subnet addresses at
    /// least two hosts, both bounds are on one network under the pool's
    /// mask, and the last address is above the first.
    pub open spec fn wf(self) -> bool {
        &&& capacity(prefix_len(self.netmask)) >= 2
        &&& network_of(self.first_ip, self.netmask) == network_of(self.last_ip, self.netmask)
        &&& self.last_ip@ > self.first_ip@
    }

    /// Whether the pool fits the interface: it has the mask of the
    /// interface, and its bounds are on the network of the interface.
    pub open spec fn serves(self, nic: NIC) -> bool {
        &&& self.netmask == nic.netmask
        &&& network_of(self.first_ip, self.netmask) == nic.network()
        &&& network_of(self.last_ip, self.netmask) == nic.network()
    }

    /// The pool from `first_ip` to `last_ip` for the interface `nic`, or the
    /// reason why there is none. The conditions are tried in this order:
    /// the subnet must address two hosts or more; both bounds must be on
    /// the network of the interface; the last must be above the first.
    pub open spec fn create(nic: NIC, first_ip: IP, last_ip: IP) -> Result<DHCP, DhcpError> {
        if capacity(prefix_len(nic.netmask)) < 2 {
            Err(DhcpError::NotEnoughAddressableIPs)
        } else if network_of(first_ip, nic.netmask) != nic.network() || network_of(
            last_ip,
            nic.netmask,
        ) != nic.network() {
            Err(DhcpError::IPsNotInSameNetwork)
        } else if !(last_ip@ > first_ip@) {
            Err(DhcpError::InvalidIPsRange)
        } else {
            Ok(DHCP { netmask: nic.netmask, first_ip, last_ip })
        }
    }

    /// Makes the lease pool from `first_ip` to `last_ip` for the interface
    /// `nic`.
    pub fn new(nic: NIC, first_ip: IP, last_ip: IP) -> (r: Result<DHCP, DhcpError>)
        ensures
            r == DHCP::create(nic, first_ip, last_ip),
            r matches Ok(pool) ==> pool.wf() && pool.serves(nic),
    {
        if nic.total_addressable_ips() < 2 {
            return Err(DhcpError::NotEnoughAddressableIPs);
        }
        let nic_start = NIC { ip: first_ip, netmask: nic.netmask, mac: nic.mac };
        let nic_end = NIC { ip: last_ip, netmask: nic.netmask, mac: nic.mac };
        if !nic.same_network(nic_start) || !nic.same_network(nic_end) {
            return Err(DhcpError::IPsNotInSameNetwork);
        }
        if !last_ip.is_greater_than(&first_ip) {
            return Err(DhcpError::InvalidIPsRange);
        }
        Ok(DHCP { netmask: nic.netmask, first_ip, last_ip })
    }
}

} // verus!
