//! Devices: nodes with a single interface.

use crate::graph::{Graph, GraphError};
use crate::ip::IP;
use crate::nic::{NIC, loopback_ip, loopback_mask};
use vstd::prelude::*;

verus! {

/// A device: a name for display, and one interface.
#[derive(Debug)]
pub struct Device {
    pub name: String,
    pub nic: NIC,
}

impl Clone for Device {
    fn clone(&self) -> (r: Self)
        ensures
            r == *self,
    {
        Device { name: self.name.clone(), nic: self.nic }
    }
}

impl Device {
    /// Whether the device is one that `new` makes of this name: it has the
    /// name, and its interface has the loopback address and mask. The
    /// identity of the interface is not fixed.
    pub open spec fn made_from(self, name: String) -> bool {
        &&& self.name == name
        &&& self.nic.ip == loopback_ip()
        &&& self.nic.netmask == loopback_mask()
    }

    /// A device with the given name, whose interface has the loopback
    /// address and mask and a fresh random identity.
    pub fn new(name: String) -> (r: Device)
        ensures
            r.made_from(name),
    {
        Device { name, nic: NIC::new(IP::V4(127, 0, 0, 1), IP::V4(255, 0, 0, 0)) }
    }
}

/// Makes a device with the given name and adds it to the graph. The device
/// is added unless the identity drawn for its interface is registered
/// already; the graph is then left as it was.
pub fn create_device(name: String, graph: &mut Graph) -> (r: Result<(), GraphError>)
    ensures
        exists|device: Device| #[trigger]
            device.made_from(name) && match old(graph)@.kind(device.nic.mac) {
                None => r is Ok && final(graph)@ == old(graph)@.with_device(device),
                Some(_) => r == Err::<(), GraphError>(GraphError::AlreadyExistingMacAddress)
                    && final(graph)@ == old(graph)@,
            },
        old(graph)@.wf() ==> final(graph)@.wf(),
{
    let device = Device::new(name);
    let ghost made = device;
    let r = graph.append_device(device);
    assert(made.made_from(name));
    r
}

} // verus!
