//! That the operations of the graph keep it well formed.

use crate::device::Device;
use crate::graph::NodeType;
use crate::mac::MAC;
use crate::model::{
    GraphView, device_from, kind_from, lemma_device_from, lemma_kind_from, lemma_nic_identity,
    lemma_router_from, port_limit, router_from,
};
use crate::nic::NIC;
use crate::router::Router;
use crate::topology::{joins, linked, links_of};
use vstd::prelude::*;

verus! {

/// What a search of the registry finds once an entry has been put behind
/// it: what it found before, or else the new entry.
pub proof fn lemma_kind_push(
    registry: Seq<(MAC, NodeType)>,
    entry: (MAC, NodeType),
    mac: MAC,
    from: int,
)
    requires
        0 <= from <= registry.len(),
    ensures
        kind_from(registry.push(entry), mac, from) == match kind_from(registry, mac, from) {
            Some(kind) => Some(kind),
            None => if entry.0 == mac {
                Some(entry.1)
            } else {
                None
            },
        },
    decreases registry.len() - from,
{
    let longer = registry.push(entry);
    if from < registry.len() {
        assert(longer[from] == registry[from]);
        if registry[from].0 != mac {
            lemma_kind_push(registry, entry, mac, from + 1);
        }
    } else {
        assert(longer[from] == entry);
        assert(kind_from(longer, mac, from + 1) is None);
    }
}

/// What a search of the routers finds once a router has been put behind
/// them: what it found before, or else the new router.
pub proof fn lemma_router_push(routers: Seq<Router>, router: Router, mac: MAC, from: int)
    requires
        0 <= from <= routers.len(),
    ensures
        router_from(routers.push(router), mac, from) == match router_from(routers, mac, from) {
            Some(i) => Some(i),
            None => if router.owns(mac) {
                Some(routers.len() as int)
            } else {
                None
            },
        },
    decreases routers.len() - from,
{
    let longer = routers.push(router);
    if from < routers.len() {
        assert(longer[from] == routers[from]);
        if !routers[from].owns(mac) {
            lemma_router_push(routers, router, mac, from + 1);
        }
    } else {
        assert(longer[from] == router);
        assert(router_from(longer, mac, from + 1) is None);
    }
}

/// What a search of the devices finds once a device has been put behind
/// them: what it found before, or else the new device.
pub proof fn lemma_device_push(devices: Seq<Device>, device: Device, mac: MAC, from: int)
    requires
        0 <= from <= devices.len(),
    ensures
        device_from(devices.push(device), mac, from) == match device_from(devices, mac, from) {
            Some(i) => Some(i),
            None => if device.nic.mac == mac {
                Some(devices.len() as int)
            } else {
                None
            },
        },
    decreases devices.len() - from,
{
    let longer = devices.push(device);
    if from < devices.len() {
        assert(longer[from] == devices[from]);
        if devices[from].nic.mac != mac {
            lemma_device_push(devices, device, mac, from + 1);
        }
    } else {
        assert(longer[from] == device);
        assert(device_from(longer, mac, from + 1) is None);
    }
}

/// A search of the routers finds the same after one of them has been
/// replaced by a router with the same identities.
pub proof fn lemma_router_update(routers: Seq<Router>, at: int, router: Router, mac: MAC, from: int)
    requires
        0 <= at < routers.len(),
        0 <= from,
        router.nic_lan.mac == routers[at].nic_lan.mac,
        router.nic_wan.mac == routers[at].nic_wan.mac,
    ensures
        router_from(routers.update(at, router), mac, from) == router_from(routers, mac, from),
    decreases routers.len() - from,
{
    let changed = routers.update(at, router);
    if from < routers.len() {
        assert(changed[from].owns(mac) == routers[from].owns(mac));
        if !routers[from].owns(mac) {
            lemma_router_update(routers, at, router, mac, from + 1);
        }
    }
}

/// A search of the devices finds the same after one of them has been
/// replaced by a device with the same identity.
pub proof fn lemma_device_update(devices: Seq<Device>, at: int, device: Device, mac: MAC, from: int)
    requires
        0 <= at < devices.len(),
        0 <= from,
        device.nic.mac == devices[at].nic.mac,
    ensures
        device_from(devices.update(at, device), mac, from) == device_from(devices, mac, from),
    decreases devices.len() - from,
{
    let changed = devices.update(at, device);
    if from < devices.len() {
        assert(changed[from].nic.mac == devices[from].nic.mac);
        if devices[from].nic.mac != mac {
            lemma_device_update(devices, at, device, mac, from + 1);
        }
    }
}

/// The links of an identity once a link has been put behind the others:
/// one more if the new link touches it, else the same.
pub proof fn lemma_links_of_push(links: Seq<(MAC, MAC)>, link: (MAC, MAC), mac: MAC)
    ensures
        links_of(links.push(link), mac) == if link.0 == mac || link.1 == mac {
            links_of(links, mac).push(link)
        } else {
            links_of(links, mac)
        },
{
    assert(links.push(link).drop_last() =~= links);
}

/// An identity that no link touches has no links.
pub proof fn lemma_links_of_untouched(links: Seq<(MAC, MAC)>, mac: MAC)
    requires
        forall|i: int| 0 <= i < links.len() ==> (#[trigger] links[i]).0 != mac && links[i].1 != mac,
    ensures
        links_of(links, mac).len() == 0,
    decreases links.len(),
{
    if links.len() > 0 {
        let init = links.drop_last();
        assert forall|i: int| 0 <= i < init.len() implies (#[trigger] init[i]).0 != mac
            && init[i].1 != mac by {
            assert(init[i] == links[i]);
        }
        lemma_links_of_untouched(init, mac);
        assert(links.last() == links[links.len() - 1]);
    }
}

/// In a well-formed state an identity that is not registered has no
/// record, is owned by no router and by no device, and has no links.
pub proof fn lemma_unregistered(g: GraphView, mac: MAC)
    requires
        g.wf(),
        g.kind(mac) is None,
    ensures
        forall|i: int| 0 <= i < g.registry.len() ==> (#[trigger] g.registry[i]).0 != mac,
        forall|i: int| 0 <= i < g.routers.len() ==> !(#[trigger] g.routers[i]).owns(mac),
        forall|i: int| 0 <= i < g.devices.len() ==> (#[trigger] g.devices[i]).nic.mac != mac,
        links_of(g.links, mac).len() == 0,
{
    lemma_kind_from(g.registry, mac, 0);
    assert forall|i: int| 0 <= i < g.links.len() implies (#[trigger] g.links[i]).0 != mac
        && g.links[i].1 != mac by {
        assert(g.kind(g.links[i].0) is Some && g.kind(g.links[i].1) is Some);
    }
    lemma_links_of_untouched(g.links, mac);
}

/// The state to which nothing has been added is well formed.
pub proof fn lemma_wf_empty()
    ensures
        GraphView::empty().wf(),
{
    let g = GraphView::empty();
    assert forall|mac: MAC| (#[trigger] g.kind(mac)) is None by {}
}

/// Adding a device whose identity is not registered keeps the state well
/// formed.
pub proof fn lemma_wf_with_device(g: GraphView, device: Device)
    requires
        g.wf(),
        g.kind(device.nic.mac) is None,
    ensures
        g.with_device(device).wf(),
{
    let m = device.nic.mac;
    let h = g.with_device(device);
    lemma_unregistered(g, m);
    assert forall|mac: MAC|
        #[trigger] h.kind(mac) == (match g.kind(mac) {
            Some(kind) => Some(kind),
            None => if mac == m {
                Some(NodeType::Device)
            } else {
                None
            },
        }) by {
        lemma_kind_push(g.registry, (m, NodeType::Device), mac, 0);
    }
    assert forall|mac: MAC| g.nic(mac) is Some implies #[trigger] h.nic(mac) is Some by {
        lemma_nic_identity(g, mac);
        lemma_device_push(g.devices, device, mac, 0);
        lemma_device_from(g.devices, mac, 0);
    }
    assert(h.registry_backed()) by {
        assert forall|i: int| 0 <= i < h.registry.len() implies h.nic(
            (#[trigger] h.registry[i]).0,
        ) is Some by {
            if i < g.registry.len() {
                assert(h.registry[i] == g.registry[i]);
                assert(g.nic(g.registry[i].0) is Some);
            } else {
                lemma_device_push(g.devices, device, m, 0);
                lemma_device_from(g.devices, m, 0);
            }
        }
    }
    assert(h.registered_once()) by {
        assert forall|i: int, j: int| 0 <= i < j < h.registry.len() implies (
        #[trigger] h.registry[i]).0 != (#[trigger] h.registry[j]).0 by {
            assert(h.registry[i] == g.registry[i]);
            if j < g.registry.len() {
                assert(h.registry[j] == g.registry[j]);
            }
        }
    }
    assert(h.routers_sound());
    assert(h.devices_sound()) by {
        assert forall|i: int| 0 <= i < h.devices.len() implies h.kind(
            (#[trigger] h.devices[i]).nic.mac,
        ) == Some(NodeType::Device) by {
            if i < g.devices.len() {
                assert(h.devices[i] == g.devices[i]);
            }
        }
        assert forall|i: int, j: int| 0 <= i < j < h.devices.len() implies (
        #[trigger] h.devices[i]).nic.mac != (#[trigger] h.devices[j]).nic.mac by {
            assert(h.devices[i] == g.devices[i]);
            if j < g.devices.len() {
                assert(h.devices[j] == g.devices[j]);
            }
        }
    }
    assert(h.links_sound());
}

/// Adding a router whose two identities differ and are not registered
/// keeps the state well formed.
pub proof fn lemma_wf_with_router(g: GraphView, router: Router)
    requires
        g.wf(),
        g.admits(router),
    ensures
        g.with_router(router).wf(),
{
    let lan = router.nic_lan.mac;
    let wan = router.nic_wan.mac;
    let h = g.with_router(router);
    let mid = g.registry.push((lan, NodeType::Router));
    lemma_unregistered(g, lan);
    lemma_unregistered(g, wan);
    assert forall|mac: MAC|
        #[trigger] h.kind(mac) == (match g.kind(mac) {
            Some(kind) => Some(kind),
            None => if mac == lan || mac == wan {
                Some(NodeType::Router)
            } else {
                None
            },
        }) by {
        lemma_kind_push(g.registry, (lan, NodeType::Router), mac, 0);
        lemma_kind_push(mid, (wan, NodeType::Router), mac, 0);
    }
    assert forall|mac: MAC| g.nic(mac) is Some implies #[trigger] h.nic(mac) is Some by {
        lemma_nic_identity(g, mac);
        lemma_router_push(g.routers, router, mac, 0);
        lemma_router_from(g.routers, mac, 0);
    }
    assert(h.registry_backed()) by {
        assert forall|i: int| 0 <= i < h.registry.len() implies h.nic(
            (#[trigger] h.registry[i]).0,
        ) is Some by {
            if i < g.registry.len() {
                assert(h.registry[i] == g.registry[i]);
                assert(g.nic(g.registry[i].0) is Some);
            } else {
                let mac = h.registry[i].0;
                assert(mac == lan || mac == wan);
                lemma_router_push(g.routers, router, mac, 0);
                lemma_router_from(g.routers, mac, 0);
            }
        }
    }
    assert(h.registered_once()) by {
        assert forall|i: int, j: int| 0 <= i < j < h.registry.len() implies (
        #[trigger] h.registry[i]).0 != (#[trigger] h.registry[j]).0 by {
            if i < g.registry.len() {
                assert(h.registry[i] == g.registry[i]);
            }
            if j < g.registry.len() {
                assert(h.registry[j] == g.registry[j]);
            }
        }
    }
    assert(h.routers_sound()) by {
        assert forall|i: int| 0 <= i < h.routers.len() implies {
            let r = #[trigger] h.routers[i];
            &&& r.nic_lan.mac != r.nic_wan.mac
            &&& h.kind(r.nic_lan.mac) == Some(NodeType::Router)
            &&& h.kind(r.nic_wan.mac) == Some(NodeType::Router)
        } by {
            if i < g.routers.len() {
                assert(h.routers[i] == g.routers[i]);
            }
        }
        assert forall|i: int, j: int| 0 <= i < j < h.routers.len() implies !(
        #[trigger] h.routers[i]).owns((#[trigger] h.routers[j]).nic_lan.mac)
            && !h.routers[i].owns(h.routers[j].nic_wan.mac) by {
            assert(h.routers[i] == g.routers[i]);
            if j < g.routers.len() {
                assert(h.routers[j] == g.routers[j]);
            }
        }
    }
    assert(h.devices_sound());
    assert(h.links_sound());
}

/// Linking two registered identities that are not linked yet, neither of
/// them full, keeps the state well formed.
pub proof fn lemma_wf_with_link(g: GraphView, a: MAC, b: MAC)
    requires
        g.wf(),
        g.kind(a) is Some,
        g.kind(b) is Some,
        !linked(g.links, a, b),
        !g.full(a),
        !g.full(b),
    ensures
        g.with_link(a, b).wf(),
{
    let h = g.with_link(a, b);
    assert forall|mac: MAC| #[trigger] h.kind(mac) == g.kind(mac) by {}
    assert forall|mac: MAC| #[trigger] h.nic(mac) == g.nic(mac) by {}
    assert(h.registered_once());
    assert(h.registry_backed()) by {
        assert forall|i: int| 0 <= i < h.registry.len() implies h.nic(
            (#[trigger] h.registry[i]).0,
        ) is Some by {
            assert(g.nic(g.registry[i].0) is Some);
        }
    }
    assert(h.routers_sound());
    assert(h.devices_sound());
    assert(h.links_sound()) by {
        assert forall|i: int| 0 <= i < h.links.len() implies h.kind((#[trigger] h.links[i]).0)
            is Some && h.kind(h.links[i].1) is Some by {
            if i < g.links.len() {
                assert(h.links[i] == g.links[i]);
            }
        }
        assert forall|i: int, j: int| 0 <= i < j < h.links.len() implies !joins(
            #[trigger] h.links[j],
            (#[trigger] h.links[i]).0,
            h.links[i].1,
        ) by {
            assert(h.links[i] == g.links[i]);
            if j < g.links.len() {
                assert(h.links[j] == g.links[j]);
            } else {
                assert(!joins(g.links[i], a, b));
            }
        }
        assert forall|mac: MAC| (#[trigger] h.kind(mac)) is Some implies links_of(
            h.links,
            mac,
        ).len() <= port_limit(h.kind(mac)->0) by {
            lemma_links_of_push(g.links, (a, b), mac);
            assert(g.kind(mac) == h.kind(mac));
        }
    }
}

/// Replacing the record of an interface by one with the same identity
/// keeps the state well formed, and changes neither what is registered
/// nor which identities have a record.
pub proof fn lemma_wf_with_nic(g: GraphView, mac: MAC, nic: NIC)
    requires
        nic.mac == mac,
    ensures
        g.wf() ==> g.with_nic(mac, nic).wf(),
        forall|x: MAC| #[trigger] g.with_nic(mac, nic).kind(x) == g.kind(x),
        forall|x: MAC| (#[trigger] g.with_nic(mac, nic).nic(x) is Some) == (g.nic(x) is Some),
        g.with_nic(mac, nic).links == g.links,
{
    let h = g.with_nic(mac, nic);
    lemma_router_from(g.routers, mac, 0);
    lemma_device_from(g.devices, mac, 0);
    assert(h.routers.len() == g.routers.len());
    assert(h.devices.len() == g.devices.len());
    assert forall|i: int| 0 <= i < g.routers.len() implies (#[trigger] h.routers[i]).nic_lan.mac
        == g.routers[i].nic_lan.mac && h.routers[i].nic_wan.mac == g.routers[i].nic_wan.mac by {}
    assert forall|i: int| 0 <= i < g.devices.len() implies (#[trigger] h.devices[i]).nic.mac
        == g.devices[i].nic.mac by {}
    assert forall|x: MAC| #[trigger] h.kind(x) == g.kind(x) by {}
    assert forall|x: MAC| h.router_index(x) == g.router_index(x) && h.device_index(x)
        == g.device_index(x) by {
        match g.kind(mac) {
            Some(NodeType::Router) => {
                if let Some(i) = g.router_index(mac) {
                    lemma_router_update(g.routers, i, h.routers[i], x, 0);
                    assert(h.routers =~= g.routers.update(i, h.routers[i]));
                }
            },
            Some(NodeType::Device) => {
                if let Some(i) = g.device_index(mac) {
                    lemma_device_update(g.devices, i, h.devices[i], x, 0);
                    assert(h.devices =~= g.devices.update(i, h.devices[i]));
                }
            },
            None => {},
        }
    }
    assert forall|x: MAC| (#[trigger] h.nic(x) is Some) == (g.nic(x) is Some) by {
        assert(h.router_index(x) == g.router_index(x) && h.device_index(x) == g.device_index(x));
    }
    if g.wf() {
        assert(h.registered_once());
        assert(h.registry_backed()) by {
            assert forall|i: int| 0 <= i < h.registry.len() implies h.nic(
                (#[trigger] h.registry[i]).0,
            ) is Some by {
                assert(g.nic(g.registry[i].0) is Some);
            }
        }
        assert(h.routers_sound()) by {
            assert forall|i: int| 0 <= i < h.routers.len() implies {
                let r = #[trigger] h.routers[i];
                &&& r.nic_lan.mac != r.nic_wan.mac
                &&& h.kind(r.nic_lan.mac) == Some(NodeType::Router)
                &&& h.kind(r.nic_wan.mac) == Some(NodeType::Router)
            } by {
                let r = g.routers[i];
                assert(r.nic_lan.mac != r.nic_wan.mac);
            }
            assert forall|i: int, j: int| 0 <= i < j < h.routers.len() implies !(
            #[trigger] h.routers[i]).owns((#[trigger] h.routers[j]).nic_lan.mac)
                && !h.routers[i].owns(h.routers[j].nic_wan.mac) by {
                assert(!g.routers[i].owns(g.routers[j].nic_lan.mac));
            }
        }
        assert(h.devices_sound()) by {
            assert forall|i: int| 0 <= i < h.devices.len() implies h.kind(
                (#[trigger] h.devices[i]).nic.mac,
            ) == Some(NodeType::Device) by {
                assert(g.kind(g.devices[i].nic.mac) == Some(NodeType::Device));
            }
            assert forall|i: int, j: int| 0 <= i < j < h.devices.len() implies (
            #[trigger] h.devices[i]).nic.mac != (#[trigger] h.devices[j]).nic.mac by {
                assert(g.devices[i].nic.mac != g.devices[j].nic.mac);
            }
        }
        assert(h.links_sound());
    }
}

/// Installing a router keeps the state well formed.
pub proof fn lemma_wf_install(g: GraphView, router: Router)
    requires
        g.wf(),
    ensures
        g.install(router) matches Ok(after) ==> after.wf(),
{
    if g.install(router) is Ok {
        let lan = router.nic_lan.mac;
        let wan = router.nic_wan.mac;
        let h = g.with_router(router);
        lemma_wf_with_router(g, router);
        lemma_unregistered(g, lan);
        lemma_unregistered(g, wan);
        lemma_kind_push(g.registry, (lan, NodeType::Router), lan, 0);
        lemma_kind_push(g.registry.push((lan, NodeType::Router)), (wan, NodeType::Router), lan, 0);
        lemma_kind_push(g.registry, (lan, NodeType::Router), wan, 0);
        lemma_kind_push(g.registry.push((lan, NodeType::Router)), (wan, NodeType::Router), wan, 0);
        lemma_wf_with_link(h, lan, wan);
    }
}

/// Linking two interfaces, with a lease for the source where it needs
/// one, keeps the state well formed.
pub proof fn lemma_wf_connect(g: GraphView, src: MAC, dst: MAC)
    requires
        g.wf(),
    ensures
        g.connect(src, dst) matches Ok((after, _)) ==> after.wf(),
{
    if let Ok((after, lease)) = g.connect(src, dst) {
        lemma_nic_identity(g, src);
        lemma_nic_identity(g, dst);
        match lease {
            None => {
                lemma_wf_with_link(g, src, dst);
            },
            Some(ip) => {
                let leased = choose|leased: NIC|
                    leased.mac == src && after == g.with_nic(src, leased).with_link(src, dst);
                let h = g.with_nic(src, leased);
                lemma_wf_with_nic(g, src, leased);
                assert(h.kind(src) == g.kind(src));
                assert(h.kind(dst) == g.kind(dst));
                lemma_wf_with_link(h, src, dst);
            },
        }
    }
}

} // verus!
