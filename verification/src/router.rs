//! Routers: nodes with a LAN and a WAN interface, each of which may hand
//! out leases.

use crate::dhcp::{DHCP, DhcpError};
use crate::graph::{Graph, GraphError};
use crate::ip::{IP, max_address};
use crate::mac::MAC;
use crate::model::{lemma_first_free_unique, lemma_lease};
use crate::nic::NIC;
use vstd::prelude::*;

verus! {

/// A router: a name for display, two interfaces, and for each of them a
/// lease pool or none.
#[derive(Debug)]
pub struct Router {
    pub name: String,
    pub nic_lan: NIC,
    pub nic_wan: NIC,
    pub dhcp_lan: Option<DHCP>,
    pub dhcp_wan: Option<DHCP>,
}

/// One side of a router.
#[derive(Clone, Copy, Debug, PartialEq, Eq, Structural)]
pub enum RouterInterface {
    LAN,
    WAN,
}

impl Clone for Router {
    fn clone(&self) -> (r: Self)
        ensures
            r == *self,
    {
        Router {
            name: self.name.clone(),
            nic_lan: self.nic_lan,
            nic_wan: self.nic_wan,
            dhcp_lan: self.dhcp_lan,
            dhcp_wan: self.dhcp_wan,
        }
    }
}

impl Router {
    /// The interface on the given side.
    pub open spec fn nic_at(self, side: RouterInterface) -> NIC {
        match side {
            RouterInterface::LAN => self.nic_lan,
            RouterInterface::WAN => self.nic_wan,
        }
    }

    /// The lease pool on the given side, if it has one.
    pub open spec fn pool_at(self, side: RouterInterface) -> Option<DHCP> {
        match side {
            RouterInterface::LAN => self.dhcp_lan,
            RouterInterface::WAN => self.dhcp_wan,
        }
    }

    /// Whether one of the two interfaces has the identity `mac`.
    pub open spec fn owns(self, mac: MAC) -> bool {
        self.nic_lan.mac == mac || self.nic_wan.mac == mac
    }

    /// The side whose interface has the identity `mac`: the LAN side if it
    /// has it, the WAN side otherwise.
    pub open spec fn side_of(self, mac: MAC) -> RouterInterface {
        if self.nic_lan.mac == mac {
            RouterInterface::LAN
        } else {
            RouterInterface::WAN
        }
    }

    /// The router with the interface on the given side replaced.
    pub open spec fn with_nic(self, side: RouterInterface, nic: NIC) -> Router {
        match side {
            RouterInterface::LAN => Router { nic_lan: nic, ..self },
            RouterInterface::WAN => Router { nic_wan: nic, ..self },
        }
    }

    /// The router with the given name and interfaces. A side gets a lease
    /// pool where both bounds of a range are given and the range makes a
    /// pool for the interface of that side; else it gets none.
    pub open spec fn assembled(
        name: String,
        nic_lan: NIC,
        nic_wan: NIC,
        dhcp_lan_first_ip: Option<IP>,
        dhcp_lan_last_ip: Option<IP>,
        dhcp_wan_first_ip: Option<IP>,
        dhcp_wan_last_ip: Option<IP>,
    ) -> Router {
        Router {
            name,
            nic_lan,
            nic_wan,
            dhcp_lan: pool_for(nic_lan, dhcp_lan_first_ip, dhcp_lan_last_ip),
            dhcp_wan: pool_for(nic_wan, dhcp_wan_first_ip, dhcp_wan_last_ip),
        }
    }

    /// Makes a router from its name and its two interfaces, with a lease
    /// pool on each side for which a range is given that makes one.
    pub fn with_interfaces(
        name: String,
        nic_lan: NIC,
        nic_wan: NIC,
        dhcp_lan_first_ip: Option<IP>,
        dhcp_lan_last_ip: Option<IP>,
        dhcp_wan_first_ip: Option<IP>,
        dhcp_wan_last_ip: Option<IP>,
    ) -> (r: Router)
        ensures
            r == Router::assembled(
                name,
                nic_lan,
                nic_wan,
                dhcp_lan_first_ip,
                dhcp_lan_last_ip,
                dhcp_wan_first_ip,
                dhcp_wan_last_ip,
            ),
    {
        let dhcp_lan = Self::make_pool(nic_lan, dhcp_lan_first_ip, dhcp_lan_last_ip);
        let dhcp_wan = Self::make_pool(nic_wan, dhcp_wan_first_ip, dhcp_wan_last_ip);
        Router { name, nic_lan, nic_wan, dhcp_lan, dhcp_wan }
    }

    fn make_pool(nic: NIC, first_ip: Option<IP>, last_ip: Option<IP>) -> (r: Option<DHCP>)
        ensures
            r == pool_for(nic, first_ip, last_ip),
    {
        match (first_ip, last_ip) {
            (Some(first_ip), Some(last_ip)) => {
                match DHCP::new(nic, first_ip, last_ip) {
                    Ok(dhcp) => Some(dhcp),
                    Err(_) => None,
                }
            },
            _ => None,
        }
    }

    /// Makes a router whose interfaces have the given addresses and masks
    /// and fresh random identities.
    pub fn new(
        name: String,
        ip_lan: IP,
        netmask_lan: IP,
        ip_wan: IP,
        netmask_wan: IP,
        dhcp_lan_first_ip: Option<IP>,
        dhcp_lan_last_ip: Option<IP>,
        dhcp_wan_first_ip: Option<IP>,
        dhcp_wan_last_ip: Option<IP>,
    ) -> (r: Router)
        ensures
            r.made_from(
                name,
                ip_lan,
                netmask_lan,
                ip_wan,
                netmask_wan,
                dhcp_lan_first_ip,
                dhcp_lan_last_ip,
                dhcp_wan_first_ip,
                dhcp_wan_last_ip,
            ),
    {
        let nic_lan = NIC::new(ip_lan, netmask_lan);
        let nic_wan = NIC::new(ip_wan, netmask_wan);
        Router::with_interfaces(
            name,
            nic_lan,
            nic_wan,
            dhcp_lan_first_ip,
            dhcp_lan_last_ip,
            dhcp_wan_first_ip,
            dhcp_wan_last_ip,
        )
    }

    /// Whether the router is one that `new` makes of these arguments: all
    /// but the identities of its two interfaces is fixed by them.
    pub open spec fn made_from(
        self,
        name: String,
        ip_lan: IP,
        netmask_lan: IP,
        ip_wan: IP,
        netmask_wan: IP,
        dhcp_lan_first_ip: Option<IP>,
        dhcp_lan_last_ip: Option<IP>,
        dhcp_wan_first_ip: Option<IP>,
        dhcp_wan_last_ip: Option<IP>,
    ) -> bool {
        self == Router::assembled(
            name,
            NIC { ip: ip_lan, netmask: netmask_lan, mac: self.nic_lan.mac },
            NIC { ip: ip_wan, netmask: netmask_wan, mac: self.nic_wan.mac },
            dhcp_lan_first_ip,
            dhcp_lan_last_ip,
            dhcp_wan_first_ip,
            dhcp_wan_last_ip,
        )
    }

    /// The next lease from the pool on the given side. The addresses of
    /// the range are probed in rising order: an address is live where an
    /// interface that can be reached from the interface of that side holds
    /// it, whatever network the address lies on. The first address that is
    /// not live is the lease; where every address of the range is live,
    /// there is none. Nothing is changed, so asking again gives the same.
    pub fn get_next_dhcp_ip(&self, graph: &Graph, interface: RouterInterface) -> (r: Result<
        IP,
        DhcpError,
    >)
        ensures
            r == graph@.router_lease(*self, interface),
            self.pool_at(interface) is None ==> r == Err::<IP, DhcpError>(DhcpError::DisabledDHCP),
            self.pool_at(interface) matches Some(pool) ==> match r {
                Ok(ip) => pool.first_ip@ <= ip@ <= pool.last_ip@ && !graph@.live(
                    self.nic_at(interface).mac,
                    ip,
                ) && forall|c: IP|
                    pool.first_ip@ <= c@ < ip@ ==> #[trigger] graph@.live(
                        self.nic_at(interface).mac,
                        c,
                    ),
                Err(e) => e == DhcpError::NoMoreIPsAvailable,
            },
            self.pool_at(interface) matches Some(pool) ==> (r is Err <==> forall|c: IP|
                pool.first_ip@ <= c@ <= pool.last_ip@ ==> #[trigger] graph@.live(
                    self.nic_at(interface).mac,
                    c,
                )),
    {
        let dhcp = match interface {
            RouterInterface::LAN => self.dhcp_lan,
            RouterInterface::WAN => self.dhcp_wan,
        };
        let nic = match interface {
            RouterInterface::LAN => self.nic_lan,
            RouterInterface::WAN => self.nic_wan,
        };
        let pool = match dhcp {
            Some(pool) => pool,
            None => {
                return Err(DhcpError::DisabledDHCP);
            },
        };
        let mut ip_candidate: IP = pool.first_ip;
        loop
            invariant
                pool.first_ip@ <= ip_candidate@,
                self.pool_at(interface) == Some(pool),
                nic == self.nic_at(interface),
                forall|e: IP|
                    pool.first_ip@ <= e@ < ip_candidate@ ==> #[trigger] graph@.taken(nic, e),
            decreases max_address() - ip_candidate@,
        {
            if ip_candidate.is_greater_than(&pool.last_ip) {
                assert forall|c: IP| !graph@.first_free(nic, pool, c) by {
                    if pool.first_ip@ <= c@ <= pool.last_ip@ {
                        assert(graph@.taken(nic, c));
                    }
                }
                proof {
                    lemma_lease(graph@, nic, pool);
                }
                return Err(DhcpError::NoMoreIPsAvailable);
            }
            if !graph.breadth_first_search_ip(nic.mac, ip_candidate) {
                proof {
                    assert(graph@.first_free(nic, pool, ip_candidate));
                    let chosen = choose|c: IP| graph@.first_free(nic, pool, c);
                    lemma_first_free_unique(graph@, nic, pool, chosen, ip_candidate);
                    lemma_lease(graph@, nic, pool);
                }
                return Ok(ip_candidate);
            }
            let ghost tried = ip_candidate;
            proof {
                tried.lemma_value_bounded();
            }
            match ip_candidate.increment() {
                Ok(()) => {
                    assert forall|e: IP|
                        pool.first_ip@ <= e@ < ip_candidate@ implies #[trigger] graph@.taken(
                        nic,
                        e,
                    ) by {
                        if e@ == tried@ {
                            e.lemma_value_injective(tried);
                        }
                    }
                },
                Err(_) => {
                    assert forall|c: IP|
                        pool.first_ip@ <= c@ <= pool.last_ip@ implies #[trigger] graph@.taken(
                        nic,
                        c,
                    ) by {
                        c.lemma_value_bounded();
                        if c@ == tried@ {
                            c.lemma_value_injective(tried);
                        }
                    }
                    assert forall|c: IP| !graph@.first_free(nic, pool, c) by {
                        if pool.first_ip@ <= c@ <= pool.last_ip@ {
                            assert(graph@.taken(nic, c));
                        }
                    }
                    proof {
                    lemma_lease(graph@, nic, pool);
                }
                return Err(DhcpError::NoMoreIPsAvailable);
                },
            };
        }
    }
}

/// The lease pool of an interface for which the bounds of a range may have
/// been given: the pool of that range where both are given and make one,
/// else none.
pub open spec fn pool_for(nic: NIC, first_ip: Option<IP>, last_ip: Option<IP>) -> Option<DHCP> {
    match (first_ip, last_ip) {
        (Some(first_ip), Some(last_ip)) => match DHCP::create(nic, first_ip, last_ip) {
            Ok(pool) => Some(pool),
            Err(_) => None,
        },
        _ => None,
    }
}

/// Makes a router and installs it in the graph: the router is added, the
/// identities drawn for its two interfaces are registered, and the two are
/// linked with each other. Where the identities are taken already, the
/// graph is left as it was.
pub fn create_router(
    name: String,
    graph: &mut Graph,
    ip_lan: IP,
    netmask_lan: IP,
    ip_wan: IP,
    netmask_wan: IP,
    dhcp_lan_first_ip: Option<IP>,
    dhcp_lan_last_ip: Option<IP>,
    dhcp_wan_first_ip: Option<IP>,
    dhcp_wan_last_ip: Option<IP>,
) -> (r: Result<(), GraphError>)
    ensures
        exists|router: Router| #[trigger]
            router.made_from(
                name,
                ip_lan,
                netmask_lan,
                ip_wan,
                netmask_wan,
                dhcp_lan_first_ip,
                dhcp_lan_last_ip,
                dhcp_wan_first_ip,
                dhcp_wan_last_ip,
            ) && match old(graph)@.install(router) {
                Ok(after) => r is Ok && final(graph)@ == after,
                Err(e) => r == Err::<(), GraphError>(e) && final(graph)@ == old(graph)@,
            },
        old(graph)@.wf() ==> final(graph)@.wf(),
{
    let router = Router::new(
        name,
        ip_lan,
        netmask_lan,
        ip_wan,
        netmask_wan,
        dhcp_lan_first_ip,
        dhcp_lan_last_ip,
        dhcp_wan_first_ip,
        dhcp_wan_last_ip,
    );
    let ghost made = router;
    let r = graph.install_router(router);
    assert(made.made_from(
        name,
        ip_lan,
        netmask_lan,
        ip_wan,
        netmask_wan,
        dhcp_lan_first_ip,
        dhcp_lan_last_ip,
        dhcp_wan_first_ip,
        dhcp_wan_last_ip,
    ));
    r
}

} // verus!
