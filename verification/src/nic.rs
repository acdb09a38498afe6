//! Network interfaces: an address, a subnet mask and an identity, and the
//! subnet arithmetic over them.

use crate::ip::{IP, max_address};
use crate::mac::MAC;
use crate::text::{bit_of, octet_bit};
use vstd::arithmetic::power2::{lemma2_to64, lemma_pow2_strictly_increases, lemma_pow2_unfold, pow2};
use vstd::prelude::*;

verus! {

/// A network interface. The identity never changes; address and mask may.
#[derive(Clone, Copy, Debug, PartialEq, Eq, Structural)]
pub struct NIC {
    pub ip: IP,
    pub netmask: IP,
    pub mac: MAC,
}

/// What an address is within its subnet.
#[derive(Clone, Copy, Debug, PartialEq, Eq, Structural)]
pub enum IpAddressType {
    NetworkAddress,
    BroadcastAddress,
    HostAddress,
}

/// The network address of `ip` under `mask`: the bitwise and of the two,
/// octet by octet.
pub open spec fn network_of(ip: IP, mask: IP) -> IP {
    match (ip, mask) {
        (IP::V4(a, b, c, d), IP::V4(ma, mb, mc, md)) => IP::V4(a & ma, b & mb, c & mc, d & md),
    }
}

/// The 32 bits of an address, most significant first.
pub open spec fn address_bits(ip: IP) -> Seq<bool> {
    Seq::new(32, |i: int| octet_bit(ip.octet(i / 8), i % 8))
}

/// How many one bits stand at the start of `bits`, before the first zero
/// bit.
pub open spec fn leading_ones(bits: Seq<bool>) -> nat
    decreases bits.len(),
{
    if bits.len() == 0 || !bits[0] {
        0
    } else {
        1 + leading_ones(bits.skip(1))
    }
}

/// The prefix length of a mask: the count of its leading one bits. One bits
/// behind the first zero bit are not counted.
pub open spec fn prefix_len(mask: IP) -> nat {
    leading_ones(address_bits(mask))
}

/// How many hosts a subnet of the given prefix length can address: all
/// addresses but the network's and the broadcast one, and none where fewer
/// than two host bits are left.
pub open spec fn capacity(prefix: nat) -> nat {
    if prefix >= 31 {
        0
    } else {
        (pow2((32 - prefix) as nat) - 2) as nat
    }
}

/// The loopback address, `127.0.0.1`.
pub open spec fn loopback_ip() -> IP {
    IP::V4(127, 0, 0, 1)
}

/// The loopback mask, `255.0.0.0`.
pub open spec fn loopback_mask() -> IP {
    IP::V4(255, 0, 0, 0)
}

/// `n` is the count of leading one bits of `bits` exactly when the first `n`
/// bits are set and the one behind them, if there is one, is clear.
pub proof fn lemma_leading_ones(bits: Seq<bool>, n: nat)
    requires
        n <= bits.len(),
        forall|i: int| 0 <= i < n ==> bits[i],
        n == bits.len() || !bits[n as int],
    ensures
        leading_ones(bits) == n,
    decreases bits.len(),
{
    if n > 0 {
        let rest = bits.skip(1);
        assert forall|i: int| 0 <= i < n - 1 implies rest[i] by {
            assert(rest[i] == bits[i + 1]);
        }
        lemma_leading_ones(rest, (n - 1) as nat);
    }
}

impl NIC {
    /// The network address of the interface, under its own mask.
    pub open spec fn network(self) -> IP {
        network_of(self.ip, self.netmask)
    }

    /// Whether `self` and `other` are on the same network: each side's
    /// network address is taken under that side's own mask, and the two are
    /// compared. With different masks the answer may depend on more than
    /// the two addresses suggest.
    pub open spec fn on_network_of(self, other: NIC) -> bool {
        self.network() == other.network()
    }

    /// What the address of the interface is within its subnet: the network
    /// address itself; else a host address if the next address is still on
    /// the same network; else the broadcast address.
    pub open spec fn address_kind(self) -> IpAddressType {
        if self.ip == self.network() {
            IpAddressType::NetworkAddress
        } else if self.ip@ < max_address() && network_of(self.ip.successor(), self.netmask)
            == self.network() {
            IpAddressType::HostAddress
        } else {
            IpAddressType::BroadcastAddress
        }
    }

    /// An interface with the given address and mask and a fresh random
    /// identity.
    pub fn new(ip: IP, netmask: IP) -> (r: NIC)
        ensures
            r.ip == ip,
            r.netmask == netmask,
    {
        NIC { ip, netmask, mac: MAC::new() }
    }

    /// The network address in dotted binary.
    pub fn network_address_bin(&self) -> (r: String)
        ensures
            r@ == crate::ip::bin_ddn_text(self.network()),
    {
        self.network_address().to_bin_ddn()
    }

    /// The network address.
    pub fn network_address(&self) -> (r: IP)
        ensures
            r == self.network(),
    {
        match (self.ip, self.netmask) {
            (IP::V4(a, b, c, d), IP::V4(ma, mb, mc, md)) => IP::V4(a & ma, b & mb, c & mc, d & md),
        }
    }

    /// The prefix length of the mask.
    pub fn netmask_u8(&self) -> (r: u8)
        ensures
            r == prefix_len(self.netmask),
            r <= 32,
    {
        let octets: [u8; 4] = match self.netmask {
            IP::V4(a, b, c, d) => [a, b, c, d],
        };
        let ghost bits = address_bits(self.netmask);
        let mut count: u8 = 0;
        while count < 32
            invariant
                count <= 32,
                bits == address_bits(self.netmask),
                forall|j: int| 0 <= j < 4 ==> octets[j] == self.netmask.octet(j),
                forall|i: int| 0 <= i < count ==> bits[i],
            decreases 32 - count,
        {
            if !bit_of(octets[(count / 8) as usize], count % 8) {
                proof {
                    lemma_leading_ones(bits, count as nat);
                }
                return count;
            }
            count += 1;
        }
        proof {
            lemma_leading_ones(bits, 32);
        }
        count
    }

    /// How many hosts the subnet of the interface can address.
    pub fn total_addressable_ips(&self) -> (r: u32)
        ensures
            r == capacity(prefix_len(self.netmask)),
    {
        let prefix = self.netmask_u8();
        if 32 - prefix <= 1 {
            return 0;
        }
        let host_bits: u8 = 32 - prefix;
        let mut total: u64 = 1;
        let mut i: u8 = 0;
        proof {
            lemma2_to64();
        }
        while i < host_bits
            invariant
                i <= host_bits <= 32,
                total == pow2(i as nat),
                pow2(32) == 0x1_0000_0000,
            decreases host_bits - i,
        {
            proof {
                lemma_pow2_unfold((i + 1) as nat);
                if i + 1 < 32 {
                    lemma_pow2_strictly_increases((i + 1) as nat, 32);
                }
            }
            total = total * 2;
            i += 1;
        }
        proof {
            lemma_pow2_strictly_increases(1, host_bits as nat);
        }
        (total - 2) as u32
    }

    /// Whether the two interfaces are on the same network.
    pub fn same_network(&self, r2: NIC) -> (r: bool)
        ensures
            r == self.on_network_of(r2),
    {
        self.network_address() == r2.network_address()
    }

    /// What the address of the interface is within its subnet.
    pub fn ip_address_type(&self) -> (r: IpAddressType)
        ensures
            r == self.address_kind(),
    {
        if self.ip == self.network_address() {
            return IpAddressType::NetworkAddress;
        }
        let mut next_ip = self.ip;
        match next_ip.increment() {
            Ok(_) => {
                if self.same_network(NIC { ip: next_ip, netmask: self.netmask, mac: self.mac }) {
                    IpAddressType::HostAddress
                } else {
                    IpAddressType::BroadcastAddress
                }
            },
            Err(_) => IpAddressType::BroadcastAddress,
        }
    }

    /// Gives the interface the loopback address and mask.
    pub fn set_localhost(&mut self)
        ensures
            final(self).ip == loopback_ip(),
            final(self).netmask == loopback_mask(),
            final(self).mac == old(self).mac,
    {
        self.ip = IP::V4(127, 0, 0, 1);
        self.netmask = IP::V4(255, 0, 0, 0);
    }

    /// Whether the address is a loopback one: its first octet is 127.
    pub fn is_localhost(&self) -> (r: bool)
        ensures
            r == (self.ip.octet(0) == 127),
    {
        match self.ip {
            IP::V4(a, _, _, _) => a == 127,
        }
    }
}

/// Every interface is on its own network.
pub proof fn lemma_same_network_reflexive(nic: NIC)
    ensures
        nic.on_network_of(nic),
{
}

} // verus!
