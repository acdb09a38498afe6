//! IPv4 addresses: value, order and successor.

use crate::text::{
    binary_text, chars_of, decimal_octet, decimal_text, fields, lemma_decimal_octet_round_trip,
    lemma_fields_append, lemma_fields_single, parse_decimal_octet, push_binary, push_decimal,
    split, texts,
};
use vstd::prelude::*;

verus! {

/// An IPv4 address: four octets, most significant first.
#[derive(Clone, Copy, Debug, PartialEq, Eq, Structural)]
pub enum IP {
    V4(u8, u8, u8, u8),
}

/// Why an address operation failed.
#[derive(Clone, Copy, Debug, PartialEq, Eq, Structural)]
pub enum IpError {
    /// The successor of `255.255.255.255` was asked for.
    MaxIPReached,
}

/// The largest 32-bit address value, that of `255.255.255.255`.
pub open spec fn max_address() -> nat {
    0xFFFF_FFFF
}

impl View for IP {
    type V = nat;

    /// The address as a 32-bit number, first octet most significant.
    open spec fn view(&self) -> nat {
        match *self {
            IP::V4(a, b, c, d) => (a as nat) * 0x100_0000 + (b as nat) * 0x1_0000 + (c as nat)
                * 0x100 + (d as nat),
        }
    }
}

/// The dotted-decimal form of an address: its four octets in decimal, with a
/// dot between them.
pub open spec fn ddn_text(ip: IP) -> Seq<char> {
    match ip {
        IP::V4(a, b, c, d) => decimal_text(a as nat) + seq!['.'] + decimal_text(b as nat) + seq![
            '.',
        ] + decimal_text(c as nat) + seq!['.'] + decimal_text(d as nat),
    }
}

/// The dotted-binary form of an address: its four octets as eight binary
/// digits each, with a dot between them.
pub open spec fn bin_ddn_text(ip: IP) -> Seq<char> {
    match ip {
        IP::V4(a, b, c, d) => binary_text(a) + seq!['.'] + binary_text(b) + seq!['.']
            + binary_text(c) + seq!['.'] + binary_text(d),
    }
}

/// The address that a text writes in dotted decimal: exactly four pieces
/// between dots, each of them a decimal octet. `None` for every other text.
pub open spec fn parse_ddn(s: Seq<char>) -> Option<IP> {
    let parts = fields(s, '.');
    if parts.len() == 4 && decimal_octet(parts[0]) is Some && decimal_octet(parts[1]) is Some
        && decimal_octet(parts[2]) is Some && decimal_octet(parts[3]) is Some {
        Some(
            IP::V4(
                decimal_octet(parts[0])->0,
                decimal_octet(parts[1])->0,
                decimal_octet(parts[2])->0,
                decimal_octet(parts[3])->0,
            ),
        )
    } else {
        None
    }
}

/// The octet whose first `ones` bits are set and whose other bits are
/// clear, for `ones` up to eight.
pub open spec fn mask_octet(ones: int) -> u8 {
    if ones <= 0 {
        0
    } else if ones == 1 {
        0x80
    } else if ones == 2 {
        0xC0
    } else if ones == 3 {
        0xE0
    } else if ones == 4 {
        0xF0
    } else if ones == 5 {
        0xF8
    } else if ones == 6 {
        0xFC
    } else if ones == 7 {
        0xFE
    } else {
        0xFF
    }
}

/// The mask of prefix length `prefix`: that many leading one bits, then
/// zero bits. A length above 32 gives the full mask.
pub open spec fn cidr_mask(prefix: int) -> IP {
    IP::V4(
        mask_octet(prefix),
        mask_octet(prefix - 8),
        mask_octet(prefix - 16),
        mask_octet(prefix - 24),
    )
}

/// Reading the dotted-decimal form of an address gives the address back.
pub proof fn lemma_ddn_round_trip(ip: IP)
    ensures
        parse_ddn(ddn_text(ip)) == Some(ip),
{
    match ip {
        IP::V4(a, b, c, d) => {
            let ta = decimal_text(a as nat);
            let tb = decimal_text(b as nat);
            let tc = decimal_text(c as nat);
            let td = decimal_text(d as nat);
            lemma_decimal_octet_round_trip(a);
            lemma_decimal_octet_round_trip(b);
            lemma_decimal_octet_round_trip(c);
            lemma_decimal_octet_round_trip(d);
            lemma_fields_single(ta, '.');
            lemma_fields_append(ta, tb, '.');
            lemma_fields_append(ta + seq!['.'] + tb, tc, '.');
            lemma_fields_append(ta + seq!['.'] + tb + seq!['.'] + tc, td, '.');
            assert(fields(ddn_text(ip), '.') =~= seq![ta, tb, tc, td]);
        },
    }
}

impl IP {
    /// Reads an address written in dotted decimal.
    pub fn from_string(s: &str) -> (r: Option<IP>)
        ensures
            r == parse_ddn(s@),
    {
        let text = chars_of(s);
        let parts = split(&text, '.');
        if parts.len() != 4 {
            return None;
        }
        assert(forall|i: int| 0 <= i < 4 ==> texts(parts@)[i] == parts@[i]@);
        let a = parse_decimal_octet(&parts[0]);
        let b = parse_decimal_octet(&parts[1]);
        let c = parse_decimal_octet(&parts[2]);
        let d = parse_decimal_octet(&parts[3]);
        match (a, b, c, d) {
            (Some(a), Some(b), Some(c), Some(d)) => Some(IP::V4(a, b, c, d)),
            _ => None,
        }
    }

    /// Writes the address in dotted decimal.
    pub fn to_ddn(&self) -> (r: String)
        ensures
            r@ == ddn_text(*self),
    {
        match *self {
            IP::V4(a, b, c, d) => {
                let mut s = String::new();
                push_decimal(&mut s, a);
                s.push('.');
                push_decimal(&mut s, b);
                s.push('.');
                push_decimal(&mut s, c);
                s.push('.');
                push_decimal(&mut s, d);
                assert(s@ =~= ddn_text(*self));
                s
            },
        }
    }

    /// Writes the address in dotted binary.
    pub fn to_bin_ddn(&self) -> (r: String)
        ensures
            r@ == bin_ddn_text(*self),
    {
        match *self {
            IP::V4(a, b, c, d) => {
                let mut s = String::new();
                push_binary(&mut s, a);
                s.push('.');
                push_binary(&mut s, b);
                s.push('.');
                push_binary(&mut s, c);
                s.push('.');
                push_binary(&mut s, d);
                assert(s@ =~= bin_ddn_text(*self));
                s
            },
        }
    }

    /// The mask of a prefix length.
    pub fn from_cidr(prefix: u8) -> (r: IP)
        ensures
            r == cidr_mask(prefix as int),
    {
        IP::V4(
            Self::octet_of_ones(prefix),
            Self::octet_of_ones(prefix.saturating_sub(8)),
            Self::octet_of_ones(prefix.saturating_sub(16)),
            Self::octet_of_ones(prefix.saturating_sub(24)),
        )
    }

    fn octet_of_ones(ones: u8) -> (r: u8)
        ensures
            r == mask_octet(ones as int),
    {
        match ones {
            0 => 0,
            1 => 0x80,
            2 => 0xC0,
            3 => 0xE0,
            4 => 0xF0,
            5 => 0xF8,
            6 => 0xFC,
            7 => 0xFE,
            _ => 0xFF,
        }
    }

    /// The octet at position `i`, counted from the most significant one.
    pub open spec fn octet(self, i: int) -> u8 {
        match self {
            IP::V4(a, b, c, d) => if i == 0 {
                a
            } else if i == 1 {
                b
            } else if i == 2 {
                c
            } else {
                d
            },
        }
    }

    /// Every address has a value below 2^32.
    pub proof fn lemma_value_bounded(self)
        ensures
            self@ <= max_address(),
    {
    }

    /// Two addresses with the same value are the same address.
    pub proof fn lemma_value_injective(self, other: IP)
        requires
            self@ == other@,
        ensures
            self == other,
    {
        match (self, other) {
            (IP::V4(a1, b1, c1, d1), IP::V4(a2, b2, c2, d2)) => {
                let low1 = (b1 as int) * 0x1_0000 + (c1 as int) * 0x100 + (d1 as int);
                let low2 = (b2 as int) * 0x1_0000 + (c2 as int) * 0x100 + (d2 as int);
                assert(0 <= low1 < 0x100_0000 && 0 <= low2 < 0x100_0000);
                assert((a1 as int) * 0x100_0000 + low1 == (a2 as int) * 0x100_0000 + low2);
                assert(a1 == a2);
                let mid1 = (c1 as int) * 0x100 + (d1 as int);
                let mid2 = (c2 as int) * 0x100 + (d2 as int);
                assert(0 <= mid1 < 0x1_0000 && 0 <= mid2 < 0x1_0000);
                assert((b1 as int) * 0x1_0000 + mid1 == (b2 as int) * 0x1_0000 + mid2);
                assert(b1 == b2);
                assert(c1 == c2);
            },
        }
    }

    /// Address order: most significant octet first. It is the order of the
    /// 32-bit values.
    pub fn is_greater_than(&self, other: &IP) -> (r: bool)
        ensures
            r == (self@ > other@),
    {
        match (*self, *other) {
            (IP::V4(a1, b1, c1, d1), IP::V4(a2, b2, c2, d2)) => {
                if a1 != a2 {
                    a1 > a2
                } else if b1 != b2 {
                    b1 > b2
                } else if c1 != c2 {
                    c1 > c2
                } else {
                    d1 > d2
                }
            },
        }
    }

    /// The next address: the last octet goes up by one, and a full octet
    /// becomes zero and carries into the one before it. The last address is
    /// its own successor.
    pub open spec fn successor(self) -> IP {
        match self {
            IP::V4(a, b, c, d) => if d < 255 {
                IP::V4(a, b, c, (d + 1) as u8)
            } else if c < 255 {
                IP::V4(a, b, (c + 1) as u8, 0)
            } else if b < 255 {
                IP::V4(a, (b + 1) as u8, 0, 0)
            } else if a < 255 {
                IP::V4((a + 1) as u8, 0, 0, 0)
            } else {
                self
            },
        }
    }

    /// The successor of every address but the last is greater by exactly
    /// one.
    pub proof fn lemma_successor_value(self)
        ensures
            self@ < max_address() ==> self.successor()@ == self@ + 1,
            self@ >= max_address() ==> self == IP::V4(255, 255, 255, 255) && self.successor()
                == self,
    {
    }

    /// Steps to the next address: the last octet goes up by one, and a full
    /// octet carries into the one before it. The last address has no
    /// successor; asking for it fails and leaves the address as it was.
    pub fn increment(&mut self) -> (r: Result<(), IpError>)
        ensures
            *final(self) == old(self).successor(),
            old(self)@ < max_address() ==> r is Ok && final(self)@ == old(self)@ + 1,
            old(self)@ >= max_address() ==> r == Err::<(), IpError>(IpError::MaxIPReached)
                && *final(self) == *old(self),
    {
        match *self {
            IP::V4(a, b, c, d) => {
                if d < 255 {
                    *self = IP::V4(a, b, c, d + 1);
                } else if c < 255 {
                    *self = IP::V4(a, b, c + 1, 0);
                } else if b < 255 {
                    *self = IP::V4(a, b + 1, 0, 0);
                } else if a < 255 {
                    *self = IP::V4(a + 1, 0, 0, 0);
                } else {
                    return Err(IpError::MaxIPReached);
                }
                Ok(())
            },
        }
    }
}

} // verus!
