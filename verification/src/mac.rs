//! Hardware identities: the key by which an interface is known.

use crate::text::{
    chars_of, fields, hex_octet, hex_text, lemma_fields_append, lemma_fields_single,
    lemma_hex_octet_round_trip, parse_hex_octet, push_hex, split, texts,
};
use vstd::prelude::*;

verus! {

/// The thread-local random number generator of the `rand` crate. Nothing of
/// its state is visible here.
#[verifier::external_type_specification]
#[verifier::external_body]
pub struct ExThreadRng(rand::rngs::ThreadRng);

/// `rand::rng` hands out the generator of the calling thread. Nothing is
/// claimed of the handle.
pub assume_specification[ rand::rng ]() -> (r: rand::rngs::ThreadRng)
;

/// `Rng::random_range` over the whole range of an octet: the range is not
/// empty, so the call returns, and any octet may come out.
#[verifier::external_body]
fn random_octet(rng: &mut rand::rngs::ThreadRng) -> (r: u8) {
    rand::Rng::random_range(rng, 0..=255)
}

/// A 48-bit hardware identity, six octets. Two identities are equal when
/// their octets are.
#[derive(Clone, Copy, Debug, PartialEq, Eq, Structural)]
pub enum MAC {
    EUI48(u8, u8, u8, u8, u8, u8),
}

/// The text form of an identity: six octets as two upper-case hexadecimal
/// digits each, with a colon between them.
pub open spec fn mac_text(mac: MAC) -> Seq<char> {
    match mac {
        MAC::EUI48(a, b, c, d, e, f) => hex_text(a) + seq![':'] + hex_text(b) + seq![':']
            + hex_text(c) + seq![':'] + hex_text(d) + seq![':'] + hex_text(e) + seq![':']
            + hex_text(f),
    }
}

/// The identity that a text writes: exactly six pieces between colons, each
/// of them two hexadecimal digits in either case. `None` for every other
/// text.
pub open spec fn parse_mac(s: Seq<char>) -> Option<MAC> {
    let parts = fields(s, ':');
    if parts.len() == 6 && forall|i: int| 0 <= i < 6 ==> hex_octet(#[trigger] parts[i]) is Some {
        Some(
            MAC::EUI48(
                hex_octet(parts[0])->0,
                hex_octet(parts[1])->0,
                hex_octet(parts[2])->0,
                hex_octet(parts[3])->0,
                hex_octet(parts[4])->0,
                hex_octet(parts[5])->0,
            ),
        )
    } else {
        None
    }
}

/// Reading the text form of an identity gives the identity back.
pub proof fn lemma_mac_round_trip(mac: MAC)
    ensures
        parse_mac(mac_text(mac)) == Some(mac),
{
    match mac {
        MAC::EUI48(a, b, c, d, e, f) => {
            let (ta, tb, tc) = (hex_text(a), hex_text(b), hex_text(c));
            let (td, te, tf) = (hex_text(d), hex_text(e), hex_text(f));
            lemma_hex_octet_round_trip(a);
            lemma_hex_octet_round_trip(b);
            lemma_hex_octet_round_trip(c);
            lemma_hex_octet_round_trip(d);
            lemma_hex_octet_round_trip(e);
            lemma_hex_octet_round_trip(f);
            let colon = seq![':'];
            lemma_fields_single(ta, ':');
            lemma_fields_append(ta, tb, ':');
            lemma_fields_append(ta + colon + tb, tc, ':');
            lemma_fields_append(ta + colon + tb + colon + tc, td, ':');
            lemma_fields_append(ta + colon + tb + colon + tc + colon + td, te, ':');
            lemma_fields_append(ta + colon + tb + colon + tc + colon + td + colon + te, tf, ':');
            assert(fields(mac_text(mac), ':') =~= seq![ta, tb, tc, td, te, tf]);
        },
    }
}

impl MAC {
    /// A fresh identity, each octet drawn at random. Nothing keeps two draws
    /// apart: whether an identity is already taken is decided where it is
    /// registered.
    pub fn new() -> MAC {
        let mut rng = rand::rng();
        let a = random_octet(&mut rng);
        let b = random_octet(&mut rng);
        let c = random_octet(&mut rng);
        let d = random_octet(&mut rng);
        let e = random_octet(&mut rng);
        let f = random_octet(&mut rng);
        MAC::EUI48(a, b, c, d, e, f)
    }

    /// Reads an identity from its text form.
    pub fn from_string(s: &str) -> (r: Option<MAC>)
        ensures
            r == parse_mac(s@),
    {
        let text = chars_of(s);
        let parts = split(&text, ':');
        if parts.len() != 6 {
            return None;
        }
        assert(forall|i: int| 0 <= i < 6 ==> texts(parts@)[i] == parts@[i]@);
        let mut octets: [u8; 6] = [0;6];
        let mut i: usize = 0;
        while i < 6
            invariant
                i <= 6,
                parts@.len() == 6,
                texts(parts@) == fields(s@, ':'),
                forall|j: int| 0 <= j < i ==> hex_octet(#[trigger] fields(s@, ':')[j]) == Some(octets[j]),
            decreases 6 - i,
        {
            assert(texts(parts@)[i as int] == parts@[i as int]@);
            match parse_hex_octet(&parts[i]) {
                Some(byte) => {
                    octets[i] = byte;
                },
                None => {
                    return None;
                },
            }
            i += 1;
        }
        Some(MAC::EUI48(octets[0], octets[1], octets[2], octets[3], octets[4], octets[5]))
    }

    /// Writes the identity in its text form.
    pub fn to_hex(&self) -> (r: String)
        ensures
            r@ == mac_text(*self),
    {
        match *self {
            MAC::EUI48(a, b, c, d, e, f) => {
                let mut s = String::new();
                push_hex(&mut s, a);
                s.push(':');
                push_hex(&mut s, b);
                s.push(':');
                push_hex(&mut s, c);
                s.push(':');
                push_hex(&mut s, d);
                s.push(':');
                push_hex(&mut s, e);
                s.push(':');
                push_hex(&mut s, f);
                assert(s@ =~= mac_text(*self));
                s
            },
        }
    }
}

} // verus!
