//! Ethernet framing: addresses, and the 14-byte link header that carries
//! every packet of the protocol.
use vstd::prelude::*;

use pnet::packet::ethernet::{EtherType, EthernetPacket, MutableEthernetPacket};
use pnet::packet::Packet;
use pnet::util::MacAddr;

verus! {

/// Length in bytes of the Ethernet header.
pub const ETHERNET_HEADER_LENGTH: usize = 14;

/// A link-layer address, as its six octets.
#[derive(Clone, Copy, Debug, PartialEq, Eq, Structural, Hash)]
pub struct MacAddress(pub u8, pub u8, pub u8, pub u8, pub u8, pub u8);

/// The six octets of `m`, in wire order.
pub open spec fn mac_seq(m: MacAddress) -> Seq<u8> {
    seq![m.0, m.1, m.2, m.3, m.4, m.5]
}

/// The address whose octets are `s[at..at + 6]`.
pub open spec fn mac_at(s: Seq<u8>, at: int) -> MacAddress {
    MacAddress(s[at], s[at + 1], s[at + 2], s[at + 3], s[at + 4], s[at + 5])
}

/// The two bytes of `x`, high byte first.
pub open spec fn be16(x: u16) -> Seq<u8> {
    seq![(x / 256) as u8, (x % 256) as u8]
}

/// The EtherType field of frame `f`.
pub open spec fn ether_type_of(f: Seq<u8>) -> u16 {
    (f[12] * 256 + f[13]) as u16
}

/// The bytes of a frame from `src` to `dst` of the given EtherType.
pub open spec fn frame_seq(dst: MacAddress, src: MacAddress, ether_type: u16, payload: Seq<u8>) -> Seq<
    u8,
> {
    mac_seq(dst) + mac_seq(src) + be16(ether_type) + payload
}

impl MacAddress {
    /// The broadcast address.
    pub fn broadcast() -> (r: Self)
        ensures
            r == MacAddress(0xff, 0xff, 0xff, 0xff, 0xff, 0xff),
    {
        MacAddress(0xff, 0xff, 0xff, 0xff, 0xff, 0xff)
    }
}

/// Relies on pnet's `MutableEthernetPacket::new`, `set_destination`,
/// `set_source`, `set_ethertype` and `set_payload`: on a zeroed buffer of
/// 14 + payload bytes they write destination, source, the EtherType high
/// byte first, then the payload.
#[verifier::external_body]
fn build_ethernet(dst: MacAddress, src: MacAddress, ether_type: u16, payload: &[u8]) -> (r: Vec<u8>)
    requires
        payload@.len() + ETHERNET_HEADER_LENGTH <= usize::MAX,
    ensures
        r@ == frame_seq(dst, src, ether_type, payload@),
{
    let mut buf = vec![0u8; ETHERNET_HEADER_LENGTH + payload.len()];
    {
        let mut p = MutableEthernetPacket::new(&mut buf).unwrap();
        p.set_destination(MacAddr(dst.0, dst.1, dst.2, dst.3, dst.4, dst.5));
        p.set_source(MacAddr(src.0, src.1, src.2, src.3, src.4, src.5));
        p.set_ethertype(EtherType(ether_type));
        p.set_payload(payload);
    }
    buf
}

/// Relies on pnet's `EthernetPacket::new`, which refuses a buffer shorter
/// than 14 bytes, and on its getters: destination at bytes 0..6, source at
/// 6..12, the EtherType high byte first at 12..14, the payload after.
#[verifier::external_body]
fn parse_ethernet(frame: &[u8]) -> (r: Option<(MacAddress, MacAddress, u16, Vec<u8>)>)
    ensures
        frame@.len() < ETHERNET_HEADER_LENGTH ==> r is None,
        frame@.len() >= ETHERNET_HEADER_LENGTH ==> match r {
            Some((d, s, t, p)) => d == mac_at(frame@, 0) && s == mac_at(frame@, 6) && be16(t)
                == frame@.subrange(12, 14) && p@ == frame@.skip(ETHERNET_HEADER_LENGTH as int),
            None => false,
        },
{
    let p = EthernetPacket::new(frame)?;
    let (d, s) = (p.get_destination(), p.get_source());
    let dst = MacAddress(d.0, d.1, d.2, d.3, d.4, d.5);
    let src = MacAddress(s.0, s.1, s.2, s.3, s.4, s.5);
    Some((dst, src, p.get_ethertype().0, p.payload().to_vec()))
}

/// A frame of the link: addresses, EtherType and payload.
#[derive(Clone, Debug, PartialEq, Eq)]
pub struct EthernetFrame {
    pub destination: MacAddress,
    pub source: MacAddress,
    pub ether_type: u16,
    pub payload: Vec<u8>,
}

impl EthernetFrame {
    /// The bytes of the frame.
    pub open spec fn bytes(&self) -> Seq<u8> {
        frame_seq(self.destination, self.source, self.ether_type, self.payload@)
    }

    /// Reads a frame; `None` when it is shorter than the Ethernet header.
    pub fn parse(frame: &[u8]) -> (r: Option<Self>)
        ensures
            frame@.len() < ETHERNET_HEADER_LENGTH ==> r is None,
            frame@.len() >= ETHERNET_HEADER_LENGTH ==> r is Some && r.unwrap().bytes() == frame@,
    {
        match parse_ethernet(frame) {
            Some((destination, source, ether_type, payload)) => {
                assert(frame@ =~= frame_seq(destination, source, ether_type, payload@));
                Some(EthernetFrame { destination, source, ether_type, payload })
            },
            None => None,
        }
    }

    /// The bytes of a frame from `src` to `dst` carrying `payload`.
    pub fn encode(dst: MacAddress, src: MacAddress, ether_type: u16, payload: &Vec<u8>) -> (r: Vec<
        u8,
    >)
        requires
            payload@.len() + ETHERNET_HEADER_LENGTH <= usize::MAX,
        ensures
            r@ == frame_seq(dst, src, ether_type, payload@),
    {
        build_ethernet(dst, src, ether_type, payload.as_slice())
    }
}

} // verus!
