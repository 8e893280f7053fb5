//! Byte layout of the fixed 8-byte header, shared by both packet formats:
//! type, header length, total length, id, offset; the three 16-bit fields
//! little-endian.
use vstd::prelude::*;

verus! {

/// The two bytes of `x`, low byte first.
pub open spec fn le16(x: u16) -> Seq<u8> {
    seq![(x % 256) as u8, (x / 256) as u8]
}

/// The 16-bit value whose low byte is `lo` and high byte is `hi`.
pub open spec fn from_le16(lo: u8, hi: u8) -> u16 {
    (lo + 256 * hi) as u16
}

/// The eight header bytes for the given fields.
pub open spec fn header_seq(t: u8, l: u8, tl: u16, id: u16, off: u16) -> Seq<u8> {
    seq![t, l] + le16(tl) + le16(id) + le16(off)
}

pub proof fn lemma_le16_round_trip(x: u16)
    ensures
        from_le16(le16(x)[0], le16(x)[1]) == x,
{
}

pub proof fn lemma_from_le16_round_trip(lo: u8, hi: u8)
    ensures
        le16(from_le16(lo, hi)) == seq![lo, hi],
{
    assert(le16(from_le16(lo, hi)) =~= seq![lo, hi]);
}

/// Encodes the header fields.
pub fn encode_header(t: u8, l: u8, tl: u16, id: u16, off: u16) -> (r: [u8; 8])
    ensures
        r@ == header_seq(t, l, tl, id, off),
{
    let r: [u8; 8] = [
        t,
        l,
        (tl % 256) as u8,
        (tl / 256) as u8,
        (id % 256) as u8,
        (id / 256) as u8,
        (off % 256) as u8,
        (off / 256) as u8,
    ];
    assert(r@ =~= header_seq(t, l, tl, id, off));
    r
}

/// Reads a little-endian 16-bit value at `at`.
pub fn decode_u16(raw: &[u8], at: usize) -> (r: u16)
    requires
        at + 1 < raw@.len(),
    ensures
        r == from_le16(raw@[at as int], raw@[at + 1]),
{
    raw[at] as u16 + 256 * (raw[at + 1] as u16)
}

} // verus!
