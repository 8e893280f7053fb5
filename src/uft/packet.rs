//! Packets of the single-file protocol. The layout is the same as that of
//! the multi-file protocol; decoding does no normalisation: the caller
//! trims the frame first.
use vstd::prelude::*;

use crate::codec::{decode_u16, encode_header, from_le16, header_seq, le16};
use crate::error::TransferError;
use crate::general::UFT_HEADER_LENGTH;

verus! {

/// The three packet types.
#[derive(Clone, Copy, Debug, PartialEq, Eq, Structural)]
pub enum UftType {
    /// A fragment that is not the last one.
    Data,
    /// The last fragment of a file.
    DataEnd,
    /// The acknowledgement of one fragment.
    Ack,
}

impl UftType {
    /// The value of the type byte.
    pub open spec fn spec_code(self) -> u8 {
        match self {
            UftType::Data => 0,
            UftType::DataEnd => 1,
            UftType::Ack => 2,
        }
    }

    /// The value of the type byte.
    #[verifier::when_used_as_spec(spec_code)]
    pub fn code(self) -> (r: u8)
        ensures
            r == self.spec_code(),
    {
        match self {
            UftType::Data => 0,
            UftType::DataEnd => 1,
            UftType::Ack => 2,
        }
    }
}

/// The fixed 8-byte header.
#[derive(Debug, Copy, Clone, PartialEq, Eq, Structural)]
pub struct UftPacketHeader {
    pub uft_type: u8,
    pub length: u8,
    pub total_length: u16,
    pub id: u16,
    pub offset: u16,
}

/// The header whose bytes begin `s`.
pub open spec fn uft_header_of(s: Seq<u8>) -> UftPacketHeader {
    UftPacketHeader {
        uft_type: s[0],
        length: s[1],
        total_length: from_le16(s[2], s[3]),
        id: from_le16(s[4], s[5]),
        offset: from_le16(s[6], s[7]),
    }
}

/// Decoding of a frame into header and payload: the total length must be
/// the length of the frame.
pub open spec fn uft_decode(s: Seq<u8>) -> Result<(UftPacketHeader, Seq<u8>), TransferError> {
    if s.len() < UFT_HEADER_LENGTH {
        Err(TransferError::Parse)
    } else if s.len() != uft_header_of(s).total_length {
        Err(TransferError::Parse)
    } else {
        Ok((uft_header_of(s), s.skip(UFT_HEADER_LENGTH as int)))
    }
}

impl UftPacketHeader {
    /// The eight bytes of the header.
    pub open spec fn bytes(&self) -> Seq<u8> {
        header_seq(self.uft_type, self.length, self.total_length, self.id, self.offset)
    }

    /// Reads a header from the first eight bytes of `raw_header`; fails with
    /// `Parse` when there are fewer.
    pub fn from_raw(raw_header: &[u8]) -> (r: Result<Self, TransferError>)
        ensures
            raw_header@.len() < UFT_HEADER_LENGTH ==> r == Err::<Self, _>(TransferError::Parse),
            raw_header@.len() >= UFT_HEADER_LENGTH ==> r == Ok::<_, TransferError>(
                uft_header_of(raw_header@),
            ),
    {
        if raw_header.len() < UFT_HEADER_LENGTH {
            return Err(TransferError::Parse);
        }
        Ok(UftPacketHeader {
            uft_type: raw_header[0],
            length: raw_header[1],
            total_length: decode_u16(raw_header, 2),
            id: decode_u16(raw_header, 4),
            offset: decode_u16(raw_header, 6),
        })
    }

    /// The eight bytes of the header.
    pub fn raw(&self) -> (r: [u8; 8])
        ensures
            r@ == self.bytes(),
    {
        encode_header(self.uft_type, self.length, self.total_length, self.id, self.offset)
    }
}

/// A header and its payload.
#[derive(Clone, Debug, PartialEq, Eq)]
pub struct UftPacket {
    pub header: UftPacketHeader,
    pub payload: Vec<u8>,
}

/// The bytes that a packet with header `h` and payload `p` is sent as.
pub open spec fn uft_encode(h: UftPacketHeader, p: Seq<u8>) -> Seq<u8> {
    h.bytes() + p
}

impl UftPacket {
    /// Decodes a frame: see `uft_decode`.
    pub fn from_raw(raw_packet: &[u8]) -> (r: Result<Self, TransferError>)
        ensures
            match r {
                Ok(p) => uft_decode(raw_packet@) == Ok::<_, TransferError>((p.header, p.payload@)),
                Err(e) => uft_decode(raw_packet@) == Err::<(UftPacketHeader, Seq<u8>), _>(e),
            },
    {
        let header = UftPacketHeader::from_raw(raw_packet)?;
        if raw_packet.len() != header.total_length as usize {
            return Err(TransferError::Parse);
        }
        let mut payload: Vec<u8> = Vec::new();
        let mut i: usize = UFT_HEADER_LENGTH;
        while i < raw_packet.len()
            invariant
                UFT_HEADER_LENGTH <= i <= raw_packet@.len(),
                payload@ == raw_packet@.subrange(UFT_HEADER_LENGTH as int, i as int),
            decreases raw_packet@.len() - i,
        {
            payload.push(raw_packet[i]);
            i = i + 1;
            assert(payload@ =~= raw_packet@.subrange(UFT_HEADER_LENGTH as int, i as int));
        }
        Ok(UftPacket { header, payload })
    }

    /// The bytes of the packet: header, then payload.
    pub fn raw(&self) -> (r: Vec<u8>)
        ensures
            r@ == uft_encode(self.header, self.payload@),
    {
        let h = self.header.raw();
        let mut r: Vec<u8> = Vec::new();
        let mut i: usize = 0;
        while i < UFT_HEADER_LENGTH
            invariant
                i <= UFT_HEADER_LENGTH,
                h@.len() == UFT_HEADER_LENGTH,
                r@ == h@.take(i as int),
            decreases UFT_HEADER_LENGTH - i,
        {
            r.push(h[i]);
            i = i + 1;
            assert(r@ =~= h@.take(i as int));
        }
        assert(h@.take(8) =~= h@);
        crate::utils::append_bytes(&mut r, &self.payload);
        r
    }
}

/// Decoding the encoding of a packet whose total length is right gives the
/// packet back.
pub proof fn lemma_uft_decode_encode(h: UftPacketHeader, p: Seq<u8>)
    requires
        h.total_length == UFT_HEADER_LENGTH + p.len(),
    ensures
        uft_decode(uft_encode(h, p)) == Ok::<_, TransferError>((h, p)),
{
    crate::codec::lemma_le16_round_trip(h.total_length);
    crate::codec::lemma_le16_round_trip(h.id);
    crate::codec::lemma_le16_round_trip(h.offset);
    let s = uft_encode(h, p);
    assert(s[2] == le16(h.total_length)[0] && s[3] == le16(h.total_length)[1]);
    assert(s[4] == le16(h.id)[0] && s[5] == le16(h.id)[1]);
    assert(s[6] == le16(h.offset)[0] && s[7] == le16(h.offset)[1]);
    assert(uft_header_of(s) == h);
    assert(s.skip(8) =~= p);
}

} // verus!
