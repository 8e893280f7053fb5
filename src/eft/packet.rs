//! Packets of the multi-file protocol and their wire codec.
//!
//! ```text
//!  0                   1                   2                   3
//!  0 1 2 3 4 5 6 7 8 9 0 1 2 3 4 5 6 7 8 9 0 1 2 3 4 5 6 7 8 9 0 1
//! +-+-+-+-+-+-+-+-+-+-+-+-+-+-+-+-+-+-+-+-+-+-+-+-+-+-+-+-+-+-+-+-+
//! |      Type     |     Length    |          Total Length         |
//! +-+-+-+-+-+-+-+-+-+-+-+-+-+-+-+-+-+-+-+-+-+-+-+-+-+-+-+-+-+-+-+-+
//! |         Identification        |             Offset            |
//! +-+-+-+-+-+-+-+-+-+-+-+-+-+-+-+-+-+-+-+-+-+-+-+-+-+-+-+-+-+-+-+-+
//! ```
use vstd::prelude::*;

use crate::codec::{decode_u16, encode_header, from_le16, header_seq, le16};
use crate::error::TransferError;
use crate::general::EFT_HEADER_LENGTH;
use crate::utils::{copy_range, rstrip_null, strip_nul};

verus! {

/// The three packet types.
#[derive(Clone, Copy, Debug, PartialEq, Eq, Structural)]
pub enum EftType {
    /// A fragment that is not the last one.
    Data,
    /// The last fragment of a file.
    DataEnd,
    /// The acknowledgement of one fragment.
    Ack,
}

impl EftType {
    /// The value of the type byte.
    pub open spec fn spec_code(self) -> u8 {
        match self {
            EftType::Data => 0,
            EftType::DataEnd => 1,
            EftType::Ack => 2,
        }
    }

    /// The value of the type byte.
    #[verifier::when_used_as_spec(spec_code)]
    pub fn code(self) -> (r: u8)
        ensures
            r == self.spec_code(),
    {
        match self {
            EftType::Data => 0,
            EftType::DataEnd => 1,
            EftType::Ack => 2,
        }
    }
}

/// The fixed 8-byte header.
#[derive(Debug, Copy, Clone, Default, PartialEq, Eq, Structural)]
pub struct EftPacketHeader {
    pub packet_type: u8,
    pub length: u8,
    pub total_length: u16,
    pub id: u16,
    pub offset: u16,
}

/// The header whose bytes begin `s`.
pub open spec fn header_of(s: Seq<u8>) -> EftPacketHeader {
    EftPacketHeader {
        packet_type: s[0],
        length: s[1],
        total_length: from_le16(s[2], s[3]),
        id: from_le16(s[4], s[5]),
        offset: from_le16(s[6], s[7]),
    }
}

/// What a received frame becomes once normalised: an acknowledgement is cut
/// to its header, anything else loses its trailing NUL padding.
pub open spec fn normalize(s: Seq<u8>) -> Seq<u8> {
    if s[0] == EftType::Ack.spec_code() {
        s.take(EFT_HEADER_LENGTH as int)
    } else {
        strip_nul(s)
    }
}

/// Decoding of a received frame into header and payload.
pub open spec fn decode(s: Seq<u8>) -> Result<(EftPacketHeader, Seq<u8>), TransferError> {
    if s.len() < EFT_HEADER_LENGTH {
        Err(TransferError::Parse)
    } else {
        let h = header_of(s);
        let n = normalize(s);
        if n.len() != h.total_length || n.len() < EFT_HEADER_LENGTH {
            Err(TransferError::Parse)
        } else {
            Ok((h, n.skip(EFT_HEADER_LENGTH as int)))
        }
    }
}

impl EftPacketHeader {
    /// The eight bytes of the header.
    pub open spec fn bytes(&self) -> Seq<u8> {
        header_seq(self.packet_type, self.length, self.total_length, self.id, self.offset)
    }

    /// Reads a header from the first eight bytes of `raw_header`; fails with
    /// `Parse` when there are fewer.
    pub fn from_raw(raw_header: &[u8]) -> (r: Result<Self, TransferError>)
        ensures
            raw_header@.len() < EFT_HEADER_LENGTH ==> r == Err::<Self, _>(TransferError::Parse),
            raw_header@.len() >= EFT_HEADER_LENGTH ==> r == Ok::<_, TransferError>(
                header_of(raw_header@),
            ),
    {
        if raw_header.len() < EFT_HEADER_LENGTH {
            return Err(TransferError::Parse);
        }
        Ok(EftPacketHeader {
            packet_type: raw_header[0],
            length: raw_header[1],
            total_length: decode_u16(raw_header, 2),
            id: decode_u16(raw_header, 4),
            offset: decode_u16(raw_header, 6),
        })
    }

    /// The eight bytes of the header.
    pub fn raw(&self) -> (r: [u8; 8])
        ensures
            r@ == self.bytes(),
    {
        encode_header(self.packet_type, self.length, self.total_length, self.id, self.offset)
    }
}

/// Reading the bytes of a header gives the header back.
pub proof fn lemma_header_round_trip(h: EftPacketHeader)
    ensures
        h.bytes().len() == EFT_HEADER_LENGTH,
        header_of(h.bytes()) == h,
{
    crate::codec::lemma_le16_round_trip(h.total_length);
    crate::codec::lemma_le16_round_trip(h.id);
    crate::codec::lemma_le16_round_trip(h.offset);
    let b = h.bytes();
    assert(b[2] == le16(h.total_length)[0] && b[3] == le16(h.total_length)[1]);
    assert(b[4] == le16(h.id)[0] && b[5] == le16(h.id)[1]);
    assert(b[6] == le16(h.offset)[0] && b[7] == le16(h.offset)[1]);
}

/// A header and its payload.
#[derive(Clone, Debug, Default, PartialEq, Eq)]
pub struct EftPacket {
    pub header: EftPacketHeader,
    pub payload: Vec<u8>,
}

/// The bytes that a packet with header `h` and payload `p` is sent as.
pub open spec fn encode(h: EftPacketHeader, p: Seq<u8>) -> Seq<u8> {
    h.bytes() + p
}

impl EftPacket {
    /// Decodes a received frame: see `decode`.
    pub fn from_raw(raw_packet: Vec<u8>) -> (r: Result<Self, TransferError>)
        ensures
            match r {
                Ok(p) => decode(raw_packet@) == Ok::<_, TransferError>((p.header, p.payload@)),
                Err(e) => decode(raw_packet@) == Err::<(EftPacketHeader, Seq<u8>), _>(e),
            },
    {
        let mut raw_packet = raw_packet;
        let header = EftPacketHeader::from_raw(raw_packet.as_slice())?;
        let ghost s = raw_packet@;
        if header.packet_type == EftType::Ack.code() {
            raw_packet.truncate(EFT_HEADER_LENGTH);
        } else {
            rstrip_null(&mut raw_packet);
        }
        assert(raw_packet@ == normalize(s));
        if raw_packet.len() != header.total_length as usize || raw_packet.len() < EFT_HEADER_LENGTH {
            return Err(TransferError::Parse);
        }
        let payload = copy_range(&raw_packet, EFT_HEADER_LENGTH, raw_packet.len());
        Ok(EftPacket { header, payload })
    }

    /// The bytes of the packet: header, then payload.
    pub fn raw(&self) -> (r: Vec<u8>)
        ensures
            r@ == encode(self.header, self.payload@),
    {
        let h = self.header.raw();
        let mut r: Vec<u8> = Vec::new();
        let mut i: usize = 0;
        while i < EFT_HEADER_LENGTH
            invariant
                i <= EFT_HEADER_LENGTH,
                h@.len() == EFT_HEADER_LENGTH,
                r@ == h@.take(i as int),
            decreases EFT_HEADER_LENGTH - i,
        {
            r.push(h[i]);
            i = i + 1;
            assert(r@ =~= h@.take(i as int));
        }
        assert(h@.take(8) =~= h@);
        crate::utils::append_bytes(&mut r, &self.payload);
        r
    }

    /// The acknowledgement of fragment `offset` of file `id`.
    pub fn ack(id: u16, offset: u16) -> (r: Self)
        ensures
            r.header == (EftPacketHeader {
                packet_type: EftType::Ack.spec_code(),
                length: EFT_HEADER_LENGTH as u8,
                total_length: EFT_HEADER_LENGTH as u16,
                id,
                offset,
            }),
            r.payload@.len() == 0,
    {
        EftPacket {
            header: EftPacketHeader {
                packet_type: EftType::Ack.code(),
                length: EFT_HEADER_LENGTH as u8,
                total_length: EFT_HEADER_LENGTH as u16,
                id,
                offset,
            },
            payload: Vec::new(),
        }
    }
}

/// Decoding the encoding of a packet gives the packet back, for every
/// packet whose total length is right, that carries no payload if it is an
/// acknowledgement, and whose encoding does not end in a NUL byte otherwise
/// (trailing NUL bytes are taken for link padding).
pub proof fn lemma_decode_encode(h: EftPacketHeader, p: Seq<u8>)
    requires
        h.total_length == EFT_HEADER_LENGTH + p.len(),
        h.packet_type == EftType::Ack.spec_code() ==> p.len() == 0,
        h.packet_type != EftType::Ack.spec_code() ==> encode(h, p).last() != 0,
    ensures
        decode(encode(h, p)) == Ok::<_, TransferError>((h, p)),
{
    lemma_header_round_trip(h);
    let s = encode(h, p);
    assert(s.take(8) =~= h.bytes());
    assert(header_of(s) == header_of(h.bytes()));
    assert(s.skip(8) =~= p);
    if h.packet_type != EftType::Ack.spec_code() {
        assert(strip_nul(s) == s);
    } else {
        assert(s.take(8) =~= s);
    }
}

/// An acknowledgement is encoded in exactly eight bytes.
pub proof fn lemma_ack_length(p: EftPacket)
    requires
        p.header.packet_type == EftType::Ack.spec_code(),
        p.payload@.len() == 0,
    ensures
        encode(p.header, p.payload@).len() == EFT_HEADER_LENGTH,
{
}

} // verus!
