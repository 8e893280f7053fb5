use eft::eft::packet::{EftPacket, EftPacketHeader, EftType};
use eft::error::TransferError;
use eft::frame::{EthernetFrame, MacAddress};
use eft::uft::packet::{UftPacket, UftPacketHeader, UftType};

fn data_packet(kind: EftType, id: u16, offset: u16, payload: Vec<u8>) -> EftPacket {
    EftPacket {
        header: EftPacketHeader {
            packet_type: kind.code(),
            length: 8,
            total_length: payload.len() as u16 + 8,
            id,
            offset,
        },
        payload,
    }
}

#[test]
fn header_layout_is_little_endian() {
    let h = EftPacketHeader { packet_type: 1, length: 8, total_length: 13, id: 7, offset: 0 };
    assert_eq!(h.raw(), [0x01, 0x08, 0x0D, 0x00, 0x07, 0x00, 0x00, 0x00]);
    let h = EftPacketHeader { packet_type: 0, length: 8, total_length: 0x1234, id: 0xABCD, offset: 0x0102 };
    assert_eq!(h.raw(), [0x00, 0x08, 0x34, 0x12, 0xCD, 0xAB, 0x02, 0x01]);
}

#[test]
fn header_from_raw() {
    let raw = [0x02u8, 0x08, 0x08, 0x00, 0x05, 0x01, 0x40, 0x01, 0xFF];
    let h = EftPacketHeader::from_raw(&raw).unwrap();
    assert_eq!(h, EftPacketHeader { packet_type: 2, length: 8, total_length: 8, id: 0x0105, offset: 0x0140 });
    assert_eq!(EftPacketHeader::from_raw(&raw[..7]), Err(TransferError::Parse));
}

#[test]
fn decode_of_encode_data() {
    let p = data_packet(EftType::Data, 9, 3, vec![0, 1, 2, 3, 4]);
    let raw = p.raw();
    assert_eq!(raw.len(), 13);
    assert_eq!(EftPacket::from_raw(raw), Ok(p));
}

#[test]
fn decode_of_encode_data_end() {
    let p = data_packet(EftType::DataEnd, 300, 2, vec![9, 8, 7]);
    assert_eq!(EftPacket::from_raw(p.raw()), Ok(p));
}

#[test]
fn decode_of_encode_ack() {
    let p = EftPacket::ack(7, 4);
    assert_eq!(EftPacket::from_raw(p.raw()), Ok(p));
}

#[test]
fn ack_is_eight_bytes() {
    let p = EftPacket::ack(65535, 319);
    assert_eq!(p.raw(), vec![0x02, 0x08, 0x08, 0x00, 0xFF, 0xFF, 0x3F, 0x01]);
    assert_eq!(p.raw().len(), 8);
}

#[test]
fn padded_data_frame_is_stripped() {
    let p = data_packet(EftType::Data, 1, 0, vec![1, 2, 3]);
    let mut raw = p.raw();
    raw.resize(46, 0);
    assert_eq!(EftPacket::from_raw(raw), Ok(p));
}

#[test]
fn padded_ack_is_cut_to_header() {
    let mut raw = EftPacket::ack(3, 0).raw();
    raw.resize(46, 0);
    assert_eq!(EftPacket::from_raw(raw), Ok(EftPacket::ack(3, 0)));
}

#[test]
fn padding_kept_is_a_parse_error() {
    let p = UftPacket {
        header: UftPacketHeader { uft_type: UftType::Data.code(), length: 8, total_length: 11, id: 1, offset: 0 },
        payload: vec![1, 2, 3],
    };
    let mut raw = p.raw();
    raw.resize(46, 0);
    assert!(matches!(UftPacket::from_raw(&raw), Err(TransferError::Parse)));
}

#[test]
fn data_ending_in_nul_does_not_decode() {
    let p = data_packet(EftType::Data, 1, 1, vec![1, 0]);
    assert_eq!(EftPacket::from_raw(p.raw()), Err(TransferError::Parse));
}

#[test]
fn short_or_inconsistent_frames_are_parse_errors() {
    assert_eq!(EftPacket::from_raw(vec![0, 8, 8]), Err(TransferError::Parse));
    let mut raw = data_packet(EftType::Data, 1, 1, vec![1, 2]).raw();
    raw[2] = 11;
    assert_eq!(EftPacket::from_raw(raw), Err(TransferError::Parse));
}

#[test]
fn uft_round_trip() {
    let p = UftPacket {
        header: UftPacketHeader { uft_type: UftType::DataEnd.code(), length: 8, total_length: 10, id: 2, offset: 5 },
        payload: vec![0, 0],
    };
    let raw = p.raw();
    assert_eq!(raw, vec![1, 8, 10, 0, 2, 0, 5, 0, 0, 0]);
    assert_eq!(UftPacket::from_raw(&raw), Ok(p));
    assert_eq!(UftPacketHeader::from_raw(&raw[..4]), Err(TransferError::Parse));
}

#[test]
fn ethernet_frame_layout() {
    let dst = MacAddress(1, 2, 3, 4, 5, 6);
    let src = MacAddress(0xa, 0xb, 0xc, 0xd, 0xe, 0xf);
    let bytes = EthernetFrame::encode(dst, src, 0x0EF7, &vec![0x55, 0x66]);
    assert_eq!(bytes, vec![1, 2, 3, 4, 5, 6, 0xa, 0xb, 0xc, 0xd, 0xe, 0xf, 0x0E, 0xF7, 0x55, 0x66]);
    let f = EthernetFrame::parse(&bytes).unwrap();
    assert_eq!(f, EthernetFrame { destination: dst, source: src, ether_type: 0x0EF7, payload: vec![0x55, 0x66] });
    assert!(EthernetFrame::parse(&bytes[..13]).is_none());
    assert_eq!(MacAddress::broadcast(), MacAddress(0xff, 0xff, 0xff, 0xff, 0xff, 0xff));
}
