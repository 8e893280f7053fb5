use eft::error::TransferError;
use eft::frame::{EthernetFrame, MacAddress};
use eft::uft::packet::{UftPacket, UftPacketHeader, UftType};
use eft::uft::Uft;

const ME: MacAddress = MacAddress(0x02, 0, 0, 0, 0, 0x0a);
const PEER: MacAddress = MacAddress(0x02, 0, 0, 0, 0, 0x0b);

fn frame(from: MacAddress, to: MacAddress, kind: UftType, id: u16, offset: u16, payload: Vec<u8>) -> Vec<u8> {
    let p = UftPacket {
        header: UftPacketHeader {
            uft_type: kind.code(),
            length: 8,
            total_length: payload.len() as u16 + 8,
            id,
            offset,
        },
        payload,
    };
    let mut raw = p.raw();
    raw.resize(46, 0);
    EthernetFrame::encode(to, from, 0x00FF, &raw)
}

fn ack_of(bytes: &[u8]) -> (u16, u16) {
    let f = EthernetFrame::parse(bytes).unwrap();
    assert_eq!(f.ether_type, 0x00FF);
    let p = UftPacket::from_raw(&f.payload).unwrap();
    assert_eq!(p.header.uft_type, UftType::Ack.code());
    (p.header.id, p.header.offset)
}

#[test]
fn uft_receiver_reassembles_and_remembers() {
    let mut u = Uft::new(13, ME);
    let r = u.receive_from(PEER, &frame(PEER, ME, UftType::DataEnd, 4, 1, vec![6, 7]));
    assert_eq!(ack_of(&r.ack.unwrap()), (4, 1));
    assert!(r.file.is_none());
    let r = u.receive_from(PEER, &frame(PEER, ME, UftType::Data, 4, 0, vec![1, 2, 3, 4, 5]));
    assert_eq!(ack_of(&r.ack.unwrap()), (4, 0));
    assert_eq!(r.file, Some(vec![1u8, 2, 3, 4, 5, 6, 7]));
    let late = u.receive_from(PEER, &frame(PEER, ME, UftType::Data, 4, 0, vec![1, 2, 3, 4, 5]));
    assert_eq!(ack_of(&late.ack.unwrap()), (4, 0));
    assert!(late.file.is_none());
}

#[test]
fn uft_receiver_drops_foreign_frames() {
    let mut u = Uft::new(13, ME);
    let other = MacAddress(0x02, 0, 0, 0, 0, 0x0c);
    assert!(u.receive_from(PEER, &frame(other, ME, UftType::DataEnd, 1, 0, vec![1])).ack.is_none());
    assert!(u.receive_from(PEER, &frame(PEER, other, UftType::DataEnd, 1, 0, vec![1])).ack.is_none());
    assert!(u.receive_from(PEER, &frame(PEER, ME, UftType::Ack, 1, 0, vec![])).ack.is_none());
    assert!(u.receive_from(PEER, &frame(PEER, ME, UftType::Data, 1, 320, vec![1])).ack.is_none());
    let eft = EthernetFrame::encode(ME, PEER, 0x0EF7, &vec![1, 8, 9, 0, 1, 0, 0, 0, 5]);
    assert!(u.receive_from(PEER, &eft).ack.is_none());
}

#[test]
fn uft_sender_retransmits_until_acked() {
    let u = Uft::new(13, ME);
    let data: Vec<u8> = (1u8..=7).collect();
    let mut s = u.send(&data, PEER, 9).unwrap();
    let first = s.poll(100);
    assert_eq!(first.len(), 2);
    let f0 = EthernetFrame::parse(&first[0]).unwrap();
    assert_eq!((f0.destination, f0.source, f0.ether_type), (PEER, ME, 0x00FF));
    let pk0 = UftPacket::from_raw(&f0.payload).unwrap();
    assert_eq!(pk0.header, UftPacketHeader { uft_type: 0, length: 8, total_length: 13, id: 9, offset: 0 });
    assert_eq!(pk0.payload, vec![1u8, 2, 3, 4, 5]);
    let pk1 = UftPacket::from_raw(&EthernetFrame::parse(&first[1]).unwrap().payload).unwrap();
    assert_eq!(pk1.header.uft_type, UftType::DataEnd.code());
    assert_eq!(pk1.payload, vec![6u8, 7]);
    assert!(s.poll(105).is_empty());
    assert!(s.receive_ack(&frame(PEER, ME, UftType::Ack, 9, 1, vec![]), 104));
    assert!(!s.is_done());
    // the round trip of offset 1 was 4 ms: the timeout is now (7 * 10 + 3 * 4) / 10 = 8 ms
    assert!(s.poll(107).is_empty());
    let again = s.poll(108);
    assert_eq!(again.len(), 1);
    assert_eq!(again[0], first[0]);
    assert!(!s.receive_ack(&frame(PEER, ME, UftType::Ack, 8, 0, vec![]), 110));
    assert!(!s.receive_ack(&frame(PEER, ME, UftType::Data, 9, 0, vec![]), 110));
    assert!(s.receive_ack(&frame(PEER, ME, UftType::Ack, 9, 0, vec![]), 110));
    assert!(s.is_done());
    assert!(s.poll(1000).is_empty());
}

#[test]
fn uft_sender_rejects_oversized_file() {
    let u = Uft::new(13, ME);
    assert!(matches!(u.send(&vec![1u8; 5 * 320 + 1], PEER, 1), Err(TransferError::Offset)));
    let mut s = u.send(&Vec::new(), PEER, 1).unwrap();
    assert!(s.is_done());
    assert!(s.poll(0).is_empty());
}
