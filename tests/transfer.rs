use eft::eft::connection::{AckOutcome, RecvConnection, SendConnection, Tri};
use eft::eft::dispatcher::{parse_ack, RecvConnectionManager, SendConnectionManager, Transmission};
use eft::eft::packet::{EftPacket, EftType};
use eft::error::TransferError;
use eft::frame::{EthernetFrame, MacAddress};

const SENDER: MacAddress = MacAddress(0x02, 0, 0, 0, 0, 0x01);
const RECEIVER: MacAddress = MacAddress(0x02, 0, 0, 0, 0, 0x02);

fn tri(id: u16) -> Tri {
    Tri { src: SENDER, dst: RECEIVER, fileid: id }
}

fn packet_of(t: &Transmission) -> EftPacket {
    let f = EthernetFrame::parse(&t.frame).unwrap();
    assert_eq!(f.destination, RECEIVER);
    assert_eq!(f.source, SENDER);
    assert_eq!(f.ether_type, 0x0EF7);
    EftPacket::from_raw(f.payload).unwrap()
}

/// Delivers frames to the receiver and returns the acknowledgements it sends.
fn deliver(rx: &mut RecvConnectionManager, frames: &[Transmission]) -> Vec<(Tri, u16)> {
    let mut acks = Vec::new();
    for t in frames {
        let action = rx.on_frame(&t.frame, 0);
        if let Some(a) = action.ack {
            acks.push(parse_ack(&a).unwrap());
        }
    }
    acks
}

#[test]
fn five_byte_file_is_one_data_end() {
    let data = vec![0x01u8, 0x02, 0x03, 0x04, 0x05];
    let mut tx = SendConnectionManager::new();
    tx.send(tri(7), &data, 13).unwrap();
    let mut rx = RecvConnectionManager::new();
    rx.stream(tri(7));
    let out = tx.tick(&Vec::new(), 0);
    assert_eq!(out.len(), 1);
    assert_eq!(&out[0].frame[14..22], &[0x01, 0x08, 0x0D, 0x00, 0x07, 0x00, 0x00, 0x00]);
    let p = packet_of(&out[0]);
    assert_eq!(p.header.packet_type, EftType::DataEnd.code());
    assert_eq!(p.header.offset, 0);
    assert_eq!(p.payload, data);
    let acks = deliver(&mut rx, &out);
    assert_eq!(acks, vec![(tri(7), 0)]);
    assert_eq!(rx.read(tri(7), 0), Ok(Some(data)));
    tx.tick(&acks, 1);
    assert_eq!(tx.len(), 0);
}

#[test]
fn ten_byte_file_is_data_then_data_end() {
    let data: Vec<u8> = (0u8..10).collect();
    let mut c = SendConnection::enqueue(tri(1), &data, 13, 20).unwrap();
    assert_eq!(c.timeouts(0), vec![0u16, 1]);
    let f0 = c.write(0, 0).unwrap();
    let f1 = c.write(1, 0).unwrap();
    let pk0 = EftPacket::from_raw(EthernetFrame::parse(&f0).unwrap().payload).unwrap();
    let pk1 = EftPacket::from_raw(EthernetFrame::parse(&f1).unwrap().payload).unwrap();
    assert_eq!(pk0.header.packet_type, EftType::Data.code());
    assert_eq!(pk0.header.offset, 0);
    assert_eq!(pk0.payload, vec![0u8, 1, 2, 3, 4]);
    assert_eq!(pk1.header.packet_type, EftType::DataEnd.code());
    assert_eq!(pk1.header.offset, 1);
    assert_eq!(pk1.payload, vec![5u8, 6, 7, 8, 9]);
    let mut r = RecvConnection::new();
    assert_eq!(r.on_data(1, pk1.header.packet_type, &pk1.payload), Ok(false));
    assert_eq!(r.assemble(), None);
    assert_eq!(r.on_data(0, pk0.header.packet_type, &pk0.payload), Ok(true));
    assert_eq!(r.assemble(), Some(data));
}

#[test]
fn lost_ack_is_recovered_by_timeout() {
    let data = vec![7u8, 7, 7];
    let mut tx = SendConnectionManager::new();
    tx.send(tri(3), &data, 13).unwrap();
    let mut rx = RecvConnectionManager::new();
    rx.stream(tri(3));
    let out = tx.tick(&Vec::new(), 100);
    assert_eq!(out.len(), 1);
    let acks = deliver(&mut rx, &out);
    assert_eq!(acks.len(), 1);
    // the ack is lost: nothing is due before the timeout
    assert!(tx.tick(&Vec::new(), 110).is_empty());
    assert!(tx.tick(&Vec::new(), 120).is_empty());
    let again = tx.tick(&Vec::new(), 121);
    assert_eq!(again.len(), 1);
    assert!(!again[0].fast);
    assert_eq!(packet_of(&again[0]).header.offset, 0);
    let acks = deliver(&mut rx, &again);
    assert_eq!(acks, vec![(tri(3), 0)]);
    tx.tick(&acks, 122);
    assert!(!tx.contains(tri(3)));
    assert_eq!(rx.read(tri(3), 0), Ok(Some(data)));
}

#[test]
fn gap_triggers_fast_retransmit() {
    let data: Vec<u8> = (1u8..=15).collect();
    let mut c = SendConnection::enqueue(tri(4), &data, 13, 20).unwrap();
    assert_eq!(c.on_ack(0), Ok(AckOutcome::DuplicatesFor(vec![])));
    assert_eq!(c.on_ack(2), Ok(AckOutcome::DuplicatesFor(vec![1])));
    assert_eq!(c.on_ack(1), Ok(AckOutcome::Complete));

    let mut tx = SendConnectionManager::new();
    tx.send(tri(4), &data, 13).unwrap();
    let mut rx = RecvConnectionManager::new();
    rx.stream(tri(4));
    let mut frames = Vec::new();
    for now in 0..3u64 {
        frames.extend(tx.tick(&Vec::new(), now));
    }
    assert_eq!(frames.len(), 3);
    let delivered: Vec<Transmission> = frames.into_iter().filter(|t| t.offset != 1).collect();
    let acks = deliver(&mut rx, &delivered);
    assert_eq!(acks, vec![(tri(4), 0), (tri(4), 2)]);
    let out = tx.tick(&acks, 5);
    assert_eq!(out.len(), 1);
    assert!(out[0].fast);
    assert_eq!(out[0].offset, 1);
    let acks = deliver(&mut rx, &out);
    tx.tick(&acks, 6);
    assert_eq!(tx.len(), 0);
    assert_eq!(rx.read(tri(4), 0), Ok(Some(data)));
}

#[test]
fn two_files_to_one_peer_alternate() {
    let mut tx = SendConnectionManager::new();
    tx.send(tri(7), &(0u8..15).collect(), 13).unwrap();
    tx.send(tri(8), &(20u8..35).collect(), 13).unwrap();
    let mut order = Vec::new();
    for now in 0..6u64 {
        let out = tx.tick(&Vec::new(), now);
        assert_eq!(out.len(), 1);
        order.push((out[0].tri.fileid, out[0].offset));
    }
    assert_eq!(order, vec![(7, 0), (8, 0), (7, 1), (8, 1), (7, 2), (8, 2)]);
}

#[test]
fn oversized_file_is_rejected() {
    let data = vec![1u8; 320 * 5 + 1];
    let mut tx = SendConnectionManager::new();
    assert_eq!(tx.send(tri(1), &data, 13), Err(TransferError::Offset));
    assert_eq!(tx.len(), 0);
    assert!(SendConnection::enqueue(tri(1), &data, 13, 20).is_err());
    let fits = vec![1u8; 320 * 5];
    assert_eq!(tx.send(tri(1), &fits, 13), Ok(()));
    assert_eq!(tx.len(), 1);
}

#[test]
fn exact_multiple_ends_with_full_data_end() {
    let data: Vec<u8> = (1u8..=15).collect();
    let mut c = SendConnection::enqueue(tri(2), &data, 13, 20).unwrap();
    assert_eq!(c.timeouts(0), vec![0u16, 1, 2]);
    let last = c.write(2, 0).unwrap();
    let p = EftPacket::from_raw(EthernetFrame::parse(&last).unwrap().payload).unwrap();
    assert_eq!(p.header.packet_type, EftType::DataEnd.code());
    assert_eq!(p.payload, vec![11u8, 12, 13, 14, 15]);
}

#[test]
fn empty_file_starts_no_transfer() {
    let mut tx = SendConnectionManager::new();
    assert_eq!(tx.send(tri(1), &Vec::new(), 13), Ok(()));
    assert_eq!(tx.len(), 0);
    assert!(tx.tick(&Vec::new(), 0).is_empty());
}

#[test]
fn single_fragment_completes_on_one_ack() {
    let mut c = SendConnection::enqueue(tri(5), &vec![9u8, 9], 13, 20).unwrap();
    let f = c.write(0, 0).unwrap();
    let p = EftPacket::from_raw(EthernetFrame::parse(&f).unwrap().payload).unwrap();
    assert_eq!(p.header.packet_type, EftType::DataEnd.code());
    assert_eq!(c.on_ack(0), Ok(AckOutcome::Complete));
}

#[test]
fn duplicate_ack_changes_nothing() {
    let data: Vec<u8> = (0u8..10).collect();
    let mut c = SendConnection::enqueue(tri(6), &data, 13, 20).unwrap();
    assert_eq!(c.on_ack(1), Ok(AckOutcome::DuplicatesFor(vec![0])));
    assert_eq!(c.on_ack(1), Ok(AckOutcome::Idle));
    assert_eq!(c.on_ack(2), Err(TransferError::Offset));
    let mut tx = SendConnectionManager::new();
    tx.send(tri(6), &data, 13).unwrap();
    assert_eq!(tx.on_ack(tri(6), 1), Some(AckOutcome::DuplicatesFor(vec![0])));
    assert_eq!(tx.on_ack(tri(6), 1), Some(AckOutcome::Idle));
    assert!(tx.contains(tri(6)));
    assert_eq!(tx.on_ack(tri(9), 0), None);
    assert_eq!(tx.on_ack(tri(6), 0), Some(AckOutcome::Complete));
    assert!(!tx.contains(tri(6)));
}

#[test]
fn acked_fragment_is_not_written_or_timed_out() {
    let data: Vec<u8> = (0u8..10).collect();
    let mut c = SendConnection::enqueue(tri(6), &data, 13, 20).unwrap();
    c.on_ack(0).unwrap();
    assert_eq!(c.write(0, 0), None);
    assert_eq!(c.write(5, 0), None);
    assert_eq!(c.timeouts(0), vec![1u16]);
    assert!(c.write(1, 50).is_some());
    assert!(c.timeouts(70).is_empty());
    assert_eq!(c.timeouts(71), vec![1u16]);
}

#[test]
fn one_frame_per_peer_and_queue_per_tick() {
    let other = Tri { src: SENDER, dst: MacAddress(0x02, 0, 0, 0, 0, 0x03), fileid: 7 };
    let mut tx = SendConnectionManager::new();
    let data: Vec<u8> = (1u8..=25).collect();
    tx.send(tri(7), &data, 13).unwrap();
    tx.send(tri(8), &data, 13).unwrap();
    tx.send(other, &data, 13).unwrap();
    let out = tx.tick(&Vec::new(), 0);
    assert_eq!(out.len(), 2);
    assert_ne!(out[0].tri.dst, out[1].tri.dst);
    // offsets 0 of both files to the first peer are acknowledged out of order
    let out = tx.tick(&vec![(tri(7), 3), (tri(8), 2)], 1);
    let fast: Vec<&Transmission> = out.iter().filter(|t| t.fast).collect();
    assert_eq!(fast.len(), 1);
    assert_eq!(out.iter().filter(|t| !t.fast && t.tri.dst == RECEIVER).count(), 1);
    assert_eq!(out.len(), 3);
}

#[test]
fn receiver_acks_duplicates_and_drops_strangers() {
    let mut rx = RecvConnectionManager::new();
    rx.stream(tri(1));
    let mut c = SendConnection::enqueue(tri(1), &vec![1u8, 2, 3], 13, 20).unwrap();
    let f = c.write(0, 0).unwrap();
    let a = rx.on_frame(&f, 0);
    assert!(a.completed);
    assert_eq!(parse_ack(&a.ack.unwrap()), Some((tri(1), 0)));
    let again = rx.on_frame(&f, 0);
    assert!(!again.completed);
    assert_eq!(parse_ack(&again.ack.unwrap()), Some((tri(1), 0)));
    assert_eq!(rx.read(tri(1), 0), Ok(Some(vec![1u8, 2, 3])));
    // read to the end: late copies are still acknowledged
    let late = rx.on_frame(&f, 0);
    assert!(late.ack.is_some());
    assert_eq!(rx.read(tri(1), 0), Err(TransferError::StreamTerminated));
    // a file nobody waits for, and a frame of another protocol
    let mut c2 = SendConnection::enqueue(tri(2), &vec![1u8], 13, 20).unwrap();
    assert!(rx.on_frame(&c2.write(0, 0).unwrap(), 0).ack.is_none());
    let foreign = EthernetFrame::encode(RECEIVER, SENDER, 0x0800, &vec![1, 8, 9, 0, 1, 0, 0, 0, 5]);
    assert!(rx.on_frame(&foreign, 0).ack.is_none());
    assert_eq!(parse_ack(&foreign), None);
}

#[test]
fn read_waits_for_every_fragment() {
    let data: Vec<u8> = (1u8..=12).collect();
    let mut rx = RecvConnectionManager::new();
    rx.stream(tri(2));
    let mut c = SendConnection::enqueue(tri(2), &data, 13, 20).unwrap();
    assert_eq!(rx.read(tri(2), 0), Ok(None));
    for off in [2u16, 0] {
        assert!(!rx.on_frame(&c.write(off, 0).unwrap(), 0).completed);
    }
    assert_eq!(rx.read(tri(2), 0), Ok(None));
    assert!(rx.on_frame(&c.write(1, 0).unwrap(), 0).completed);
    assert_eq!(rx.read(tri(2), 0), Ok(Some(data)));
}

#[test]
fn receiver_offset_error() {
    let mut r = RecvConnection::new();
    assert_eq!(r.on_data(320, 0, &vec![1]), Err(TransferError::Offset));
    assert_eq!(r.on_data(0, 1, &vec![]), Ok(true));
    assert_eq!(r.assemble(), Some(vec![]));
}

#[test]
fn late_frames_are_acknowledged_for_a_while() {
    let mut rx = RecvConnectionManager::new();
    rx.stream(tri(1));
    rx.stream(tri(2));
    let mut c1 = SendConnection::enqueue(tri(1), &vec![1u8], 13, 20).unwrap();
    let mut c2 = SendConnection::enqueue(tri(2), &vec![2u8], 13, 20).unwrap();
    let f1 = c1.write(0, 0).unwrap();
    let f2 = c2.write(0, 0).unwrap();
    assert!(rx.on_frame(&f1, 0).completed);
    assert!(rx.on_frame(&f2, 0).completed);
    assert_eq!(rx.read(tri(1), 1000), Ok(Some(vec![1u8])));
    assert!(rx.on_frame(&f1, 6000).ack.is_some());
    assert!(rx.on_frame(&f1, 6001).ack.is_none());
    // reading another file later forgets the first one
    assert_eq!(rx.read(tri(2), 7000), Ok(Some(vec![2u8])));
    assert!(rx.on_frame(&f1, 900).ack.is_none());
    assert!(rx.on_frame(&f2, 7001).ack.is_some());
}

#[test]
fn failed_send_keeps_the_old_timer() {
    let mut tx = SendConnectionManager::new();
    tx.send(tri(5), &vec![1u8, 2, 3], 13).unwrap();
    let out = tx.tick(&Vec::new(), 100);
    assert_eq!(out.len(), 1);
    assert_eq!(out[0].previous, None);
    // the link refused the frame: the fragment is due again at once
    tx.on_transmit_failed(&out[0]);
    let again = tx.tick(&Vec::new(), 101);
    assert_eq!(again.len(), 1);
    assert_eq!(again[0].offset, 0);
    assert_eq!(again[0].previous, None);
    // this one left: nothing is due before the timeout
    assert!(tx.tick(&Vec::new(), 102).is_empty());
    let late = tx.tick(&Vec::new(), 122);
    assert_eq!(late.len(), 1);
    assert_eq!(late[0].previous, Some(101));
}

#[test]
fn stale_entries_are_skipped_in_order() {
    // file 7 is acknowledged by the time its queued retransmission comes up
    let mut tx = SendConnectionManager::new();
    tx.send(tri(7), &vec![1u8; 5], 13).unwrap();
    tx.send(tri(8), &vec![2u8; 5], 13).unwrap();
    let out = tx.tick(&Vec::new(), 0);
    assert_eq!(out.len(), 1);
    assert_eq!(out[0].tri.fileid, 7);
    let out = tx.tick(&vec![(tri(7), 0)], 1);
    assert_eq!(out.len(), 1);
    assert_eq!(out[0].tri.fileid, 8);
    assert!(!tx.contains(tri(7)));
}
