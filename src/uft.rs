//! The single-file protocol: one file at a time between two known
//! addresses. The receiver remembers the files it returned and keeps
//! acknowledging their late frames; the sender retransmits every
//! unacknowledged fragment once its timer runs out, with a timeout adapted
//! to the last round trip.
use vstd::prelude::*;

pub mod packet;

use crate::codec::header_seq;
use crate::eft::connection::{recorded, RecvConnection};
use crate::frame::{ether_type_of, frame_seq, mac_at, EthernetFrame, MacAddress, ETHERNET_HEADER_LENGTH};
use crate::general::{MAX_OFFSET_LENGTH, UFT_ETHER_TYPE, UFT_HEADER_LENGTH};
use crate::uft::packet::{uft_decode, UftPacket, UftPacketHeader, UftType};
use crate::error::TransferError;
use crate::utils::{fragments, rstrip_null, split_fragments, strip_nul, views, Flags};

verus! {

/// The link payload of frame `f` when it is of this protocol and goes from
/// `from` to `to`.
pub open spec fn uft_payload(f: Seq<u8>, from: MacAddress, to: MacAddress) -> Option<Seq<u8>> {
    if f.len() < ETHERNET_HEADER_LENGTH || ether_type_of(f) != UFT_ETHER_TYPE || mac_at(f, 6) != from
        || mac_at(f, 0) != to {
        None
    } else {
        Some(f.skip(ETHERNET_HEADER_LENGTH as int))
    }
}

/// The data packet of frame `f` from `from` to `to`: trailing NUL padding
/// is removed before decoding.
pub open spec fn uft_data_packet(f: Seq<u8>, from: MacAddress, to: MacAddress) -> Option<
    (UftPacketHeader, Seq<u8>),
> {
    match uft_payload(f, from, to) {
        Some(s) => match uft_decode(strip_nul(s)) {
            Ok(x) => Some(x),
            Err(_) => None,
        },
        None => None,
    }
}

/// The frame acknowledging fragment `offset` of file `id`, from `me` to
/// `peer`.
pub open spec fn uft_ack_frame(me: MacAddress, peer: MacAddress, id: u16, offset: u16) -> Seq<u8> {
    frame_seq(
        peer,
        me,
        UFT_ETHER_TYPE,
        header_seq(UftType::Ack.spec_code(), UFT_HEADER_LENGTH as u8, UFT_HEADER_LENGTH as u16, id, offset),
    )
}

/// The link payload of a frame of this protocol from `from` to `to`.
fn read_uft_frame(frame: &Vec<u8>, from: MacAddress, to: MacAddress) -> (r: Option<Vec<u8>>)
    ensures
        match uft_payload(frame@, from, to) {
            Some(s) => r matches Some(v) && v@ == s,
            None => r is None,
        },
{
    let f = match EthernetFrame::parse(frame.as_slice()) {
        Some(f) => f,
        None => {
            return None;
        },
    };
    proof {
        assert(frame@.subrange(12, 14) =~= crate::frame::be16(f.ether_type));
        assert(frame@.skip(ETHERNET_HEADER_LENGTH as int) =~= f.payload@);
        assert(mac_at(frame@, 0) == f.destination);
        assert(mac_at(frame@, 6) == f.source);
    }
    if f.ether_type != UFT_ETHER_TYPE || f.source != from || f.destination != to {
        return None;
    }
    Some(f.payload)
}

/// The acknowledgement of fragment `offset` of file `id`, from `me` to
/// `peer`.
fn build_uft_ack(me: MacAddress, peer: MacAddress, id: u16, offset: u16) -> (r: Vec<u8>)
    ensures
        r@ == uft_ack_frame(me, peer, id, offset),
{
    let packet = UftPacket {
        header: UftPacketHeader {
            uft_type: UftType::Ack.code(),
            length: UFT_HEADER_LENGTH as u8,
            total_length: UFT_HEADER_LENGTH as u16,
            id,
            offset,
        },
        payload: Vec::new(),
    };
    let raw = packet.raw();
    proof {
        assert(raw@ =~= header_seq(UftType::Ack.spec_code(), UFT_HEADER_LENGTH as u8, UFT_HEADER_LENGTH as u16, id, offset));
    }
    EthernetFrame::encode(peer, me, UFT_ETHER_TYPE, &raw)
}

/// `after` is `before` once file `id` went from receiver `c` (the stored
/// one, or a fresh one for a new file) to `c2`: a completed file leaves the
/// files being received, another is stored.
pub open spec fn placed(before: Uft, after: Uft, id: u16, c: RecvConnection, c2: RecvConnection) -> bool {
    ||| exists|i: int|
        0 <= i < before.ids().len() && before.ids()[i] == id && c == before.files()[i] && (if c2.complete() {
            after.ids() == before.ids().remove(i) && after.files() == before.files().remove(i)
        } else {
            after.ids() == before.ids() && after.files() == before.files().update(i, c2)
        })
    ||| !before.ids().contains(id) && c.is_fresh() && (if c2.complete() {
        after.ids() == before.ids() && after.files() == before.files()
    } else {
        after.ids() == before.ids().push(id) && after.files() == before.files().push(c2)
    })
}

/// A file completed by `c2` comes back, bytes of offsets `0..L` in order,
/// and `id` joins the files returned; otherwise nothing comes back.
pub open spec fn returned(before: Uft, after: Uft, id: u16, c2: RecvConnection, file: Option<Vec<u8>>) -> bool {
    if c2.complete() {
        (file matches Some(v) && v@ == c2.payloads().take(c2.count() as int).flatten()) && after.done()
            == before.done().push(id)
    } else {
        file is None && after.done() == before.done()
    }
}

/// What the receiver does about one frame.
pub struct UftReceipt {
    /// The acknowledgement to send back, if any.
    pub ack: Option<Vec<u8>>,
    /// The file that the frame completed, if any.
    pub file: Option<Vec<u8>>,
}

/// What `receive_from` does with `frame` from `src`: see there.
#[verifier::opaque]
pub open spec fn received(before: Uft, after: Uft, src_address: MacAddress, frame: Seq<u8>, r: UftReceipt) -> bool {
    match uft_data_packet(frame, src_address, before.spec_address()) {
        None => r.ack is None && r.file is None && after.same_as(before),
        Some((h, p)) => if h.uft_type == UftType::Ack.spec_code() || h.offset
            >= MAX_OFFSET_LENGTH {
            r.ack is None && r.file is None && after.same_as(before)
        } else if before.done().contains(h.id) {
            (r.ack matches Some(a) && a@ == uft_ack_frame(
                before.spec_address(),
                src_address,
                h.id,
                h.offset,
            )) && r.file is None && after.same_as(before)
        } else {
            &&& r.ack matches Some(a) && a@ == uft_ack_frame(
                before.spec_address(),
                src_address,
                h.id,
                h.offset,
            )
            &&& exists|c: RecvConnection, c2: RecvConnection|
                #[trigger] recorded(c, c2, h.offset, h.uft_type, p) && placed(
                    before,
                    after,
                    h.id,
                    c,
                    c2,
                ) && returned(before, after, h.id, c2, r.file)
        }
    }
}

/// One endpoint of the single-file protocol.
pub struct Uft {
    address: MacAddress,
    mtu: usize,
    rto: u64,
    received_files_flag: Vec<u16>,
    ids: Vec<u16>,
    files: Vec<RecvConnection>,
}

impl Uft {
    /// The endpoint's own address.
    pub closed spec fn spec_address(&self) -> MacAddress {
        self.address
    }

    /// The frame size the sender cuts files for.
    pub closed spec fn spec_mtu(&self) -> usize {
        self.mtu
    }

    /// The retransmit timeout a new transfer starts with.
    pub closed spec fn spec_rto(&self) -> u64 {
        self.rto
    }

    /// The files returned so far.
    pub closed spec fn done(&self) -> Seq<u16> {
        self.received_files_flag@
    }

    /// The files being received.
    pub closed spec fn ids(&self) -> Seq<u16> {
        self.ids@
    }

    /// The receiver of each file being received.
    pub closed spec fn files(&self) -> Seq<RecvConnection> {
        self.files@
    }

    /// The state invariant: one receiver per file id, ids unique.
    pub open spec fn wf(&self) -> bool {
        &&& self.ids().len() == self.files().len()
        &&& forall|i: int| 0 <= i < self.files().len() ==> (#[trigger] self.files()[i]).wf()
        &&& forall|i: int, j: int| 0 <= i < j < self.ids().len() ==> self.ids()[i] != self.ids()[j]
    }

    /// `self` holds the same files as `other`.
    pub open spec fn same_as(&self, other: Self) -> bool {
        &&& self.spec_address() == other.spec_address()
        &&& self.done() == other.done()
        &&& self.ids() == other.ids()
        &&& self.files() == other.files()
    }

    /// An endpoint with address `address` that sends with frames of `mtu`
    /// bytes; nothing received yet.
    pub fn new(mtu: usize, address: MacAddress) -> (r: Self)
        ensures
            r.wf(),
            r.spec_address() == address,
            r.spec_mtu() == mtu,
            r.spec_rto() == 10,
            r.done().len() == 0,
            r.ids().len() == 0,
    {
        Uft {
            address,
            mtu,
            rto: 10,
            received_files_flag: Vec::new(),
            ids: Vec::new(),
            files: Vec::new(),
        }
    }

    /// The endpoint's own address.
    pub fn address(&self) -> (r: MacAddress)
        ensures
            r == self.spec_address(),
    {
        self.address
    }

    fn is_done(&self, id: u16) -> (r: bool)
        ensures
            r == self.done().contains(id),
    {
        let mut i: usize = 0;
        while i < self.received_files_flag.len()
            invariant
                i <= self.done().len(),
                forall|j: int| 0 <= j < i ==> self.done()[j] != id,
            decreases self.done().len() - i,
        {
            if self.received_files_flag[i] == id {
                proof {
                    assert(self.done()[i as int] == id);
                }
                return true;
            }
            i = i + 1;
        }
        false
    }

    /// Starts sending `data` to `dst_address` as file `id`, cut for this
    /// endpoint's mtu; nothing is acknowledged and every fragment is due.
    /// Fails with `Offset` when the file has more than `MAX_OFFSET_LENGTH`
    /// fragments.
    pub fn send(&self, data: &Vec<u8>, dst_address: MacAddress, id: u16) -> (r: Result<UftSend, TransferError>)
        requires
            UFT_HEADER_LENGTH < self.spec_mtu() <= u16::MAX,
        ensures
            fragments(data@, (self.spec_mtu() - UFT_HEADER_LENGTH) as nat).len() > MAX_OFFSET_LENGTH
                ==> r == Err::<UftSend, _>(TransferError::Offset),
            fragments(data@, (self.spec_mtu() - UFT_HEADER_LENGTH) as nat).len() <= MAX_OFFSET_LENGTH
                ==> (r matches Ok(s) && {
                &&& s.wf()
                &&& s.spec_address() == self.spec_address()
                &&& s.spec_dst() == dst_address
                &&& s.spec_id() == id
                &&& s.fragments() == fragments(data@, (self.spec_mtu() - UFT_HEADER_LENGTH) as nat)
                &&& s.acked() == Set::<int>::empty()
                &&& s.spec_rto() == self.spec_rto()
                &&& forall|o: int| 0 <= o < s.fragments().len() ==> (#[trigger] s.timers()[o]) is None
            }),
    {
        let data_fragments = split_fragments(data, self.mtu);
        let mut flags = Flags::new();
        if flags.set_length(data_fragments.len()).is_err() {
            return Err(TransferError::Offset);
        }
        let mut timeouts: Vec<Option<u64>> = Vec::new();
        let mut i: usize = 0;
        while i < data_fragments.len()
            invariant
                i <= data_fragments@.len(),
                timeouts@.len() == i,
                forall|j: int| 0 <= j < i ==> (#[trigger] timeouts@[j]) is None,
            decreases data_fragments@.len() - i,
        {
            timeouts.push(None);
            i = i + 1;
        }
        proof {
            crate::utils::lemma_fragment_sizes(data@, (self.mtu - UFT_HEADER_LENGTH) as nat);
            assert forall|j: int| 0 <= j < data_fragments@.len() implies #[trigger] data_fragments@[j]@.len()
                + UFT_HEADER_LENGTH <= u16::MAX by {
                assert(views(data_fragments@)[j] == data_fragments@[j]@);
            }
        }
        Ok(UftSend {
            address: self.address,
            dst_address,
            id,
            data_fragments,
            flags,
            timeouts,
            rto: self.rto,
        })
    }

    fn record_at(&mut self, i: usize, offset: u16, t: u8, data: &Vec<u8>)
        requires
            old(self).wf(),
            i < old(self).files().len(),
            offset < MAX_OFFSET_LENGTH,
        ensures
            final(self).spec_address() == old(self).spec_address(),
            final(self).spec_mtu() == old(self).spec_mtu(),
            final(self).spec_rto() == old(self).spec_rto(),
            final(self).done() == old(self).done(),
            final(self).ids() == old(self).ids(),
            final(self).files() == old(self).files().update(i as int, final(self).files()[i as int]),
            final(self).files()[i as int].wf(),
            recorded(old(self).files()[i as int], final(self).files()[i as int], offset, t, data@),
    {
        let _ = self.files[i].on_data(offset, t, data);
    }

    fn find(&self, id: u16) -> (r: Option<usize>)
        ensures
            r matches Some(i) ==> i < self.ids().len() && self.ids()[i as int] == id,
            r is None ==> !self.ids().contains(id),
    {
        let mut i: usize = 0;
        while i < self.ids.len()
            invariant
                i <= self.ids().len(),
                forall|j: int| 0 <= j < i ==> self.ids()[j] != id,
            decreases self.ids().len() - i,
        {
            if self.ids[i] == id {
                return Some(i);
            }
            i = i + 1;
        }
        None
    }

    /// Handles one frame received from `src_address`. A data fragment of a
    /// file already returned is acknowledged and nothing else. Any other
    /// data fragment is recorded in its file (see
    /// `RecvConnection::on_data`) and acknowledged; when that completes the
    /// file, its bytes come back and the file is remembered as returned.
    /// Frames of other protocols or addresses, acknowledgements, frames
    /// that do not decode and offsets beyond `MAX_OFFSET_LENGTH` are
    /// dropped.
    pub fn receive_from(&mut self, src_address: MacAddress, frame: &Vec<u8>) -> (r: UftReceipt)
        requires
            old(self).wf(),
        ensures
            final(self).wf(),
            final(self).spec_address() == old(self).spec_address(),
            final(self).spec_mtu() == old(self).spec_mtu(),
            final(self).spec_rto() == old(self).spec_rto(),
            received(*old(self), *final(self), src_address, frame@, r),
    {
        let nothing = UftReceipt { ack: None, file: None };
        let mut payload = match read_uft_frame(frame, src_address, self.address) {
            Some(p) => p,
            None => {
                assert(received(*old(self), *self, src_address, frame@, nothing)) by {
                    reveal(received);
                }
                return nothing;
            },
        };
        rstrip_null(&mut payload);
        let packet = match UftPacket::from_raw(payload.as_slice()) {
            Ok(p) => p,
            Err(_) => {
                assert(received(*old(self), *self, src_address, frame@, nothing)) by {
                    reveal(received);
                }
                return nothing;
            },
        };
        let h = packet.header;
        if h.uft_type == UftType::Ack.code() || h.offset as usize >= MAX_OFFSET_LENGTH {
            assert(received(*old(self), *self, src_address, frame@, nothing)) by {
                reveal(received);
            }
            return nothing;
        }
        let ack = build_uft_ack(self.address, src_address, h.id, h.offset);
        if self.is_done(h.id) {
            let r = UftReceipt { ack: Some(ack), file: None };
            assert(received(*old(self), *self, src_address, frame@, r)) by {
                reveal(received);
            }
            return r;
        }
        let ghost old_ids = self.ids();
        let ghost old_files = self.files();
        let ghost before = *self;
        let found = self.find(h.id);
        let i: usize = match found {
            Some(i) => i,
            None => {
                self.ids.push(h.id);
                self.files.push(RecvConnection::new());
                proof {
                    assert forall|a: int, b: int| 0 <= a < b < self.ids().len() implies self.ids()[a]
                        != self.ids()[b] by {
                        if b == old_ids.len() {
                            assert(old_ids[a] != h.id);
                        }
                    }
                    assert forall|a: int| 0 <= a < self.files().len() implies (#[trigger] self.files()[a]).wf() by {
                        if a < old_files.len() {
                            assert(self.files()[a] == old_files[a]);
                        }
                    }
                }
                self.ids.len() - 1
            },
        };
        let ghost c = self.files()[i as int];
        proof {
            if found is None {
                assert(c.is_fresh());
            }
        }
        let ghost mid_files = self.files();
        self.record_at(i, h.offset, h.uft_type, &packet.payload);
        let ghost c2 = self.files()[i as int];
        proof {
            assert(recorded(c, c2, h.offset, h.uft_type, packet.payload@));
            assert(self.files() == mid_files.update(i as int, c2));
            assert forall|a: int| 0 <= a < self.files().len() implies (#[trigger] self.files()[a]).wf() by {
                if a != i {
                    assert(self.files()[a] == mid_files[a]);
                }
            }
        }
        match self.files[i].assemble() {
            Some(v) => {
                let ghost ids1 = self.ids();
                let ghost files1 = self.files();
                self.ids.remove(i);
                self.files.remove(i);
                self.received_files_flag.push(h.id);
                proof {
                    assert forall|a: int| 0 <= a < self.files().len() implies (#[trigger] self.files()[a]).wf() by {
                        if a < i {
                            assert(self.files()[a] == files1[a]);
                        } else {
                            assert(self.files()[a] == files1[a + 1]);
                        }
                    }
                    assert forall|a: int, b: int| 0 <= a < b < self.ids().len() implies self.ids()[a]
                        != self.ids()[b] by {
                        let a2 = if a < i { a } else { a + 1 };
                        let b2 = if b < i { b } else { b + 1 };
                        assert(self.ids()[a] == ids1[a2]);
                        assert(self.ids()[b] == ids1[b2]);
                    }
                    if found is None {
                        assert(self.ids() =~= old_ids);
                        assert(self.files() =~= old_files);
                    } else {
                        assert(self.ids() == old_ids.remove(i as int));
                        assert(self.files() =~= old_files.remove(i as int));
                        assert(old_ids[i as int] == h.id && c == old_files[i as int]);
                    }
                    assert(placed(before, *self, h.id, c, c2));
                }
                let r = UftReceipt { ack: Some(ack), file: Some(v) };
                proof {
                    let gp = uft_data_packet(frame@, src_address, before.spec_address()).unwrap().1;
                    assert(recorded(c, c2, h.offset, h.uft_type, gp));
                    assert(returned(before, *self, h.id, c2, r.file));
                    assert(received(before, *self, src_address, frame@, r)) by {
                        reveal(received);
                    }
                }
                r
            },
            None => {
                proof {
                    if found is None {
                        assert(self.files() =~= old_files.push(c2));
                    } else {
                        assert(self.files() =~= old_files.update(i as int, c2));
                        assert(old_ids[i as int] == h.id && c == old_files[i as int]);
                    }
                    assert(placed(before, *self, h.id, c, c2));
                }
                let r = UftReceipt { ack: Some(ack), file: None };
                proof {
                    let gp = uft_data_packet(frame@, src_address, before.spec_address()).unwrap().1;
                    assert(recorded(c, c2, h.offset, h.uft_type, gp));
                    assert(returned(before, *self, h.id, c2, r.file));
                    assert(received(before, *self, src_address, frame@, r)) by {
                        reveal(received);
                    }
                }
                r
            },
        }
    }
}


/// `s` cut or padded with NUL bytes to the length of a header.
pub open spec fn fit_header(s: Seq<u8>) -> Seq<u8> {
    if s.len() >= UFT_HEADER_LENGTH {
        s.take(UFT_HEADER_LENGTH as int)
    } else {
        s + Seq::new((UFT_HEADER_LENGTH - s.len()) as nat, |i: int| 0u8)
    }
}

/// The acknowledgement in frame `f` from `from` to `to`: the link payload
/// is cut or padded to a header before decoding.
pub open spec fn uft_ack_packet(f: Seq<u8>, from: MacAddress, to: MacAddress) -> Option<UftPacketHeader> {
    match uft_payload(f, from, to) {
        Some(s) => match uft_decode(fit_header(s)) {
            Ok((h, _)) => if h.uft_type == UftType::Ack.spec_code() {
                Some(h)
            } else {
                None
            },
            Err(_) => None,
        },
        None => None,
    }
}

/// Cuts or pads `v` with NUL bytes to the length of a header.
fn fit_to_header(v: &mut Vec<u8>)
    ensures
        final(v)@ == fit_header(old(v)@),
{
    let ghost s = v@;
    while v.len() < UFT_HEADER_LENGTH
        invariant
            s.len() < UFT_HEADER_LENGTH ==> v@ == s + Seq::new((v@.len() - s.len()) as nat, |i: int| 0u8),
            s.len() < UFT_HEADER_LENGTH ==> v@.len() <= UFT_HEADER_LENGTH,
            s.len() >= UFT_HEADER_LENGTH ==> v@ == s,
        decreases UFT_HEADER_LENGTH - v@.len(),
    {
        v.push(0u8);
        assert(v@ =~= s + Seq::new((v@.len() - s.len()) as nat, |i: int| 0u8));
    }
    v.truncate(UFT_HEADER_LENGTH);
    assert(v@ =~= fit_header(s));
}

/// The next retransmit timeout after a round trip of `rtt`: a weighted
/// average, seven tenths the old timeout and three tenths the round trip.
pub open spec fn smoothed_rto(rto: u64, rtt: u64) -> u64 {
    ((7 * rto + 3 * rtt) / 10) as u64
}

proof fn lemma_smoothed_fits(rto: u64, rtt: u64)
    ensures
        (7 * rto + 3 * rtt) / 10 <= u64::MAX,
{
    assert((7 * rto + 3 * rtt) / 10 <= u64::MAX) by (nonlinear_arith)
        requires
            rto <= u64::MAX,
            rtt <= u64::MAX,
    ;
}

/// The sending side of one transfer of the single-file protocol.
pub struct UftSend {
    address: MacAddress,
    dst_address: MacAddress,
    id: u16,
    data_fragments: Vec<Vec<u8>>,
    flags: Flags,
    timeouts: Vec<Option<u64>>,
    rto: u64,
}

impl UftSend {
    /// The sender's address.
    pub closed spec fn spec_address(&self) -> MacAddress {
        self.address
    }

    /// The receiver's address.
    pub closed spec fn spec_dst(&self) -> MacAddress {
        self.dst_address
    }

    /// The file id.
    pub closed spec fn spec_id(&self) -> u16 {
        self.id
    }

    /// The payload of each fragment.
    pub closed spec fn fragments(&self) -> Seq<Seq<u8>> {
        views(self.data_fragments@)
    }

    /// The acknowledged offsets.
    pub closed spec fn acked(&self) -> Set<int> {
        self.flags.bits()
    }

    /// Every fragment is acknowledged.
    pub open spec fn finished(&self) -> bool {
        forall|o: int| 0 <= o < self.fragments().len() ==> #[trigger] self.acked().contains(o)
    }

    /// When each fragment was last sent.
    pub closed spec fn timers(&self) -> Seq<Option<u64>> {
        self.timeouts@
    }

    /// The retransmit timeout in milliseconds.
    pub closed spec fn spec_rto(&self) -> u64 {
        self.rto
    }

    /// The state invariant: a timer per fragment, at most
    /// `MAX_OFFSET_LENGTH` fragments, each short enough for one frame, and
    /// the length declared.
    pub closed spec fn wf(&self) -> bool {
        &&& self.timeouts@.len() == self.data_fragments@.len()
        &&& self.data_fragments@.len() <= MAX_OFFSET_LENGTH
        &&& self.flags.declared() == Some(self.data_fragments@.len())
        &&& forall|i: int|
            0 <= i < self.data_fragments@.len() ==> #[trigger] self.data_fragments@[i]@.len() + UFT_HEADER_LENGTH
                <= u16::MAX
    }

    /// Fragment `o` is due at `now`: unacknowledged, and never sent or
    /// sent at least `rto` milliseconds ago.
    pub open spec fn is_due(&self, o: int, now: u64) -> bool {
        !self.acked().contains(o) && match self.timers()[o] {
            None => true,
            Some(t) => now >= t + self.spec_rto(),
        }
    }

    /// The due offsets below `k`, ascending.
    pub open spec fn due_below(&self, now: u64, k: int) -> Seq<u16>
        decreases k,
    {
        if k <= 0 {
            Seq::empty()
        } else if self.is_due(k - 1, now) {
            self.due_below(now, k - 1).push((k - 1) as u16)
        } else {
            self.due_below(now, k - 1)
        }
    }

    /// The frame that carries fragment `o`.
    pub open spec fn frame_for(&self, o: int) -> Seq<u8> {
        let n = self.fragments().len();
        frame_seq(
            self.spec_dst(),
            self.spec_address(),
            UFT_ETHER_TYPE,
            header_seq(
                if o == n - 1 {
                    UftType::DataEnd.spec_code()
                } else {
                    UftType::Data.spec_code()
                },
                UFT_HEADER_LENGTH as u8,
                (self.fragments()[o].len() + UFT_HEADER_LENGTH) as u16,
                self.spec_id(),
                o as u16,
            ) + self.fragments()[o],
        )
    }

    /// Whether every fragment is acknowledged.
    pub fn is_done(&self) -> (r: bool)
        requires
            self.wf(),
        ensures
            r == self.finished(),
    {
        let r = self.flags.isallset();
        proof {
            assert(self.fragments().len() == self.data_fragments@.len());
            if r {
                assert forall|o: int| 0 <= o < self.fragments().len() implies #[trigger] self.acked().contains(o) by {
                    assert(self.flags.bits().contains(o));
                }
            } else {
                assert(!self.flags.all_set());
                let o = choose|o: int| 0 <= o < self.data_fragments@.len() && !self.flags.bits().contains(o);
                assert(!self.acked().contains(o));
            }
        }
        r
    }

    /// The frames of the fragments due at `now`, ascending by offset; each
    /// of them is stamped as sent at `now`.
    pub fn poll(&mut self, now: u64) -> (r: Vec<Vec<u8>>)
        requires
            old(self).wf(),
        ensures
            final(self).wf(),
            final(self).spec_address() == old(self).spec_address(),
            final(self).spec_dst() == old(self).spec_dst(),
            final(self).spec_id() == old(self).spec_id(),
            final(self).fragments() == old(self).fragments(),
            final(self).acked() == old(self).acked(),
            final(self).finished() == old(self).finished(),
            final(self).spec_rto() == old(self).spec_rto(),
            r@.len() == old(self).due_below(now, old(self).fragments().len() as int).len(),
            forall|j: int|
                0 <= j < r@.len() ==> (#[trigger] r@[j])@ == old(self).frame_for(
                    old(self).due_below(now, old(self).fragments().len() as int)[j] as int,
                ),
            forall|o: int|
                0 <= o < old(self).fragments().len() ==> #[trigger] final(self).timers()[o] == if old(self).is_due(o, now) {
                    Some(now)
                } else {
                    old(self).timers()[o]
                },
    {
        let ghost start = *self;
        let n = self.data_fragments.len();
        let mut out: Vec<Vec<u8>> = Vec::new();
        let mut offset: usize = 0;
        while offset < n
            invariant
                self.wf(),
                n == start.fragments().len(),
                offset <= n,
                start.wf(),
                self.address == start.spec_address(),
                self.dst_address == start.spec_dst(),
                self.id == start.spec_id(),
                self.data_fragments == start.data_fragments,
                self.flags == start.flags,
                self.rto == start.spec_rto(),
                out@.len() == start.due_below(now, offset as int).len(),
                forall|j: int|
                    0 <= j < out@.len() ==> (#[trigger] out@[j])@ == start.frame_for(
                        start.due_below(now, offset as int)[j] as int,
                    ),
                forall|o: int|
                    0 <= o < n ==> #[trigger] self.timers()[o] == if o < offset && start.is_due(o, now) {
                        Some(now)
                    } else {
                        start.timers()[o]
                    },
            decreases n - offset,
        {
            let acked = match self.flags.isset(offset) {
                Ok(b) => b,
                Err(_) => true,
            };
            let due = !acked && match self.timeouts[offset] {
                None => true,
                Some(t) => now >= t && now - t >= self.rto,
            };
            proof {
                assert(self.timers()[offset as int] == start.timers()[offset as int]);
                assert(due == start.is_due(offset as int, now));
            }
            if due {
                let payload = &self.data_fragments[offset];
                let uft_type = if offset == n - 1 {
                    UftType::DataEnd.code()
                } else {
                    UftType::Data.code()
                };
                let packet = UftPacket {
                    header: UftPacketHeader {
                        uft_type,
                        length: UFT_HEADER_LENGTH as u8,
                        total_length: (payload.len() + UFT_HEADER_LENGTH) as u16,
                        id: self.id,
                        offset: offset as u16,
                    },
                    payload: payload.clone(),
                };
                let raw = packet.raw();
                let frame = EthernetFrame::encode(self.dst_address, self.address, UFT_ETHER_TYPE, &raw);
                proof {
                    assert(packet.payload@ == start.fragments()[offset as int]);
                    assert(frame@ == start.frame_for(offset as int));
                }
                let ghost before = out@;
                out.push(frame);
                self.timeouts.set(offset, Some(now));
                proof {
                    assert(start.due_below(now, offset + 1) == start.due_below(now, offset as int).push(offset as u16));
                    assert forall|j: int| 0 <= j < out@.len() implies (#[trigger] out@[j])@ == start.frame_for(
                        start.due_below(now, offset + 1)[j] as int,
                    ) by {
                        if j < before.len() {
                            assert(out@[j] == before[j]);
                        }
                    }
                }
            }
            offset = offset + 1;
        }
        out
    }

    /// Takes in a frame that may acknowledge a fragment of this transfer:
    /// one from the receiver to the sender, of this protocol and file, and
    /// of an offset below `MAX_OFFSET_LENGTH`. Such an offset is marked, and
    /// when it is a fragment with a send time not after `now` the timeout
    /// moves toward the round trip `rtt`: `(7 * rto + 3 * rtt) / 10`. The
    /// result is whether the frame was such an acknowledgement.
    pub fn receive_ack(&mut self, frame: &Vec<u8>, now: u64) -> (r: bool)
        requires
            old(self).wf(),
        ensures
            final(self).wf(),
            final(self).spec_address() == old(self).spec_address(),
            final(self).spec_dst() == old(self).spec_dst(),
            final(self).spec_id() == old(self).spec_id(),
            final(self).fragments() == old(self).fragments(),
            final(self).timers() == old(self).timers(),
            match uft_ack_packet(frame@, old(self).spec_dst(), old(self).spec_address()) {
                Some(h) => if h.id == old(self).spec_id() && h.offset < MAX_OFFSET_LENGTH {
                    &&& r
                    &&& final(self).acked() == old(self).acked().insert(h.offset as int)
                    &&& final(self).spec_rto() == match (if h.offset < old(self).fragments().len() {
                        old(self).timers()[h.offset as int]
                    } else {
                        None
                    }) {
                        Some(t) => if now >= t {
                            smoothed_rto(old(self).spec_rto(), (now - t) as u64)
                        } else {
                            old(self).spec_rto()
                        },
                        None => old(self).spec_rto(),
                    }
                } else {
                    !r && final(self).acked() == old(self).acked() && final(self).spec_rto() == old(self).spec_rto()
                },
                None => !r && final(self).acked() == old(self).acked() && final(self).spec_rto() == old(self).spec_rto(),
            },
    {
        let mut payload = match read_uft_frame(frame, self.dst_address, self.address) {
            Some(p) => p,
            None => {
                return false;
            },
        };
        fit_to_header(&mut payload);
        let packet = match UftPacket::from_raw(payload.as_slice()) {
            Ok(p) => p,
            Err(_) => {
                return false;
            },
        };
        let h = packet.header;
        if h.uft_type != UftType::Ack.code() || h.id != self.id || h.offset as usize >= MAX_OFFSET_LENGTH {
            return false;
        }
        let _ = self.flags.set(h.offset as usize);
        if (h.offset as usize) < self.timeouts.len() {
            if let Some(t) = self.timeouts[h.offset as usize] {
                if now >= t {
                    let rtt = now - t;
                    let next: u128 = (7 * (self.rto as u128) + 3 * (rtt as u128)) / 10;
                    proof {
                        lemma_smoothed_fits(self.rto, rtt);
                    }
                    self.rto = next as u64;
                }
            }
        }
        true
    }
}

} // verus!
