//! Per-file state of one transfer: the sender's fragment buffer, ack bitset
//! and retransmit timers; the receiver's reassembly buffer.
use vstd::prelude::*;
use vstd::set_lib::*;

use crate::eft::packet::{encode, EftPacket, EftPacketHeader, EftType};
use crate::error::TransferError;
use crate::frame::{frame_seq, EthernetFrame, MacAddress};
use crate::general::{EFT_ETHER_TYPE, EFT_HEADER_LENGTH, MAX_OFFSET_LENGTH};
use crate::utils::{concat_prefix, fragments, split_fragments, views, Flags};

verus! {

/// The key of one transfer: sender address, receiver address, file id.
#[derive(Clone, Copy, Debug, PartialEq, Eq, Structural, Hash)]
pub struct Tri {
    pub src: MacAddress,
    pub dst: MacAddress,
    pub fileid: u16,
}

/// The two ends of a link, whatever file travels on it.
#[derive(Clone, Copy, Debug, PartialEq, Eq, Structural, Hash)]
pub struct EndPoint {
    pub src: MacAddress,
    pub dst: MacAddress,
}

impl Tri {
    /// The two ends of the transfer.
    pub open spec fn spec_endpoint(self) -> EndPoint {
        EndPoint { src: self.src, dst: self.dst }
    }

    /// The two ends of the transfer.
    #[verifier::when_used_as_spec(spec_endpoint)]
    pub fn endpoint(self) -> (r: EndPoint)
        ensures
            r == self.spec_endpoint(),
    {
        EndPoint { src: self.src, dst: self.dst }
    }
}

/// The packet that carries fragment `i` of the file with id `id`, cut into
/// the pieces `frags`: the last one is a `DataEnd`, the others `Data`.
pub open spec fn fragment_header(id: u16, frags: Seq<Seq<u8>>, i: int) -> EftPacketHeader {
    EftPacketHeader {
        packet_type: if i == frags.len() - 1 {
            EftType::DataEnd.spec_code()
        } else {
            EftType::Data.spec_code()
        },
        length: EFT_HEADER_LENGTH as u8,
        total_length: (frags[i].len() + EFT_HEADER_LENGTH) as u16,
        id,
        offset: i as u16,
    }
}

/// Builds the packets of a file: one per piece of `mtu - 8` bytes.
pub fn make_packets(id: u16, data: &Vec<u8>, mtu: usize) -> (r: Vec<EftPacket>)
    requires
        EFT_HEADER_LENGTH < mtu <= u16::MAX,
    ensures
        r@.len() == fragments(data@, (mtu - EFT_HEADER_LENGTH) as nat).len(),
        forall|i: int|
            0 <= i < r@.len() ==> (#[trigger] r@[i]).header == fragment_header(
                id,
                fragments(data@, (mtu - EFT_HEADER_LENGTH) as nat),
                i,
            ) && r@[i].payload@ == fragments(data@, (mtu - EFT_HEADER_LENGTH) as nat)[i],
{
    let ghost size = (mtu - EFT_HEADER_LENGTH) as nat;
    let mut pieces = split_fragments(data, mtu);
    let ghost frags = views(pieces@);
    proof {
        crate::utils::lemma_fragment_sizes(data@, size);
    }
    let n = pieces.len();
    let mut r: Vec<EftPacket> = Vec::new();
    let mut i: usize = 0;
    while i < n
        invariant
            i <= n,
            n == frags.len(),
            frags == fragments(data@, size),
            size == mtu - EFT_HEADER_LENGTH,
            mtu <= u16::MAX,
            pieces@.len() == n,
            forall|j: int| i <= j < n ==> #[trigger] pieces@[j]@ == frags[j],
            forall|j: int| 0 <= j < n ==> 0 < #[trigger] frags[j].len() <= size,
            r@.len() == i,
            forall|j: int|
                0 <= j < i ==> (#[trigger] r@[j]).header == fragment_header(id, frags, j)
                    && r@[j].payload@ == frags[j],
        decreases n - i,
    {
        let mut payload: Vec<u8> = Vec::new();
        std::mem::swap(&mut payload, &mut pieces[i]);
        assert(payload@ == frags[i as int]);
        let packet_type = if i == n - 1 {
            EftType::DataEnd.code()
        } else {
            EftType::Data.code()
        };
        let header = EftPacketHeader {
            packet_type,
            length: EFT_HEADER_LENGTH as u8,
            total_length: (payload.len() + EFT_HEADER_LENGTH) as u16,
            id,
            offset: i as u16,
        };
        r.push(EftPacket { header, payload });
        i = i + 1;
    }
    r
}

/// Sender state of one file.
pub struct SendConnection {
    tri: Tri,
    buffer: Vec<EftPacket>,
    flag4buffer: Flags,
    send_timers: Vec<Option<u64>>,
    rto: u64,
    cnt: usize,
}

/// What an acknowledgement did to a sender.
#[derive(Clone, Debug, PartialEq, Eq)]
pub enum AckOutcome {
    /// The offset was acknowledged before: nothing changed.
    Idle,
    /// The offset is newly acknowledged; the offsets below it that are still
    /// unacknowledged are due for fast retransmission, in ascending order.
    DuplicatesFor(Vec<u16>),
    /// Every fragment is now acknowledged.
    Complete,
}

/// The offsets below `k` that `acked` lacks, in ascending order.
pub open spec fn missing_below(acked: Set<int>, k: int) -> Seq<u16>
    decreases k,
{
    if k <= 0 {
        Seq::empty()
    } else if acked.contains(k - 1) {
        missing_below(acked, k - 1)
    } else {
        missing_below(acked, k - 1).push((k - 1) as u16)
    }
}

/// A fragment last sent at `timer` (never, if `None`) is due again at `now`.
pub open spec fn is_expired(timer: Option<u64>, now: u64, rto: u64) -> bool {
    match timer {
        None => true,
        Some(t) => now - t > rto,
    }
}

impl SendConnection {
    /// The key of the transfer.
    pub closed spec fn key(&self) -> Tri {
        self.tri
    }

    /// The key of the transfer.
    pub fn tri(&self) -> (r: Tri)
        ensures
            r == self.key(),
    {
        self.tri
    }

    /// Number of fragments.
    pub closed spec fn n(&self) -> nat {
        self.buffer@.len()
    }

    /// The acknowledged offsets.
    pub closed spec fn acked(&self) -> Set<int> {
        self.flag4buffer.bits()
    }

    /// Number of acknowledged offsets.
    pub closed spec fn count(&self) -> nat {
        self.cnt as nat
    }

    /// The packet of each offset.
    pub closed spec fn packets(&self) -> Seq<EftPacket> {
        self.buffer@
    }

    /// When each offset was last sent.
    pub closed spec fn timers(&self) -> Seq<Option<u64>> {
        self.send_timers@
    }

    /// The retransmit timeout in milliseconds.
    pub closed spec fn spec_rto(&self) -> u64 {
        self.rto
    }

    /// Every acknowledgement has been received.
    pub open spec fn complete(&self) -> bool {
        self.count() == self.n()
    }

    /// The offsets that `timeouts(now)` reports: unacknowledged ones whose
    /// timer expired, below `k`, ascending.
    pub open spec fn expired_below(&self, now: u64, k: int) -> Seq<u16>
        decreases k,
    {
        if k <= 0 {
            Seq::empty()
        } else if !self.acked().contains(k - 1) && is_expired(
            self.timers()[k - 1],
            now,
            self.spec_rto(),
        ) {
            self.expired_below(now, k - 1).push((k - 1) as u16)
        } else {
            self.expired_below(now, k - 1)
        }
    }

    /// The state invariant: one timer per fragment, at most
    /// `MAX_OFFSET_LENGTH` fragments, declared length `n`, acknowledged
    /// offsets below `n`, and `cnt` their number.
    pub closed spec fn wf(&self) -> bool {
        &&& self.send_timers@.len() == self.buffer@.len()
        &&& self.buffer@.len() <= MAX_OFFSET_LENGTH
        &&& self.flag4buffer.declared() == Some(self.buffer@.len())
        &&& forall|i: int| #[trigger] self.flag4buffer.bits().contains(i) ==> 0 <= i < self.buffer@.len()
        &&& self.cnt == self.flag4buffer.bits().len()
        &&& forall|i: int| 0 <= i < self.buffer@.len() ==> #[trigger] self.buffer@[i].payload@.len() <= u16::MAX
    }

    /// Every acknowledged offset is a fragment of the file, their number is
    /// `count`, and `count` never exceeds the number of fragments.
    pub proof fn lemma_count_is_popcount(&self)
        requires
            self.wf(),
        ensures
            self.acked().finite(),
            self.count() == self.acked().len(),
            self.count() <= self.n(),
            self.n() <= MAX_OFFSET_LENGTH,
            self.timers().len() == self.n(),
            forall|i: int| #[trigger] self.acked().contains(i) ==> 0 <= i < self.n(),
    {
        self.flag4buffer.lemma_bits_bounded();
        lemma_int_range(0, self.buffer@.len() as int);
        assert(self.acked().subset_of(set_int_range(0, self.buffer@.len() as int)));
        lemma_len_subset(self.acked(), set_int_range(0, self.buffer@.len() as int));
    }

    /// What `timeouts` reports are exactly the unacknowledged fragments of
    /// the file whose timer expired.
    pub proof fn lemma_expired_below(&self, now: u64, k: int)
        requires
            self.wf(),
            0 <= k <= self.n(),
        ensures
            forall|i: int|
                0 <= i < self.expired_below(now, k).len() ==> {
                    let x = #[trigger] self.expired_below(now, k)[i];
                    &&& 0 <= x < k
                    &&& !self.acked().contains(x as int)
                    &&& is_expired(self.timers()[x as int], now, self.spec_rto())
                },
            forall|x: int|
                0 <= x < k && !self.acked().contains(x) && is_expired(self.timers()[x], now, self.spec_rto())
                    ==> #[trigger] self.expired_below(now, k).contains(x as u16),
        decreases k,
    {
        self.lemma_count_is_popcount();
        if k > 0 {
            self.lemma_expired_below(now, k - 1);
            let prev = self.expired_below(now, k - 1);
            assert forall|i: int| 0 <= i < self.expired_below(now, k).len() implies {
                let x = #[trigger] self.expired_below(now, k)[i];
                &&& 0 <= x < k
                &&& !self.acked().contains(x as int)
                &&& is_expired(self.timers()[x as int], now, self.spec_rto())
            } by {
                if i < prev.len() {
                    assert(self.expired_below(now, k)[i] == prev[i]);
                }
            }
            assert forall|x: int|
                0 <= x < k && !self.acked().contains(x) && is_expired(self.timers()[x], now, self.spec_rto())
                    implies #[trigger] self.expired_below(now, k).contains(x as u16) by {
                if x < k - 1 {
                    assert(prev.contains(x as u16));
                    let i = choose|i: int| 0 <= i < prev.len() && prev[i] == x as u16;
                    assert(self.expired_below(now, k)[i] == x as u16);
                } else {
                    let cur = self.expired_below(now, k);
                    assert(cur[cur.len() - 1] == x as u16);
                }
            }
        }
    }

    /// Once every offset is acknowledged the transfer is complete: with each
    /// fragment's acknowledgement received at least once, whatever was lost
    /// or repeated, `count` has reached `n`.
    pub proof fn lemma_all_acked_complete(&self)
        requires
            self.wf(),
            forall|i: int| 0 <= i < self.n() ==> #[trigger] self.acked().contains(i),
        ensures
            self.complete(),
    {
        self.lemma_count_is_popcount();
        lemma_int_range(0, self.n() as int);
        assert(self.acked() =~= set_int_range(0, self.n() as int));
    }

    /// A sender of the file `data` cut for `mtu`, with no offset
    /// acknowledged and every fragment due for its first transmission.
    /// Fails with `Offset` when the file has more than `MAX_OFFSET_LENGTH`
    /// fragments.
    pub fn enqueue(tri: Tri, data: &Vec<u8>, mtu: usize, rto: u64) -> (r: Result<Self, TransferError>)
        requires
            EFT_HEADER_LENGTH < mtu <= u16::MAX,
        ensures
            fragments(data@, (mtu - EFT_HEADER_LENGTH) as nat).len() > MAX_OFFSET_LENGTH ==> r
                == Err::<Self, _>(TransferError::Offset),
            fragments(data@, (mtu - EFT_HEADER_LENGTH) as nat).len() <= MAX_OFFSET_LENGTH ==> r
                is Ok,
            r matches Ok(c) ==> {
                let frags = fragments(data@, (mtu - EFT_HEADER_LENGTH) as nat);
                &&& c.wf()
                &&& c.key() == tri
                &&& c.spec_rto() == rto
                &&& c.n() == frags.len()
                &&& c.acked() == Set::<int>::empty()
                &&& c.count() == 0
                &&& forall|i: int| 0 <= i < c.n() ==> (#[trigger] c.timers()[i]) is None
                &&& forall|i: int|
                    0 <= i < c.n() ==> (#[trigger] c.packets()[i]).header == fragment_header(
                        tri.fileid,
                        frags,
                        i,
                    ) && c.packets()[i].payload@ == frags[i]
            },
    {
        let buffer = make_packets(tri.fileid, data, mtu);
        let mut flag4buffer = Flags::new();
        if flag4buffer.set_length(buffer.len()).is_err() {
            return Err(TransferError::Offset);
        }
        let mut send_timers: Vec<Option<u64>> = Vec::new();
        let mut i: usize = 0;
        while i < buffer.len()
            invariant
                i <= buffer.len(),
                send_timers@.len() == i,
                forall|j: int| 0 <= j < i ==> (#[trigger] send_timers@[j]) is None,
            decreases buffer.len() - i,
        {
            send_timers.push(None);
            i = i + 1;
        }
        proof {
            crate::utils::lemma_fragment_sizes(data@, (mtu - EFT_HEADER_LENGTH) as nat);
            assert forall|i: int| #[trigger] flag4buffer.bits().contains(i) implies 0 <= i < buffer@.len() by {}
            assert forall|i: int| 0 <= i < buffer@.len() implies #[trigger] buffer@[i].payload@.len()
                <= u16::MAX by {
                assert(buffer@[i].payload@ == fragments(data@, (mtu - EFT_HEADER_LENGTH) as nat)[i]);
            }
        }
        Ok(SendConnection { tri, buffer, flag4buffer, send_timers, rto, cnt: 0 })
    }

    /// Records the acknowledgement of `offset`; see `AckOutcome`. Fails with
    /// `Offset` when the file has no such fragment.
    pub fn on_ack(&mut self, offset: u16) -> (r: Result<AckOutcome, TransferError>)
        requires
            old(self).wf(),
        ensures
            final(self).wf(),
            final(self).key() == old(self).key(),
            final(self).n() == old(self).n(),
            final(self).packets() == old(self).packets(),
            final(self).timers() == old(self).timers(),
            final(self).spec_rto() == old(self).spec_rto(),
            final(self).count() >= old(self).count(),
            offset >= old(self).n() ==> r == Err::<AckOutcome, _>(TransferError::Offset)
                && *final(self) == *old(self),
            offset < old(self).n() && old(self).acked().contains(offset as int) ==> r
                == Ok::<_, TransferError>(AckOutcome::Idle) && *final(self) == *old(self),
            offset < old(self).n() && !old(self).acked().contains(offset as int) ==> {
                &&& final(self).acked() == old(self).acked().insert(offset as int)
                &&& final(self).count() == old(self).count() + 1
                &&& final(self).complete() ==> r == Ok::<_, TransferError>(AckOutcome::Complete)
                &&& !final(self).complete() ==> (r matches Ok(AckOutcome::DuplicatesFor(v)) && v@
                    == missing_below(final(self).acked(), offset as int))
            },
    {
        proof {
            self.lemma_count_is_popcount();
        }
        if offset as usize >= self.buffer.len() {
            return Err(TransferError::Offset);
        }
        match self.flag4buffer.isset(offset as usize) {
            Ok(true) => {
                return Ok(AckOutcome::Idle);
            },
            _ => {},
        }
        let _ = self.flag4buffer.set(offset as usize);
        self.cnt = self.cnt + 1;
        if self.cnt == self.buffer.len() {
            return Ok(AckOutcome::Complete);
        }
        let mut fast_retransmissions: Vec<u16> = Vec::new();
        let mut access: u16 = 0;
        while access < offset
            invariant
                access <= offset,
                offset < MAX_OFFSET_LENGTH,
                fast_retransmissions@ == missing_below(self.acked(), access as int),
            decreases offset - access,
        {
            if let Ok(false) = self.flag4buffer.isset(access as usize) {
                fast_retransmissions.push(access);
            }
            access = access + 1;
        }
        Ok(AckOutcome::DuplicatesFor(fast_retransmissions))
    }

    /// The unacknowledged offsets whose last transmission is older than the
    /// retransmit timeout at `now`, ascending.
    pub fn timeouts(&self, now: u64) -> (r: Vec<u16>)
        requires
            self.wf(),
        ensures
            r@ == self.expired_below(now, self.n() as int),
    {
        let mut timeouts: Vec<u16> = Vec::new();
        let mut offset: usize = 0;
        while offset < self.send_timers.len()
            invariant
                self.wf(),
                offset <= self.n(),
                timeouts@ == self.expired_below(now, offset as int),
            decreases self.n() - offset,
        {
            let expired = match self.send_timers[offset] {
                None => true,
                Some(t) => now >= t && now - t > self.rto,
            };
            let acked = match self.flag4buffer.isset(offset) {
                Ok(b) => b,
                Err(_) => true,
            };
            if !acked && expired {
                timeouts.push(offset as u16);
            }
            offset = offset + 1;
        }
        timeouts
    }

    /// When fragment `offset` was last sent; `None` also when the file has no
    /// such fragment.
    pub fn timer(&self, offset: u16) -> (r: Option<u64>)
        requires
            self.wf(),
        ensures
            offset < self.n() ==> r == self.timers()[offset as int],
            offset >= self.n() ==> r is None,
    {
        if (offset as usize) < self.send_timers.len() {
            self.send_timers[offset as usize]
        } else {
            None
        }
    }

    /// Sets the send time of fragment `offset` back to `timer`, after a
    /// transmission that failed; nothing changes when the file has no such
    /// fragment.
    pub fn restore_timer(&mut self, offset: u16, timer: Option<u64>)
        requires
            old(self).wf(),
        ensures
            final(self).wf(),
            final(self).key() == old(self).key(),
            final(self).n() == old(self).n(),
            final(self).acked() == old(self).acked(),
            final(self).count() == old(self).count(),
            final(self).packets() == old(self).packets(),
            final(self).spec_rto() == old(self).spec_rto(),
            final(self).timers() == if offset < old(self).n() {
                old(self).timers().update(offset as int, timer)
            } else {
                old(self).timers()
            },
    {
        if (offset as usize) < self.send_timers.len() {
            self.send_timers.set(offset as usize, timer);
        }
    }

    /// The frame that carries fragment `offset`, and the time it leaves;
    /// `None`, with nothing changed, when the offset is acknowledged or the
    /// file has no such fragment.
    pub fn write(&mut self, offset: u16, now: u64) -> (r: Option<Vec<u8>>)
        requires
            old(self).wf(),
        ensures
            final(self).wf(),
            final(self).key() == old(self).key(),
            final(self).n() == old(self).n(),
            final(self).acked() == old(self).acked(),
            final(self).count() == old(self).count(),
            final(self).packets() == old(self).packets(),
            final(self).spec_rto() == old(self).spec_rto(),
            (offset >= old(self).n() || old(self).acked().contains(offset as int)) ==> r is None
                && *final(self) == *old(self),
            offset < old(self).n() && !old(self).acked().contains(offset as int) ==> {
                let p = old(self).packets()[offset as int];
                &&& (r matches Some(f) && f@ == frame_seq(
                    old(self).key().dst,
                    old(self).key().src,
                    EFT_ETHER_TYPE,
                    encode(p.header, p.payload@),
                ))
                &&& final(self).timers() == old(self).timers().update(offset as int, Some(now))
            },
    {
        if offset as usize >= self.buffer.len() {
            return None;
        }
        match self.flag4buffer.isset(offset as usize) {
            Ok(false) => {},
            _ => {
                return None;
            },
        }
        let packet = self.buffer[offset as usize].raw();
        let frame = EthernetFrame::encode(self.tri.dst, self.tri.src, EFT_ETHER_TYPE, &packet);
        self.send_timers.set(offset as usize, Some(now));
        Some(frame)
    }
}

/// `c2` is `c` after fragment `offset` of type `t` carrying `p` arrived:
/// unchanged for a repeated offset; otherwise the offset is added, its
/// payload stored, and a `DataEnd` declares the length `offset + 1`.
pub open spec fn recorded(c: RecvConnection, c2: RecvConnection, offset: u16, t: u8, p: Seq<u8>) -> bool {
    if c.received().contains(offset as int) {
        c2 == c
    } else {
        &&& c2.wf()
        &&& c2.received() == c.received().insert(offset as int)
        &&& c2.count() == c.count() + 1
        &&& c2.payloads() == c.payloads().update(offset as int, p)
        &&& c2.declared() == if t == EftType::DataEnd.spec_code() {
            Some((offset + 1) as nat)
        } else {
            c.declared()
        }
    }
}

/// Receiver state of one file.
pub struct RecvConnection {
    buffer: Vec<Vec<u8>>,
    flag4buffer: Flags,
    cnt: usize,
}

impl RecvConnection {
    /// The offsets received.
    pub closed spec fn received(&self) -> Set<int> {
        self.flag4buffer.bits()
    }

    /// The declared number of fragments, once the last one arrived.
    pub closed spec fn declared(&self) -> Option<nat> {
        self.flag4buffer.declared()
    }

    /// Number of offsets received.
    pub closed spec fn count(&self) -> nat {
        self.cnt as nat
    }

    /// The payload stored for each offset; empty where none arrived.
    pub closed spec fn payloads(&self) -> Seq<Seq<u8>> {
        views(self.buffer@)
    }

    /// Every fragment has arrived: as many offsets as the declared length.
    pub open spec fn complete(&self) -> bool {
        self.declared() == Some(self.count())
    }

    /// The state invariant: a slot per possible offset, `cnt` the number of
    /// received offsets, and a declared length within bounds.
    pub closed spec fn wf(&self) -> bool {
        &&& self.buffer@.len() == MAX_OFFSET_LENGTH
        &&& self.cnt == self.flag4buffer.bits().len()
        &&& match self.flag4buffer.declared() {
            Some(l) => l <= MAX_OFFSET_LENGTH,
            None => true,
        }
    }

    /// The received offsets lie below `MAX_OFFSET_LENGTH` and `count` is
    /// their number.
    pub proof fn lemma_count_is_popcount(&self)
        requires
            self.wf(),
        ensures
            self.received().finite(),
            self.count() == self.received().len(),
            self.count() <= MAX_OFFSET_LENGTH,
            forall|i: int| #[trigger] self.received().contains(i) ==> 0 <= i < MAX_OFFSET_LENGTH,
            self.payloads().len() == MAX_OFFSET_LENGTH,
            self.declared() matches Some(l) ==> l <= MAX_OFFSET_LENGTH,
    {
        self.flag4buffer.lemma_bits_bounded();
    }

    /// Nothing received yet.
    pub open spec fn is_fresh(&self) -> bool {
        &&& self.wf()
        &&& self.received() == Set::<int>::empty()
        &&& self.declared() is None
        &&& self.count() == 0
        &&& forall|i: int| 0 <= i < MAX_OFFSET_LENGTH ==> (#[trigger] self.payloads()[i]).len() == 0
    }

    /// A receiver with nothing received.
    pub fn new() -> (r: Self)
        ensures
            r.is_fresh(),
            r.wf(),
            r.received() == Set::<int>::empty(),
            r.declared() is None,
            r.count() == 0,
            forall|i: int| 0 <= i < MAX_OFFSET_LENGTH ==> (#[trigger] r.payloads()[i]).len() == 0,
    {
        let mut buffer: Vec<Vec<u8>> = Vec::new();
        let mut i: usize = 0;
        while i < MAX_OFFSET_LENGTH
            invariant
                i <= MAX_OFFSET_LENGTH,
                buffer@.len() == i,
                forall|j: int| 0 <= j < i ==> (#[trigger] buffer@[j])@.len() == 0,
            decreases MAX_OFFSET_LENGTH - i,
        {
            buffer.push(Vec::new());
            i = i + 1;
        }
        let flag4buffer = Flags::new();
        proof {
            assert(flag4buffer.bits().len() == 0);
        }
        RecvConnection { buffer, flag4buffer, cnt: 0 }
    }

    /// Records fragment `offset` of type `packet_type` carrying `data`.
    /// A repeated offset changes nothing and gives `false`. A new one is
    /// stored; a `DataEnd` declares the length `offset + 1`. The result is
    /// whether the file is now complete. Fails with `Offset` at or beyond
    /// `MAX_OFFSET_LENGTH`.
    pub fn on_data(&mut self, offset: u16, packet_type: u8, data: &Vec<u8>) -> (r: Result<
        bool,
        TransferError,
    >)
        requires
            old(self).wf(),
        ensures
            final(self).wf(),
            final(self).count() >= old(self).count(),
            offset >= MAX_OFFSET_LENGTH ==> r == Err::<bool, _>(TransferError::Offset)
                && *final(self) == *old(self),
            offset < MAX_OFFSET_LENGTH && old(self).received().contains(offset as int) ==> r
                == Ok::<bool, TransferError>(false) && *final(self) == *old(self),
            offset < MAX_OFFSET_LENGTH && !old(self).received().contains(offset as int) ==> {
                &&& final(self).received() == old(self).received().insert(offset as int)
                &&& final(self).count() == old(self).count() + 1
                &&& final(self).payloads() == old(self).payloads().update(offset as int, data@)
                &&& final(self).declared() == if packet_type == EftType::DataEnd.spec_code() {
                    Some((offset + 1) as nat)
                } else {
                    old(self).declared()
                }
                &&& r == Ok::<bool, TransferError>(final(self).complete())
            },
            r == Ok::<bool, TransferError>(true) ==> final(self).declared() == Some(final(self).count())
                && final(self).count() > 0,
            offset < MAX_OFFSET_LENGTH ==> recorded(*old(self), *final(self), offset, packet_type, data@),
    {
        proof {
            self.lemma_count_is_popcount();
        }
        match self.flag4buffer.isset(offset as usize) {
            Ok(false) => {},
            Ok(true) => {
                return Ok(false);
            },
            Err(e) => {
                return Err(e);
            },
        }
        let _ = self.flag4buffer.set(offset as usize);
        let ghost before = self.buffer@;
        self.buffer.set(offset as usize, data.clone());
        proof {
            assert(self.buffer@ == before.update(offset as int, self.buffer@[offset as int]));
        }
        self.cnt = self.cnt + 1;
        if packet_type == EftType::DataEnd.code() {
            let _ = self.flag4buffer.set_length(offset as usize + 1);
        }
        proof {
            assert(views(self.buffer@) =~= views(before).update(offset as int, data@));
        }
        match self.flag4buffer.get_length() {
            Ok(l) => Ok(self.cnt == l),
            Err(_) => Ok(false),
        }
    }

    /// The file, once complete: the payloads of offsets `0..L` in order.
    /// `None` before.
    pub fn assemble(&self) -> (r: Option<Vec<u8>>)
        requires
            self.wf(),
        ensures
            !self.complete() ==> r is None,
            self.complete() ==> (r matches Some(v) && v@ == self.payloads().take(
                self.count() as int,
            ).flatten()),
    {
        match self.flag4buffer.get_length() {
            Ok(l) => {
                if l != self.cnt {
                    return None;
                }
                proof {
                    self.lemma_count_is_popcount();
                }
                Some(concat_prefix(&self.buffer, l))
            },
            Err(_) => None,
        }
    }
}

/// Reassembly gives the sender's bytes back. When every offset that a
/// receiver holds is a fragment of `data` cut into pieces of `size` bytes,
/// with that fragment's payload, and the receiver reports completion, then
/// it holds every fragment and its `assemble` is `data` itself.
pub proof fn lemma_reassembly(c: RecvConnection, data: Seq<u8>, size: nat)
    requires
        c.wf(),
        size > 0,
        c.complete(),
        forall|i: int| #[trigger] c.received().contains(i) ==> 0 <= i < fragments(data, size).len(),
        forall|i: int| #[trigger] c.received().contains(i) ==> c.payloads()[i] == fragments(data, size)[i],
        c.declared() == Some(fragments(data, size).len()),
    ensures
        forall|i: int| 0 <= i < fragments(data, size).len() ==> #[trigger] c.received().contains(i),
        c.payloads().take(c.count() as int).flatten() == data,
{
    let frags = fragments(data, size);
    let n = frags.len();
    c.lemma_count_is_popcount();
    lemma_int_range(0, n as int);
    assert(c.received().subset_of(set_int_range(0, n as int)));
    assert(c.received().len() == n);
    assert(c.received() =~= set_int_range(0, n as int)) by {
        if !(c.received() =~= set_int_range(0, n as int)) {
            let full = set_int_range(0, n as int);
            assert(c.received().subset_of(full));
            let x = choose|x: int| full.contains(x) && !c.received().contains(x);
            c.received().lemma_subset_not_in_lt(full, x);
        }
    }
    assert forall|i: int| 0 <= i < n implies c.payloads().take(n as int)[i] == frags[i] by {
        assert(set_int_range(0, n as int).contains(i));
        assert(c.received().contains(i));
    }
    assert(c.payloads().take(n as int) =~= frags);
    crate::utils::lemma_fragments_flatten(data, size);
}

/// Everything `c` holds comes from the file `data` cut into pieces of `size`
/// bytes: each received offset is a fragment with that fragment's payload,
/// and a declared length is the number of fragments.
pub open spec fn consistent_with(c: RecvConnection, data: Seq<u8>, size: nat) -> bool {
    let frags = fragments(data, size);
    &&& c.wf()
    &&& forall|i: int| #[trigger] c.received().contains(i) ==> 0 <= i < frags.len() && c.payloads()[i] == frags[i]
    &&& (c.declared() is None || c.declared() == Some(frags.len()))
    &&& c.declared() is Some ==> c.received().contains(frags.len() - 1)
}

/// The type byte the sender gives fragment `i` of `n`.
pub open spec fn fragment_type(i: int, n: nat) -> u8 {
    if i == n - 1 {
        EftType::DataEnd.spec_code()
    } else {
        EftType::Data.spec_code()
    }
}

/// A receiver with nothing received is consistent with any file.
pub proof fn lemma_fresh_consistent(c: RecvConnection, data: Seq<u8>, size: nat)
    requires
        c.is_fresh(),
    ensures
        consistent_with(c, data, size),
{
}

/// Recording fragment `i` of `data`, with its type and payload as the
/// sender makes them, keeps a receiver consistent with `data`, whether the
/// fragment is new or a repeat.
pub proof fn lemma_on_data_consistent(c: RecvConnection, c2: RecvConnection, i: u16, data: Seq<u8>, size: nat)
    requires
        consistent_with(c, data, size),
        i < fragments(data, size).len() <= MAX_OFFSET_LENGTH,
        recorded(c, c2, i, fragment_type(i as int, fragments(data, size).len()), fragments(data, size)[i as int]),
    ensures
        consistent_with(c2, data, size),
{
    let frags = fragments(data, size);
    c.lemma_count_is_popcount();
    if !c.received().contains(i as int) {
        assert forall|j: int| #[trigger] c2.received().contains(j) implies 0 <= j < frags.len() && c2.payloads()[j] == frags[j] by {
            if j != i {
                assert(c.received().contains(j));
            }
        }
        if fragment_type(i as int, frags.len()) == EftType::DataEnd.spec_code() {
            assert(i == frags.len() - 1);
            assert(c2.received().contains(i as int));
        } else if c2.declared() is Some {
            assert(c.received().contains(frags.len() - 1));
            assert(c2.received().contains(frags.len() - 1));
        }
    }
}

/// A receiver that stayed consistent with `data` and reports completion
/// has declared the number of fragments, and reassembles exactly `data`:
/// whatever order the fragments came in, and however often.
pub proof fn lemma_consistent_complete(c: RecvConnection, data: Seq<u8>, size: nat)
    requires
        size > 0,
        consistent_with(c, data, size),
        c.complete(),
    ensures
        c.declared() == Some(fragments(data, size).len()),
        fragments(data, size).len() > 0,
        c.payloads().take(c.count() as int).flatten() == data,
{
    c.lemma_count_is_popcount();
    if c.declared() == Some(0nat) {
        assert(c.count() == 0);
    }
    lemma_reassembly(c, data, size);
}

} // verus!
