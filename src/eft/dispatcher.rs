//! The state that one interface keeps for all its transfers, and the
//! decisions taken on it: which connection an incoming frame belongs to,
//! what is answered, and which frames leave on each scheduler tick. The
//! caller owns the link, the lock and the clock, and hands in frames and
//! times.
use vstd::prelude::*;

use crate::eft::connection::{
    fragment_header, missing_below, AckOutcome, EndPoint, RecvConnection, SendConnection, Tri,
};
use crate::eft::packet::{decode, encode, EftPacket, EftPacketHeader, EftType};
use crate::eft::scheduler::{rr_key, PeerQueue};
use crate::error::TransferError;
use crate::frame::{
    be16, ether_type_of, frame_seq, mac_at, EthernetFrame, MacAddress, ETHERNET_HEADER_LENGTH,
};
use crate::general::{EFT_ETHER_TYPE, EFT_HEADER_LENGTH, MAX_OFFSET_LENGTH};
use crate::utils::fragments;

verus! {

/// No two connections share a key.
pub open spec fn unique_keys(cs: Seq<SendConnection>) -> bool {
    forall|i: int, j: int| 0 <= i < j < cs.len() ==> cs[i].key() != cs[j].key()
}

/// No two queues serve the same peer.
pub open spec fn unique_peers(qs: Seq<PeerQueue>) -> bool {
    forall|i: int, j: int| 0 <= i < j < qs.len() ==> qs[i].spec_peer() != qs[j].spec_peer()
}

/// Entry `e` is pending in the queue toward `ep`.
pub open spec fn queued(qs: Seq<PeerQueue>, ep: EndPoint, e: (u16, u16)) -> bool {
    exists|k: int| 0 <= k < qs.len() && qs[k].spec_peer() == ep && #[trigger] qs[k].pending().contains(e)
}

/// Adds entry `(fileid, offset)` to the queue toward `ep`, creating the
/// queue if there is none.
fn queue_insert(qs: &mut Vec<PeerQueue>, ep: EndPoint, fileid: u16, offset: u16)
    requires
        unique_peers(old(qs)@),
    ensures
        unique_peers(final(qs)@),
        queued(final(qs)@, ep, (fileid, offset)),
        forall|ep2: EndPoint, e2: (u16, u16)|
            queued(old(qs)@, ep2, e2) ==> #[trigger] queued(final(qs)@, ep2, e2),
        final(qs)@.len() >= old(qs)@.len(),
        forall|k: int|
            0 <= k < old(qs)@.len() ==> #[trigger] final(qs)@[k].spec_peer() == old(qs)@[k].spec_peer(),
{
    let ghost old_qs = qs@;
    let mut k: usize = 0;
    while k < qs.len()
        invariant
            qs@ == old_qs,
            old_qs == old(qs)@,
            unique_peers(old_qs),
            k <= qs@.len(),
            forall|j: int| 0 <= j < k ==> qs@[j].spec_peer() != ep,
        decreases qs@.len() - k,
    {
        if qs[k].peer() == ep {
            qs[k].insert(fileid, offset);
            proof {
                assert forall|j: int| 0 <= j < qs@.len() implies #[trigger] qs@[j].spec_peer() == old_qs[j].spec_peer() by {
                    if j != k {
                        assert(qs@[j] == old_qs[j]);
                    }
                }
                assert(qs@[k as int].pending().contains((fileid, offset)));
                assert forall|ep2: EndPoint, e2: (u16, u16)| queued(old_qs, ep2, e2) implies #[trigger] queued(
                    qs@,
                    ep2,
                    e2,
                ) by {
                    let j = choose|j: int| 0 <= j < old_qs.len() && old_qs[j].spec_peer() == ep2
                        && #[trigger] old_qs[j].pending().contains(e2);
                    if j == k {
                        assert(qs@[j].pending().contains(e2));
                    } else {
                        assert(qs@[j] == old_qs[j]);
                    }
                }
                assert(unique_peers(qs@)) by {
                    assert forall|a: int, b: int| 0 <= a < b < qs@.len() implies qs@[a].spec_peer() != qs@[b].spec_peer() by {
                        assert(qs@[a].spec_peer() == old_qs[a].spec_peer());
                        assert(qs@[b].spec_peer() == old_qs[b].spec_peer());
                    }
                }
            }
            return;
        }
        k = k + 1;
    }
    let mut q = PeerQueue::new(ep);
    q.insert(fileid, offset);
    qs.push(q);
    proof {
        let n = old_qs.len() as int;
        assert(qs@[n].pending().contains((fileid, offset)));
        assert forall|ep2: EndPoint, e2: (u16, u16)| queued(old_qs, ep2, e2) implies #[trigger] queued(
            qs@,
            ep2,
            e2,
        ) by {
            let j = choose|j: int| 0 <= j < old_qs.len() && old_qs[j].spec_peer() == ep2
                && #[trigger] old_qs[j].pending().contains(e2);
            assert(qs@[j] == old_qs[j]);
        }
    }
}

/// The position of the connection with key `tri`.
fn find_conn(cs: &Vec<SendConnection>, tri: Tri) -> (r: Option<usize>)
    ensures
        r matches Some(i) ==> i < cs@.len() && cs@[i as int].key() == tri,
        r is None ==> forall|i: int| 0 <= i < cs@.len() ==> #[trigger] cs@[i].key() != tri,
{
    let mut i: usize = 0;
    while i < cs.len()
        invariant
            i <= cs@.len(),
            forall|j: int| 0 <= j < i ==> cs@[j].key() != tri,
        decreases cs@.len() - i,
    {
        if cs[i].tri() == tri {
            return Some(i);
        }
        i = i + 1;
    }
    None
}

/// A frame that the scheduler hands to the link.
pub struct Transmission {
    /// The transfer it belongs to.
    pub tri: Tri,
    /// The fragment it carries.
    pub offset: u16,
    /// Whether it came from the fast-retransmit queue rather than the
    /// timeout queue.
    pub fast: bool,
    /// The Ethernet frame.
    pub frame: Vec<u8>,
    /// When the fragment was sent before this transmission, if ever.
    pub previous: Option<u64>,
}

/// `t` carries an unacknowledged fragment of a connection of `cs`, framed
/// from the sender to the receiver.
pub open spec fn transmission_ok(cs: Seq<SendConnection>, t: Transmission) -> bool {
    exists|j: int|
        0 <= j < cs.len() && #[trigger] cs[j].key() == t.tri && t.offset < cs[j].n()
            && !cs[j].acked().contains(t.offset as int) && t.frame@ == frame_seq(
            t.tri.dst,
            t.tri.src,
            EFT_ETHER_TYPE,
            encode(cs[j].packets()[t.offset as int].header, cs[j].packets()[t.offset as int].payload@),
        )
}

/// No two transmissions go to the same peer from the same queue.
pub open spec fn one_per_peer_and_queue(ts: Seq<Transmission>) -> bool {
    forall|a: int, b: int|
        0 <= a < b < ts.len() ==> !(ts[a].tri.spec_endpoint() == ts[b].tri.spec_endpoint()
            && ts[a].fast == ts[b].fast)
}

/// `b` is `a` with at most the send timers changed.
pub open spec fn same_but_timers(a: Seq<SendConnection>, b: Seq<SendConnection>) -> bool {
    &&& a.len() == b.len()
    &&& forall|j: int|
        0 <= j < a.len() ==> {
            &&& (#[trigger] b[j]).wf()
            &&& b[j].key() == a[j].key()
            &&& b[j].n() == a[j].n()
            &&& b[j].acked() == a[j].acked()
            &&& b[j].count() == a[j].count()
            &&& b[j].packets() == a[j].packets()
            &&& b[j].spec_rto() == a[j].spec_rto()
        }
}

/// Transmissions stay valid while only send timers change.
proof fn lemma_transmission_kept(a: Seq<SendConnection>, b: Seq<SendConnection>, t: Transmission)
    requires
        same_but_timers(a, b),
        transmission_ok(a, t),
    ensures
        transmission_ok(b, t),
{
    let j = choose|j: int|
        0 <= j < a.len() && #[trigger] a[j].key() == t.tri && t.offset < a[j].n()
            && !a[j].acked().contains(t.offset as int) && t.frame@ == frame_seq(
            t.tri.dst,
            t.tri.src,
            EFT_ETHER_TYPE,
            encode(a[j].packets()[t.offset as int].header, a[j].packets()[t.offset as int].payload@),
        );
    assert(b[j].key() == t.tri);
}

/// Entry `e` of the queue toward `ep` needs no frame: no transfer of `cs`
/// has its key, or its fragment is beyond the file or acknowledged.
pub open spec fn stale(cs: Seq<SendConnection>, ep: EndPoint, e: (u16, u16)) -> bool {
    forall|j: int|
        0 <= j < cs.len() && #[trigger] cs[j].key() == (Tri { src: ep.src, dst: ep.dst, fileid: e.0 })
            ==> e.1 >= cs[j].n() || cs[j].acked().contains(e.1 as int)
}

/// `t` is what queue `q` serves: its entry was pending, and every pending
/// entry before it in round-robin order (see `rr_key`) needs no frame.
pub open spec fn served(q: PeerQueue, cs: Seq<SendConnection>, t: Transmission) -> bool {
    &&& q.pending().contains((t.tri.fileid, t.offset))
    &&& forall|e: (u16, u16)|
        #[trigger] q.pending().contains(e) && rr_key(e, q.last()) < rr_key((t.tri.fileid, t.offset), q.last())
            ==> stale(cs, q.spec_peer(), e)
}

/// `q2` still holds every entry of `q` but `sent` and those that need no
/// frame.
pub open spec fn kept(q: PeerQueue, q2: PeerQueue, cs: Seq<SendConnection>, sent: Option<(u16, u16)>) -> bool {
    forall|e: (u16, u16)|
        #[trigger] q.pending().contains(e) ==> q2.pending().contains(e) || sent == Some(e) || stale(
            cs,
            q.spec_peer(),
            e,
        )
}

/// Serves queue `q` once: entries are taken out in round-robin order (see
/// `rr_key`) and those that need no frame are dropped, until one yields a
/// frame, whose file becomes the last one served. `None` once the queue is
/// empty.
fn emit_one(q: &mut PeerQueue, conns: &mut Vec<SendConnection>, fast: bool, now: u64) -> (r: Option<
    Transmission,
>)
    requires
        forall|j: int| 0 <= j < old(conns)@.len() ==> (#[trigger] old(conns)@[j]).wf(),
        unique_keys(old(conns)@),
    ensures
        same_but_timers(old(conns)@, final(conns)@),
        final(q).spec_peer() == old(q).spec_peer(),
        r matches Some(t) ==> {
            &&& t.tri.spec_endpoint() == old(q).spec_peer()
            &&& t.fast == fast
            &&& transmission_ok(final(conns)@, t)
            &&& served(*old(q), old(conns)@, t)
            &&& kept(*old(q), *final(q), old(conns)@, Some((t.tri.fileid, t.offset)))
            &&& final(q).last() == Some(t.tri.fileid)
            &&& forall|j: int|
                0 <= j < old(conns)@.len() && #[trigger] old(conns)@[j].key() == t.tri ==> t.previous == old(conns)@[j].timers()[t.offset as int]
        },
        r is None ==> {
            &&& final(q).pending().len() == 0
            &&& final(q).last() == old(q).last()
            &&& forall|e: (u16, u16)| #[trigger] old(q).pending().contains(e) ==> stale(old(conns)@, old(q).spec_peer(), e)
        },
{
    let peer = q.peer();
    let ghost start = conns@;
    let ghost q0 = *q;
    let ghost last = q0.last();
    proof {
        assert forall|j: int| 0 <= j < start.len() implies (#[trigger] start[j]).wf() by {}
    }
    while q.len() > 0
        invariant
            q.spec_peer() == peer,
            peer == q0.spec_peer(),
            q0 == *old(q),
            q.last() == last,
            last == q0.last(),
            start == old(conns)@,
            forall|j: int| 0 <= j < start.len() ==> (#[trigger] start[j]).wf(),
            unique_keys(start),
            conns@ == start,
            forall|e: (u16, u16)| #[trigger] q0.pending().contains(e) ==> q.pending().contains(e) || stale(start, peer, e),
            forall|e: (u16, u16)| #[trigger] q.pending().contains(e) ==> q0.pending().contains(e),
            forall|e: (u16, u16), e2: (u16, u16)|
                #[trigger] q0.pending().contains(e) && !q.pending().contains(e) && #[trigger] q.pending().contains(e2)
                    ==> rr_key(e, last) <= rr_key(e2, last),
        decreases q.pending().len(),
    {
        let ghost qb = *q;
        let e = q.pop_next();
        let ghost qa = *q;
        proof {
            assert forall|y: (u16, u16)| #[trigger] qb.pending().contains(y) implies rr_key(e.unwrap(), last) <= rr_key(y, last) by {
                let j = choose|j: int| 0 <= j < qb.pending().len() && qb.pending()[j] == y;
            }
        }
        if let Some((fileid, offset)) = e {
            let tri = Tri { src: peer.src, dst: peer.dst, fileid };
            let mut sent: Option<Transmission> = None;
            if let Some(j) = find_conn(conns, tri) {
                let ghost prev = conns@;
                proof {
                    assert forall|a: int| 0 <= a < start.len() && #[trigger] start[a].key() == tri implies a == j by {
                        if a != j {
                            assert(start[a].key() != start[j as int].key());
                        }
                    }
                }
                let previous = conns[j].timer(offset);
                let w = conns[j].write(offset, now);
                proof {
                    assert forall|a: int| 0 <= a < conns@.len() && a != j implies conns@[a] == prev[a] by {}
                }
                if let Some(frame) = w {
                    let t = Transmission { tri, offset, fast, frame, previous };
                    proof {
                        assert(conns@[j as int].key() == t.tri);
                    }
                    sent = Some(t);
                } else {
                    proof {
                        assert(stale(start, peer, (fileid, offset)));
                        assert(conns@ =~= start);
                    }
                }
            } else {
                proof {
                    assert forall|a: int| 0 <= a < start.len() implies #[trigger] start[a].key() != tri by {
                        assert(conns@[a].key() == start[a].key());
                    }
                    assert(stale(start, peer, (fileid, offset)));
                }
            }
            if let Some(t) = sent {
                q.mark_served(fileid);
                proof {
                    assert forall|x: (u16, u16)|
                        #[trigger] q0.pending().contains(x) && rr_key(x, q0.last()) < rr_key((fileid, offset), q0.last())
                        implies stale(start, peer, x) by {
                        if qb.pending().contains(x) {
                            assert(rr_key((fileid, offset), last) <= rr_key(x, last));
                        }
                    }
                    assert forall|x: (u16, u16)| #[trigger] q0.pending().contains(x) implies q.pending().contains(x)
                        || Some((fileid, offset)) == Some(x) || stale(start, peer, x) by {
                        if qb.pending().contains(x) && x != (fileid, offset) {
                            assert(qa.pending().contains(x));
                        }
                    }
                }
                return Some(t);
            }
            proof {
                assert forall|x: (u16, u16)| #[trigger] q0.pending().contains(x) implies q.pending().contains(x)
                    || stale(start, peer, x) by {
                    if qb.pending().contains(x) && x != (fileid, offset) {
                        assert(qa.pending().contains(x));
                    }
                }
                assert forall|x: (u16, u16), y: (u16, u16)|
                    #[trigger] q0.pending().contains(x) && !q.pending().contains(x) && #[trigger] q.pending().contains(y)
                    implies rr_key(x, last) <= rr_key(y, last) by {
                    assert(qb.pending().contains(y));
                    if qb.pending().contains(x) {
                        assert(x == (fileid, offset));
                    }
                }
            }
        }
    }
    proof {
        assert forall|x: (u16, u16)| #[trigger] q0.pending().contains(x) implies stale(start, peer, x) by {
            if q.pending().contains(x) {
                let j = choose|j: int| 0 <= j < q.pending().len() && q.pending()[j] == x;
            }
        }
    }
    None
}

/// Queue `q` became `q2` by one service: either one of the transmissions
/// `ts` is what it served (see `served`, `kept`) and its file is now the
/// last one served; or every entry of `q` needed no frame and `q2` is empty.
pub open spec fn queue_served(q: PeerQueue, q2: PeerQueue, cs: Seq<SendConnection>, ts: Seq<Transmission>, fast: bool) -> bool {
    ||| exists|a: int|
        0 <= a < ts.len() && (#[trigger] ts[a]).fast == fast && ts[a].tri.spec_endpoint() == q.spec_peer()
            && served(q, cs, ts[a]) && kept(q, q2, cs, Some((ts[a].tri.fileid, ts[a].offset))) && q2.last()
            == Some(ts[a].tri.fileid)
    ||| q2.pending().len() == 0 && q2.last() == q.last() && forall|e: (u16, u16)|
        #[trigger] q.pending().contains(e) ==> stale(cs, q.spec_peer(), e)
}

/// Whether an entry needs a frame depends on keys, fragments and
/// acknowledgements only, not on timers.
proof fn lemma_stale_same(a: Seq<SendConnection>, b: Seq<SendConnection>, ep: EndPoint, e: (u16, u16))
    requires
        same_but_timers(a, b),
    ensures
        stale(a, ep, e) == stale(b, ep, e),
{
    assert forall|j: int| 0 <= j < a.len() implies #[trigger] a[j].key() == b[j].key() && a[j].n() == b[j].n()
        && a[j].acked() == b[j].acked() by {}
}

/// Serves each queue of `qs` once: at most one frame per queue, so per
/// peer, is appended to `out`.
fn emit_from(
    qs: &mut Vec<PeerQueue>,
    conns: &mut Vec<SendConnection>,
    fast: bool,
    now: u64,
    out: &mut Vec<Transmission>,
)
    requires
        unique_peers(old(qs)@),
        forall|j: int| 0 <= j < old(conns)@.len() ==> (#[trigger] old(conns)@[j]).wf(),
        unique_keys(old(conns)@),
        forall|a: int| 0 <= a < old(out)@.len() ==> transmission_ok(old(conns)@, #[trigger] old(out)@[a]),
    ensures
        final(qs)@.len() == old(qs)@.len(),
        forall|j: int| 0 <= j < old(qs)@.len() ==> #[trigger] final(qs)@[j].spec_peer() == old(qs)@[j].spec_peer(),
        unique_peers(final(qs)@),
        same_but_timers(old(conns)@, final(conns)@),
        final(out)@.len() >= old(out)@.len(),
        final(out)@.take(old(out)@.len() as int) == old(out)@,
        forall|a: int| old(out)@.len() <= a < final(out)@.len() ==> (#[trigger] final(out)@[a]).fast == fast,
        forall|a: int, b: int|
            old(out)@.len() <= a < b < final(out)@.len() ==> final(out)@[a].tri.spec_endpoint()
                != final(out)@[b].tri.spec_endpoint(),
        forall|a: int| 0 <= a < final(out)@.len() ==> transmission_ok(final(conns)@, #[trigger] final(out)@[a]),
        forall|j: int|
            0 <= j < final(qs)@.len() ==> (#[trigger] final(qs)@[j]).pending().len() == 0 || exists|a: int|
                old(out)@.len() <= a < final(out)@.len() && final(out)@[a].tri.spec_endpoint()
                    == final(qs)@[j].spec_peer(),
        forall|j: int|
            0 <= j < old(qs)@.len() ==> queue_served(old(qs)@[j], #[trigger] final(qs)@[j], old(conns)@, final(out)@, fast),
{
    let ghost old_qs = qs@;
    let ghost old_conns = conns@;
    let ghost old_out = out@;
    let ghost mut src: Seq<int> = Seq::empty();
    let mut k: usize = 0;
    while k < qs.len()
        invariant
            old_qs == old(qs)@,
            old_conns == old(conns)@,
            old_out == old(out)@,
            unique_peers(old_qs),
            forall|j: int| 0 <= j < old_conns.len() ==> (#[trigger] old_conns[j]).wf(),
            unique_keys(old_conns),
            k <= qs@.len() == old_qs.len(),
            forall|j: int| 0 <= j < qs@.len() ==> #[trigger] qs@[j].spec_peer() == old_qs[j].spec_peer(),
            same_but_timers(old_conns, conns@),
            out@.len() == old_out.len() + src.len(),
            out@.take(old_out.len() as int) == old_out,
            forall|a: int| 0 <= a < src.len() ==> 0 <= #[trigger] src[a] < k,
            forall|a: int, b: int| 0 <= a < b < src.len() ==> src[a] < src[b],
            forall|a: int|
                0 <= a < src.len() ==> (#[trigger] out@[old_out.len() + a]).tri.spec_endpoint()
                    == old_qs[src[a]].spec_peer() && out@[old_out.len() + a].fast == fast,
            forall|a: int| 0 <= a < out@.len() ==> transmission_ok(conns@, #[trigger] out@[a]),
            forall|j: int|
                0 <= j < k ==> (#[trigger] qs@[j]).pending().len() == 0 || exists|a: int|
                    0 <= a < src.len() && src[a] == j,
            forall|j: int| 0 <= j < k ==> queue_served(old_qs[j], #[trigger] qs@[j], old_conns, out@, fast),
            forall|j: int| k <= j < qs@.len() ==> #[trigger] qs@[j] == old_qs[j],
        decreases qs@.len() - k,
    {
        let ghost prev_conns = conns@;
        let ghost prev_qs = qs@;
        proof {
            assert forall|j: int| 0 <= j < prev_conns.len() implies (#[trigger] prev_conns[j]).wf() by {
                assert(same_but_timers(old_conns, prev_conns));
            }
            assert forall|a: int, b: int| 0 <= a < b < prev_conns.len() implies prev_conns[a].key()
                != prev_conns[b].key() by {
                assert(old_conns[a].key() != old_conns[b].key());
            }
        }
        let ghost qk = qs@[k as int];
        let t = emit_one(&mut qs[k], conns, fast, now);
        proof {
            assert(qk == old_qs[k as int]);
            assert forall|e: (u16, u16)| true implies stale(prev_conns, qk.spec_peer(), e) == stale(old_conns, qk.spec_peer(), e) by {
                lemma_stale_same(old_conns, prev_conns, qk.spec_peer(), e);
            }
            assert forall|j: int| 0 <= j < qs@.len() && j != k implies qs@[j] == prev_qs[j] by {}
            assert forall|a: int| 0 <= a < out@.len() implies transmission_ok(conns@, #[trigger] out@[a]) by {
                lemma_transmission_kept(prev_conns, conns@, out@[a]);
            }
        }
        let ghost emitted = t is Some;
        let ghost prev_src = src;
        proof {
            assert forall|j: int| 0 <= j < k implies (#[trigger] qs@[j]).pending().len() == 0 || exists|a: int|
                0 <= a < prev_src.len() && prev_src[a] == j by {
                assert(qs@[j] == prev_qs[j]);
            }
        }
        let ghost before_out = out@;
        let ghost sent = t;
        proof {
            assert forall|j: int| 0 <= j < k implies queue_served(old_qs[j], #[trigger] qs@[j], old_conns, before_out, fast) by {
                assert(qs@[j] == prev_qs[j]);
            }
            if t is None {
                assert(queue_served(old_qs[k as int], qs@[k as int], old_conns, before_out, fast));
            }
        }
        if let Some(t) = t {
            out.push(t);
            proof {
                let n = before_out.len() as int;
                assert(out@[n] == sent.unwrap());
                assert(queue_served(old_qs[k as int], qs@[k as int], old_conns, out@, fast));
                assert forall|j: int| 0 <= j < k implies queue_served(old_qs[j], #[trigger] qs@[j], old_conns, out@, fast) by {
                    if !(qs@[j].pending().len() == 0 && qs@[j].last() == old_qs[j].last() && forall|e: (u16, u16)|
                        #[trigger] old_qs[j].pending().contains(e) ==> stale(old_conns, old_qs[j].spec_peer(), e)) {
                        let a = choose|a: int|
                            0 <= a < before_out.len() && (#[trigger] before_out[a]).fast == fast && before_out[a].tri.spec_endpoint() == old_qs[j].spec_peer()
                                && served(old_qs[j], old_conns, before_out[a]) && kept(old_qs[j], qs@[j], old_conns, Some((before_out[a].tri.fileid, before_out[a].offset))) && qs@[j].last()
                                == Some(before_out[a].tri.fileid);
                        assert(out@[a] == before_out[a]);
                    }
                }
                src = src.push(k as int);
                assert(out@.take(old_out.len() as int) =~= before_out.take(old_out.len() as int));
                assert forall|a: int| 0 <= a < out@.len() implies transmission_ok(conns@, #[trigger] out@[a]) by {
                    if a < before_out.len() {
                        assert(out@[a] == before_out[a]);
                    }
                }
                assert forall|a: int|
                    0 <= a < src.len() implies (#[trigger] out@[old_out.len() + a]).tri.spec_endpoint()
                        == old_qs[src[a]].spec_peer() && out@[old_out.len() + a].fast == fast by {
                    if a < src.len() - 1 {
                        assert(out@[old_out.len() + a] == before_out[old_out.len() + a]);
                    }
                }
            }
        }
        proof {
            assert forall|j: int| 0 <= j <= k implies (#[trigger] qs@[j]).pending().len() == 0 || exists|a: int|
                0 <= a < src.len() && src[a] == j by {
                if j < k {
                    if qs@[j].pending().len() != 0 {
                        let a = choose|a: int| 0 <= a < prev_src.len() && prev_src[a] == j;
                        assert(src[a] == j);
                    }
                } else if emitted {
                    assert(src[src.len() - 1] == j);
                }
            }
        }
        k = k + 1;
    }
    proof {
        assert forall|j: int|
            0 <= j < qs@.len() implies (#[trigger] qs@[j]).pending().len() == 0 || exists|a: int|
                old_out.len() <= a < out@.len() && out@[a].tri.spec_endpoint() == qs@[j].spec_peer() by {
            if qs@[j].pending().len() != 0 {
                let a = choose|a: int| 0 <= a < src.len() && src[a] == j;
                assert(out@[old_out.len() + a].tri.spec_endpoint() == old_qs[src[a]].spec_peer());
            }
        }
        assert forall|a: int, b: int|
            old_out.len() <= a < b < out@.len() implies out@[a].tri.spec_endpoint()
                != out@[b].tri.spec_endpoint() by {
            let a2 = a - old_out.len();
            let b2 = b - old_out.len();
            assert(out@[old_out.len() + a2].tri.spec_endpoint() == old_qs[src[a2]].spec_peer());
            assert(out@[old_out.len() + b2].tri.spec_endpoint() == old_qs[src[b2]].spec_peer());
            assert(src[a2] < src[b2]);
        }
        assert forall|a: int| old_out.len() <= a < out@.len() implies (#[trigger] out@[a]).fast == fast by {
            let a2 = a - old_out.len();
            assert(out@[old_out.len() + a2].fast == fast);
        }
    }
}

/// Same as `queue_served`, for connections that differ in timers only.
proof fn lemma_queue_served_same(
    q: PeerQueue,
    q2: PeerQueue,
    a: Seq<SendConnection>,
    b: Seq<SendConnection>,
    ts: Seq<Transmission>,
    fast: bool,
)
    requires
        same_but_timers(a, b),
        queue_served(q, q2, a, ts, fast),
    ensures
        queue_served(q, q2, b, ts, fast),
{
    assert forall|e: (u16, u16)| true implies stale(a, q.spec_peer(), e) == stale(b, q.spec_peer(), e) by {
        lemma_stale_same(a, b, q.spec_peer(), e);
    }
}

/// A service recorded against `ts` stays recorded when `ts` grows.
proof fn lemma_queue_served_extend(
    q: PeerQueue,
    q2: PeerQueue,
    cs: Seq<SendConnection>,
    ts: Seq<Transmission>,
    ts2: Seq<Transmission>,
    fast: bool,
)
    requires
        ts.len() <= ts2.len(),
        ts2.take(ts.len() as int) == ts,
        queue_served(q, q2, cs, ts, fast),
    ensures
        queue_served(q, q2, cs, ts2, fast),
{
    if !(q2.pending().len() == 0 && q2.last() == q.last() && forall|e: (u16, u16)|
        #[trigger] q.pending().contains(e) ==> stale(cs, q.spec_peer(), e)) {
        let a = choose|a: int|
            0 <= a < ts.len() && (#[trigger] ts[a]).fast == fast && ts[a].tri.spec_endpoint() == q.spec_peer()
                && served(q, cs, ts[a]) && kept(q, q2, cs, Some((ts[a].tri.fileid, ts[a].offset))) && q2.last()
                == Some(ts[a].tri.fileid);
        assert(ts2[a] == ts2.take(ts.len() as int)[a]);
    }
}

/// `m1` is `m0` after `on_ack(tri, offset)`: a transfer that lacks no
/// other acknowledgement is removed; a new acknowledgement of an
/// incomplete transfer is recorded and the offsets below it still missing
/// join the fast queue of its peer; anything else changes nothing.
pub open spec fn ack_step(m0: SendConnectionManager, tri: Tri, offset: u16, m1: SendConnectionManager) -> bool {
    &&& m1.wf()
    &&& m1.timeout() == m0.timeout()
    &&& forall|ep: EndPoint, e: (u16, u16)| queued(m0.fast(), ep, e) ==> #[trigger] queued(m1.fast(), ep, e)
    &&& !m0.has(tri) ==> m1.same_as(m0)
    &&& forall|i: int|
        0 <= i < m0.conns().len() && #[trigger] m0.conns()[i].key() == tri ==> {
            let c = m0.conns()[i];
            &&& offset >= c.n() ==> m1.same_as(m0)
            &&& offset < c.n() && c.acked().contains(offset as int) ==> m1.same_as(m0)
            &&& offset < c.n() && !c.acked().contains(offset as int) && c.count() + 1 == c.n() ==> m1.conns()
                == m0.conns().remove(i)
            &&& offset < c.n() && !c.acked().contains(offset as int) && c.count() + 1 < c.n() ==> {
                let d = m1.conns()[i];
                &&& m1.conns() == m0.conns().update(i, d)
                &&& d.key() == c.key() && d.n() == c.n() && d.packets() == c.packets()
                &&& d.timers() == c.timers() && d.spec_rto() == c.spec_rto()
                &&& d.acked() == c.acked().insert(offset as int)
                &&& d.count() == c.count() + 1
                &&& forall|k: int|
                    0 <= k < missing_below(d.acked(), offset as int).len() ==> queued(
                        m1.fast(),
                        tri.spec_endpoint(),
                        (tri.fileid, #[trigger] missing_below(d.acked(), offset as int)[k]),
                    )
            }
        }
}

/// `m` is `m0` after `ack_step` for each of `acks`, in order: `ms` holds
/// the states in between.
pub open spec fn ack_chain(m0: SendConnectionManager, acks: Seq<(Tri, u16)>, ms: Seq<SendConnectionManager>, m: SendConnectionManager) -> bool {
    &&& ms.len() == acks.len() + 1
    &&& ms[0] == m0
    &&& ms[acks.len() as int] == m
    &&& forall|k: int| 0 <= k < acks.len() ==> ack_step(#[trigger] ms[k], acks[k].0, acks[k].1, ms[k + 1])
}

/// `m2` is `m1` after `collect_timeouts(now)`: every unacknowledged
/// fragment whose timer expired is queued toward its peer, and nothing
/// queued before is lost.
pub open spec fn timeouts_collected(m1: SendConnectionManager, now: u64, m2: SendConnectionManager) -> bool {
    &&& m2.wf()
    &&& m2.conns() == m1.conns()
    &&& m2.fast() == m1.fast()
    &&& forall|ep: EndPoint, e: (u16, u16)| queued(m1.timeout(), ep, e) ==> #[trigger] queued(m2.timeout(), ep, e)
    &&& forall|i: int, k: int|
        0 <= i < m1.conns().len() && 0 <= k < m1.conns()[i].expired_below(now, m1.conns()[i].n() as int).len()
            ==> queued(
            m2.timeout(),
            m1.conns()[i].key().spec_endpoint(),
            (m1.conns()[i].key().fileid, #[trigger] m1.conns()[i].expired_below(now, m1.conns()[i].n() as int)[k]),
        )
}

/// `m3` is `m2` after each fast-retransmit queue, then each timeout queue,
/// was served once (see `queue_served`), giving the transmissions `ts`.
pub open spec fn emitted(m2: SendConnectionManager, m3: SendConnectionManager, ts: Seq<Transmission>) -> bool {
    &&& m3.wf()
    &&& same_but_timers(m2.conns(), m3.conns())
    &&& m3.fast().len() == m2.fast().len()
    &&& m3.timeout().len() == m2.timeout().len()
    &&& forall|j: int| 0 <= j < m2.fast().len() ==> queue_served(m2.fast()[j], #[trigger] m3.fast()[j], m2.conns(), ts, true)
    &&& forall|j: int|
        0 <= j < m2.timeout().len() ==> queue_served(m2.timeout()[j], #[trigger] m3.timeout()[j], m2.conns(), ts, false)
    &&& one_per_peer_and_queue(ts)
    &&& forall|a: int| 0 <= a < ts.len() ==> transmission_ok(m3.conns(), #[trigger] ts[a])
}

/// Offset `o` of the transfer with key `k` is acknowledged, if `cs` holds
/// that transfer and it has such a fragment.
pub open spec fn acked_for(cs: Seq<SendConnection>, k: Tri, o: int) -> bool {
    forall|j: int| 0 <= j < cs.len() && #[trigger] cs[j].key() == k && o < cs[j].n() ==> cs[j].acked().contains(o)
}

/// `c` is what `SendConnection::enqueue(tri, data, mtu, rto)` builds.
pub open spec fn is_new_sender(c: SendConnection, tri: Tri, data: Seq<u8>, mtu: nat, rto: u64) -> bool {
    let frags = fragments(data, (mtu - EFT_HEADER_LENGTH) as nat);
    &&& c.wf()
    &&& c.key() == tri
    &&& c.spec_rto() == rto
    &&& c.n() == frags.len()
    &&& c.acked() == Set::<int>::empty()
    &&& c.count() == 0
    &&& forall|i: int| 0 <= i < c.n() ==> (#[trigger] c.timers()[i]) is None
    &&& forall|i: int|
        0 <= i < c.n() ==> (#[trigger] c.packets()[i]).header == fragment_header(tri.fileid, frags, i)
            && c.packets()[i].payload@ == frags[i]
}

/// `after` is `before` with `c` in place of the connection that has its
/// key, or with `c` added when none has.
pub open spec fn installed(before: Seq<SendConnection>, after: Seq<SendConnection>, c: SendConnection) -> bool {
    ||| exists|i: int| 0 <= i < before.len() && before[i].key() == c.key() && after == before.update(i, c)
    ||| (forall|i: int| 0 <= i < before.len() ==> before[i].key() != c.key()) && after == before.push(c)
}

/// The state of the sending side of an interface: the connections, and per
/// peer the fast-retransmit and timeout queues.
pub struct SendConnectionManager {
    connections: Vec<SendConnection>,
    fast_retransmissions: Vec<PeerQueue>,
    timeout_retransmissions: Vec<PeerQueue>,
}

impl SendConnectionManager {
    /// The connections.
    pub closed spec fn conns(&self) -> Seq<SendConnection> {
        self.connections@
    }

    /// The fast-retransmit queues.
    pub closed spec fn fast(&self) -> Seq<PeerQueue> {
        self.fast_retransmissions@
    }

    /// The timeout queues.
    pub closed spec fn timeout(&self) -> Seq<PeerQueue> {
        self.timeout_retransmissions@
    }

    /// `self` holds the same connections and queues as `other`.
    pub open spec fn same_as(&self, other: Self) -> bool {
        &&& self.conns() == other.conns()
        &&& self.fast() == other.fast()
        &&& self.timeout() == other.timeout()
    }

    /// Some connection has key `tri`.
    pub open spec fn has(&self, tri: Tri) -> bool {
        exists|i: int| 0 <= i < self.conns().len() && #[trigger] self.conns()[i].key() == tri
    }

    /// The state invariant: each connection well formed, keys unique, one
    /// queue per peer.
    pub open spec fn wf(&self) -> bool {
        &&& forall|i: int| 0 <= i < self.conns().len() ==> (#[trigger] self.conns()[i]).wf()
        &&& unique_keys(self.conns())
        &&& unique_peers(self.fast())
        &&& unique_peers(self.timeout())
    }

    /// No connection, nothing queued.
    pub fn new() -> (r: Self)
        ensures
            r.wf(),
            r.conns().len() == 0,
            r.fast().len() == 0,
            r.timeout().len() == 0,
    {
        SendConnectionManager {
            connections: Vec::new(),
            fast_retransmissions: Vec::new(),
            timeout_retransmissions: Vec::new(),
        }
    }

    /// Number of transfers in flight.
    pub fn len(&self) -> (r: usize)
        ensures
            r == self.conns().len(),
    {
        self.connections.len()
    }

    /// Whether the transfer `tri` is in flight.
    pub fn contains(&self, tri: Tri) -> (r: bool)
        ensures
            r == self.has(tri),
    {
        self.find(tri).is_some()
    }

    /// The position of the connection with key `tri`.
    fn find(&self, tri: Tri) -> (r: Option<usize>)
        ensures
            r matches Some(i) ==> i < self.conns().len() && self.conns()[i as int].key() == tri,
            r is None ==> !self.has(tri),
    {
        find_conn(&self.connections, tri)
    }

    /// Starts the transfer `tri` of the file `data` cut for `mtu`, with the
    /// default retransmit timeout; a transfer under the same key is
    /// replaced. An empty file starts nothing. Fails with `Offset`, changing
    /// nothing, when the file has more than `MAX_OFFSET_LENGTH` fragments.
    pub fn send(&mut self, tri: Tri, data: &Vec<u8>, mtu: usize) -> (r: Result<(), TransferError>)
        requires
            old(self).wf(),
            EFT_HEADER_LENGTH < mtu <= u16::MAX,
        ensures
            final(self).wf(),
            final(self).fast() == old(self).fast(),
            final(self).timeout() == old(self).timeout(),
            ({
                let nf = fragments(data@, (mtu - EFT_HEADER_LENGTH) as nat).len();
                &&& nf > MAX_OFFSET_LENGTH ==> r == Err::<(), _>(TransferError::Offset) && *final(self)
                    == *old(self)
                &&& nf == 0 ==> r is Ok && *final(self) == *old(self)
                &&& 0 < nf <= MAX_OFFSET_LENGTH ==> r is Ok && exists|c: SendConnection|
                    is_new_sender(c, tri, data@, mtu as nat, crate::general::DEFAULT_RTO)
                        && #[trigger] installed(old(self).conns(), final(self).conns(), c)
            }),
    {
        if data.len() == 0 {
            proof {
                assert(fragments(data@, (mtu - EFT_HEADER_LENGTH) as nat).len() == 0);
            }
            return Ok(());
        }
        proof {
            crate::utils::lemma_fragment_sizes(data@, (mtu - EFT_HEADER_LENGTH) as nat);
        }
        let c = SendConnection::enqueue(tri, data, mtu, crate::general::DEFAULT_RTO)?;
        let ghost gc = c;
        assert(is_new_sender(gc, tri, data@, mtu as nat, crate::general::DEFAULT_RTO));
        match self.find(tri) {
            Some(i) => {
                let ghost before = self.conns();
                self.connections.set(i, c);
                proof {
                    assert(is_new_sender(gc, tri, data@, mtu as nat, crate::general::DEFAULT_RTO));
                    assert(0 <= i < before.len() && before[i as int].key() == tri && self.conns()
                        == before.update(i as int, gc));
                    assert(installed(before, self.conns(), gc));
                    assert forall|a: int| 0 <= a < self.conns().len() implies (#[trigger] self.conns()[a]).wf() by {
                        if a != i {
                            assert(self.conns()[a] == before[a]);
                        }
                    }
                    assert(unique_keys(self.conns())) by {
                        assert forall|a: int, b: int| 0 <= a < b < self.conns().len() implies self.conns()[a].key()
                            != self.conns()[b].key() by {
                            if a != i as int {
                                assert(self.conns()[a] == before[a]);
                            }
                            if b != i as int {
                                assert(self.conns()[b] == before[b]);
                            }
                        }
                    }
                }
            },
            None => {
                let ghost before = self.conns();
                self.connections.push(c);
                proof {
                    assert(is_new_sender(gc, tri, data@, mtu as nat, crate::general::DEFAULT_RTO));
                    assert(self.conns() == before.push(gc));
                    assert(installed(before, self.conns(), gc));
                    assert forall|a: int| 0 <= a < self.conns().len() implies (#[trigger] self.conns()[a]).wf() by {
                        if a < before.len() {
                            assert(self.conns()[a] == before[a]);
                        }
                    }
                    assert(unique_keys(self.conns())) by {
                        assert forall|a: int, b: int| 0 <= a < b < self.conns().len() implies self.conns()[a].key()
                            != self.conns()[b].key() by {
                            assert(self.conns()[a] == before[a]);
                            if b < before.len() {
                                assert(self.conns()[b] == before[b]);
                            } else {
                                assert(before[a].key() != tri);
                            }
                        }
                    }
                }
            },
        }
        Ok(())
    }
    /// Records the acknowledgement of `offset` for transfer `tri` (see
    /// `SendConnection::on_ack`). A completed transfer is removed; offsets
    /// due for fast retransmission join the fast queue of the transfer's
    /// peer. `None` when there is no such transfer or fragment, with
    /// nothing changed; a repeated acknowledgement changes nothing either.
    #[verifier::rlimit(40)]
    pub fn on_ack(&mut self, tri: Tri, offset: u16) -> (r: Option<AckOutcome>)
        requires
            old(self).wf(),
        ensures
            final(self).wf(),
            final(self).timeout() == old(self).timeout(),
            acked_for(final(self).conns(), tri, offset as int),
            forall|k: Tri, o: int| acked_for(old(self).conns(), k, o) ==> #[trigger] acked_for(final(self).conns(), k, o),
            forall|ep: EndPoint, e: (u16, u16)|
                queued(old(self).fast(), ep, e) ==> #[trigger] queued(final(self).fast(), ep, e),
            !old(self).has(tri) ==> r is None && final(self).same_as(*old(self)),
            forall|i: int|
                0 <= i < old(self).conns().len() && #[trigger] old(self).conns()[i].key() == tri ==> {
                    let c = old(self).conns()[i];
                    &&& offset >= c.n() ==> r is None && final(self).same_as(*old(self))
                    &&& offset < c.n() && c.acked().contains(offset as int) ==> r == Some(
                        AckOutcome::Idle,
                    ) && final(self).same_as(*old(self))
                    &&& offset < c.n() && !c.acked().contains(offset as int) && c.count() + 1
                        == c.n() ==> r == Some(AckOutcome::Complete) && final(self).conns() == old(self).conns().remove(i)
                    &&& offset < c.n() && !c.acked().contains(offset as int) && c.count() + 1
                        < c.n() ==> {
                        let d = final(self).conns()[i];
                        &&& final(self).conns() == old(self).conns().update(i, d)
                        &&& d.key() == c.key() && d.n() == c.n() && d.packets() == c.packets()
                        &&& d.timers() == c.timers() && d.spec_rto() == c.spec_rto()
                        &&& d.acked() == c.acked().insert(offset as int)
                        &&& d.count() == c.count() + 1
                        &&& r matches Some(AckOutcome::DuplicatesFor(v))
                        &&& v@ == missing_below(d.acked(), offset as int)
                        &&& forall|k: int|
                            0 <= k < v@.len() ==> queued(
                                final(self).fast(),
                                tri.spec_endpoint(),
                                (tri.fileid, #[trigger] v@[k]),
                            )
                    }
                },
    {
        let i = match self.find(tri) {
            Some(i) => i,
            None => {
                return None;
            },
        };
        let ghost before = self.conns();
        proof {
            before[i as int].lemma_count_is_popcount();
        }
        let res = self.connections[i].on_ack(offset);
        proof {
            assert forall|j: int| 0 <= j < self.conns().len() && j != i implies self.conns()[j] == before[j] by {}
            assert forall|j: int| 0 <= j < before.len() && #[trigger] before[j].key() == tri implies j == i by {
                if j < i {
                    assert(before[j].key() != before[i as int].key());
                } else if j > i {
                    assert(before[i as int].key() != before[j].key());
                }
            }
        }
        match res {
            Err(_) => {
                assert(self.conns() =~= before);
                return None;
            },
            Ok(AckOutcome::Idle) => {
                assert(self.conns() =~= before);
                assert(acked_for(before, tri, offset as int));
                return Some(AckOutcome::Idle);
            },
            Ok(AckOutcome::Complete) => {
                self.connections.remove(i);
                proof {
                    let after = self.conns();
                    assert(after == before.remove(i as int));
                    assert forall|k: Tri, o: int| acked_for(before, k, o) implies #[trigger] acked_for(after, k, o) by {
                        assert forall|j: int| 0 <= j < after.len() && #[trigger] after[j].key() == k && o < after[j].n()
                            implies after[j].acked().contains(o) by {
                            let j2 = if j < i { j } else { j + 1 };
                            assert(after[j] == before[j2]);
                        }
                    }
                    assert forall|j: int| 0 <= j < after.len() && #[trigger] after[j].key() == tri && offset < after[j].n()
                        implies after[j].acked().contains(offset as int) by {
                        let j2 = if j < i { j } else { j + 1 };
                        assert(after[j] == before[j2]);
                        assert(before[j2].key() != before[i as int].key());
                    }
                    assert forall|a: int| 0 <= a < after.len() implies (#[trigger] after[a]).wf() by {
                        if a < i {
                            assert(after[a] == before[a]);
                        } else {
                            assert(after[a] == before[a + 1]);
                        }
                    }
                    assert forall|a: int, b: int| 0 <= a < b < after.len() implies after[a].key()
                        != after[b].key() by {
                        let a2 = if a < i { a } else { a + 1 };
                        let b2 = if b < i { b } else { b + 1 };
                        assert(after[a] == before[a2]);
                        assert(after[b] == before[b2]);
                    }
                }
                return Some(AckOutcome::Complete);
            },
            Ok(AckOutcome::DuplicatesFor(v)) => {
                let ep = tri.endpoint();
                let ghost d = self.conns()[i as int];
                assert(self.conns() == before.update(i as int, d));
                let mut k: usize = 0;
                while k < v.len()
                    invariant
                        k <= v@.len(),
                        i < self.conns().len() == old(self).conns().len(),
                        unique_peers(self.fast()),
                        before == old(self).conns(),
                        self.conns() == before.update(i as int, d),
                        self.timeout() == old(self).timeout(),
                        forall|ep2: EndPoint, e: (u16, u16)|
                            queued(old(self).fast(), ep2, e) ==> #[trigger] queued(self.fast(), ep2, e),
                        forall|j: int| 0 <= j < k ==> queued(self.fast(), ep, (tri.fileid, #[trigger] v@[j])),
                    decreases v@.len() - k,
                {
                    queue_insert(&mut self.fast_retransmissions, ep, tri.fileid, v[k]);
                    k = k + 1;
                }
                proof {
                    let after = self.conns();
                    assert forall|a: int, b: int| 0 <= a < b < after.len() implies after[a].key()
                        != after[b].key() by {
                        if a != i {
                            assert(after[a] == before[a]);
                        }
                        if b != i {
                            assert(after[b] == before[b]);
                        }
                    }
                    assert forall|k: Tri, o: int| acked_for(before, k, o) implies #[trigger] acked_for(after, k, o) by {
                        assert forall|j: int| 0 <= j < after.len() && #[trigger] after[j].key() == k && o < after[j].n()
                            implies after[j].acked().contains(o) by {
                            if j != i {
                                assert(after[j] == before[j]);
                            } else {
                                assert(before[j].key() == k && o < before[j].n());
                            }
                        }
                    }
                    assert forall|j: int| 0 <= j < after.len() && #[trigger] after[j].key() == tri && offset < after[j].n()
                        implies after[j].acked().contains(offset as int) by {
                        if j != i {
                            assert(before[j].key() != before[i as int].key());
                        }
                    }
                }
                return Some(AckOutcome::DuplicatesFor(v));
            },
        }
    }
    /// Moves the offsets that `timeouts(now)` reports for each connection
    /// into the timeout queue of its peer.
    pub fn collect_timeouts(&mut self, now: u64)
        requires
            old(self).wf(),
        ensures
            final(self).wf(),
            final(self).conns() == old(self).conns(),
            final(self).fast() == old(self).fast(),
            forall|ep: EndPoint, e: (u16, u16)|
                queued(old(self).timeout(), ep, e) ==> #[trigger] queued(final(self).timeout(), ep, e),
            forall|i: int, k: int|
                0 <= i < old(self).conns().len() && 0 <= k < old(self).conns()[i].expired_below(
                    now,
                    old(self).conns()[i].n() as int,
                ).len() ==> queued(
                    final(self).timeout(),
                    old(self).conns()[i].key().spec_endpoint(),
                    (
                        old(self).conns()[i].key().fileid,
                        #[trigger] old(self).conns()[i].expired_below(
                            now,
                            old(self).conns()[i].n() as int,
                        )[k],
                    ),
                ),
    {
        let ghost cs = self.conns();
        let mut i: usize = 0;
        while i < self.connections.len()
            invariant
                self.wf(),
                cs == old(self).conns(),
                self.conns() == cs,
                self.fast() == old(self).fast(),
                i <= cs.len(),
                forall|ep: EndPoint, e: (u16, u16)|
                    queued(old(self).timeout(), ep, e) ==> #[trigger] queued(self.timeout(), ep, e),
                forall|a: int, k: int|
                    0 <= a < i && 0 <= k < cs[a].expired_below(now, cs[a].n() as int).len()
                        ==> queued(
                        self.timeout(),
                        cs[a].key().spec_endpoint(),
                        (cs[a].key().fileid, #[trigger] cs[a].expired_below(now, cs[a].n() as int)[k]),
                    ),
            decreases cs.len() - i,
        {
            let t = self.connections[i].timeouts(now);
            let tri = self.connections[i].tri();
            let ep = tri.endpoint();
            let mut k: usize = 0;
            while k < t.len()
                invariant
                    self.wf(),
                    self.conns() == cs,
                    self.fast() == old(self).fast(),
                    i < cs.len(),
                    tri == cs[i as int].key(),
                    ep == tri.spec_endpoint(),
                    t@ == cs[i as int].expired_below(now, cs[i as int].n() as int),
                    k <= t@.len(),
                    forall|ep2: EndPoint, e: (u16, u16)|
                        queued(old(self).timeout(), ep2, e) ==> #[trigger] queued(self.timeout(), ep2, e),
                    forall|a: int, k2: int|
                        0 <= a < i && 0 <= k2 < cs[a].expired_below(now, cs[a].n() as int).len()
                            ==> queued(
                            self.timeout(),
                            cs[a].key().spec_endpoint(),
                            (cs[a].key().fileid, #[trigger] cs[a].expired_below(now, cs[a].n() as int)[k2]),
                        ),
                    forall|k2: int| 0 <= k2 < k ==> queued(self.timeout(), ep, (tri.fileid, #[trigger] t@[k2])),
                decreases t@.len() - k,
            {
                queue_insert(&mut self.timeout_retransmissions, ep, tri.fileid, t[k]);
                k = k + 1;
            }
            i = i + 1;
        }
    }

    /// Puts back the send time that fragment `t.offset` of transfer `t.tri`
    /// had before transmission `t`, which the link failed to send: the
    /// fragment is then due again as if it had not been sent. Nothing
    /// changes when the transfer is gone.
    pub fn on_transmit_failed(&mut self, t: &Transmission)
        requires
            old(self).wf(),
        ensures
            final(self).wf(),
            final(self).fast() == old(self).fast(),
            final(self).timeout() == old(self).timeout(),
            !old(self).has(t.tri) ==> final(self).same_as(*old(self)),
            forall|i: int|
                0 <= i < old(self).conns().len() && #[trigger] old(self).conns()[i].key() == t.tri ==> {
                    let c = old(self).conns()[i];
                    let d = final(self).conns()[i];
                    &&& final(self).conns() == old(self).conns().update(i, d)
                    &&& d.key() == c.key() && d.n() == c.n() && d.packets() == c.packets()
                    &&& d.acked() == c.acked() && d.count() == c.count() && d.spec_rto() == c.spec_rto()
                    &&& d.timers() == if t.offset < c.n() {
                        c.timers().update(t.offset as int, t.previous)
                    } else {
                        c.timers()
                    }
                },
    {
        let i = match self.find(t.tri) {
            Some(i) => i,
            None => {
                return;
            },
        };
        let ghost before = self.conns();
        proof {
            assert forall|j: int| 0 <= j < before.len() && #[trigger] before[j].key() == t.tri implies j == i by {
                if j < i {
                    assert(before[j].key() != before[i as int].key());
                } else if j > i {
                    assert(before[i as int].key() != before[j].key());
                }
            }
        }
        self.connections[i].restore_timer(t.offset, t.previous);
        proof {
            let after = self.conns();
            assert forall|j: int| 0 <= j < after.len() && j != i implies after[j] == before[j] by {}
            assert forall|a: int, b: int| 0 <= a < b < after.len() implies after[a].key() != after[b].key() by {
                if a != i {
                    assert(after[a] == before[a]);
                }
                if b != i {
                    assert(after[b] == before[b]);
                }
            }
        }
    }

    /// One scheduler iteration at time `now`: records the acknowledgements
    /// `acks` in order, queues the offsets whose timer expired, then serves
    /// each peer's fast-retransmit queue once and each peer's timeout queue
    /// once. The frames to send come back in that order, at most one per
    /// peer and queue.
    pub fn tick(&mut self, acks: &Vec<(Tri, u16)>, now: u64) -> (r: Vec<Transmission>)
        requires
            old(self).wf(),
        ensures
            final(self).wf(),
            exists|m1: SendConnectionManager, m2: SendConnectionManager|
                (exists|ms: Seq<SendConnectionManager>| ack_chain(*old(self), acks@, ms, m1)) && #[trigger] timeouts_collected(m1, now, m2) && emitted(
                    m2,
                    *final(self),
                    r@,
                ) && (forall|j: int|
                    0 <= j < m2.conns().len() && m2.conns()[j].expired_below(now, m2.conns()[j].n() as int).len() > 0
                        ==> exists|a: int|
                        0 <= a < r@.len() && !r@[a].fast && r@[a].tri.spec_endpoint() == (#[trigger] m2.conns()[j]).key().spec_endpoint()),
            forall|a: int| 0 <= a < acks@.len() ==> acked_for(final(self).conns(), #[trigger] acks@[a].0, acks@[a].1 as int),
            one_per_peer_and_queue(r@),
            forall|a: int| 0 <= a < r@.len() ==> transmission_ok(final(self).conns(), #[trigger] r@[a]),
            forall|j: int|
                0 <= j < final(self).fast().len() ==> (#[trigger] final(self).fast()[j]).pending().len() == 0
                    || exists|a: int|
                    0 <= a < r@.len() && r@[a].fast && r@[a].tri.spec_endpoint() == final(self).fast()[j].spec_peer(),
            forall|j: int|
                0 <= j < final(self).timeout().len() ==> (#[trigger] final(self).timeout()[j]).pending().len()
                    == 0 || exists|a: int|
                    0 <= a < r@.len() && !r@[a].fast && r@[a].tri.spec_endpoint() == final(self).timeout()[j].spec_peer(),
    {
        let ghost m0 = *self;
        let ghost mut ms: Seq<SendConnectionManager> = seq![m0];
        let mut i: usize = 0;
        while i < acks.len()
            invariant
                self.wf(),
                i <= acks@.len(),
                m0 == *old(self),
                forall|a: int| 0 <= a < i ==> acked_for(self.conns(), #[trigger] acks@[a].0, acks@[a].1 as int),
                ms.len() == i + 1,
                ms[0] == m0,
                ms[i as int] == *self,
                forall|k: int| 0 <= k < i ==> ack_step(#[trigger] ms[k], acks@[k].0, acks@[k].1, ms[k + 1]),
            decreases acks@.len() - i,
        {
            let (tri, offset) = acks[i];
            let ghost mb = *self;
            let _ = self.on_ack(tri, offset);
            proof {
                assert(ack_step(mb, tri, offset, *self));
                let ms2 = ms.push(*self);
                assert forall|k: int| 0 <= k < i + 1 implies ack_step(#[trigger] ms2[k], acks@[k].0, acks@[k].1, ms2[k + 1]) by {
                    if k < i {
                        assert(ms2[k] == ms[k] && ms2[k + 1] == ms[k + 1]);
                    }
                }
                ms = ms2;
            }
            i = i + 1;
        }
        let ghost m1 = *self;
        proof {
            assert(ack_chain(m0, acks@, ms, m1));
        }
        self.collect_timeouts(now);
        let ghost m2 = *self;
        proof {
            assert(timeouts_collected(m1, now, m2));
        }
        let ghost acked_conns = self.conns();
        let mut out: Vec<Transmission> = Vec::new();
        emit_from(&mut self.fast_retransmissions, &mut self.connections, true, now, &mut out);
        let ghost n_fast = out@.len();
        let ghost first = out@;
        proof {
            assert forall|j: int| 0 <= j < self.conns().len() implies (#[trigger] self.conns()[j]).wf() by {}
        }
        let ghost fast_qs = self.fast();
        let ghost mid_conns = self.conns();
        emit_from(&mut self.timeout_retransmissions, &mut self.connections, false, now, &mut out);
        proof {
            assert forall|j: int| 0 <= j < m2.fast().len() implies queue_served(m2.fast()[j], #[trigger] self.fast()[j], m2.conns(), out@, true) by {
                lemma_queue_served_extend(m2.fast()[j], fast_qs[j], m2.conns(), first, out@, true);
            }
            assert forall|j: int| 0 <= j < m2.timeout().len() implies queue_served(m2.timeout()[j], #[trigger] self.timeout()[j], m2.conns(), out@, false) by {
                assert(same_but_timers(mid_conns, m2.conns())) by {
                    assert forall|x: int| 0 <= x < m2.conns().len() implies (#[trigger] m2.conns()[x]).wf() by {}
                }
                lemma_queue_served_same(m2.timeout()[j], self.timeout()[j], mid_conns, m2.conns(), out@, false);
            }
            assert(same_but_timers(acked_conns, self.conns()));
            assert forall|a: int| 0 <= a < acks@.len() implies acked_for(self.conns(), #[trigger] acks@[a].0, acks@[a].1 as int) by {
                let k = acks@[a].0;
                let o = acks@[a].1 as int;
                assert(acked_for(acked_conns, k, o));
                assert forall|j: int| 0 <= j < self.conns().len() && #[trigger] self.conns()[j].key() == k && o < self.conns()[j].n()
                    implies self.conns()[j].acked().contains(o) by {
                    assert(acked_conns[j].key() == k);
                }
            }
            assert(self.fast() == fast_qs);
            assert forall|j: int|
                0 <= j < self.fast().len() implies (#[trigger] self.fast()[j]).pending().len() == 0
                    || exists|a: int|
                    0 <= a < out@.len() && out@[a].fast && out@[a].tri.spec_endpoint() == self.fast()[j].spec_peer() by {
                if self.fast()[j].pending().len() != 0 {
                    let a = choose|a: int| 0 <= a < first.len() && first[a].tri.spec_endpoint() == fast_qs[j].spec_peer();
                    assert(out@[a] == out@.take(n_fast as int)[a]);
                }
            }
            assert forall|j: int|
                0 <= j < self.timeout().len() implies (#[trigger] self.timeout()[j]).pending().len() == 0
                    || exists|a: int|
                    0 <= a < out@.len() && !out@[a].fast && out@[a].tri.spec_endpoint() == self.timeout()[j].spec_peer() by {
                if self.timeout()[j].pending().len() != 0 {
                    let a = choose|a: int| n_fast <= a < out@.len() && out@[a].tri.spec_endpoint() == self.timeout()[j].spec_peer();
                    assert(!out@[a].fast);
                }
            }
            assert forall|a: int, b: int| 0 <= a < b < out@.len() implies !(out@[a].tri.spec_endpoint()
                == out@[b].tri.spec_endpoint() && out@[a].fast == out@[b].fast) by {
                if b < n_fast {
                    assert(out@[a] == out@.take(n_fast as int)[a]);
                    assert(out@[b] == out@.take(n_fast as int)[b]);
                    assert(first[a] == out@[a]);
                    assert(first[b] == out@[b]);
                } else if a < n_fast {
                    assert(out@[a] == out@.take(n_fast as int)[a]);
                    assert(first[a].fast == true);
                }
            }
            assert(emitted(m2, *self, out@));
            assert forall|j: int|
                0 <= j < m2.conns().len() && m2.conns()[j].expired_below(now, m2.conns()[j].n() as int).len() > 0
                    implies exists|a: int|
                    0 <= a < out@.len() && !out@[a].fast && out@[a].tri.spec_endpoint() == (#[trigger] m2.conns()[j]).key().spec_endpoint() by {
                let c = m2.conns()[j];
                let ex = c.expired_below(now, c.n() as int);
                c.lemma_expired_below(now, c.n() as int);
                let o = ex[0];
                let ep = c.key().spec_endpoint();
                assert(queued(m2.timeout(), ep, (c.key().fileid, ex[0])));
                let q = choose|q: int| 0 <= q < m2.timeout().len() && m2.timeout()[q].spec_peer() == ep
                    && #[trigger] m2.timeout()[q].pending().contains((c.key().fileid, o));
                assert(queue_served(m2.timeout()[q], self.timeout()[q], m2.conns(), out@, false));
                assert(c.key() == (Tri { src: ep.src, dst: ep.dst, fileid: c.key().fileid }));
                assert(!(o >= c.n() || c.acked().contains(o as int)));
            }
        }
        out
    }
}


/// What frame `f` carries for this protocol: destination, source, header
/// and payload; `None` for a frame too short, of another EtherType, or
/// whose packet does not decode.
pub open spec fn frame_packet(f: Seq<u8>) -> Option<(MacAddress, MacAddress, EftPacketHeader, Seq<u8>)> {
    if f.len() < ETHERNET_HEADER_LENGTH || ether_type_of(f) != EFT_ETHER_TYPE {
        None
    } else {
        match decode(f.skip(ETHERNET_HEADER_LENGTH as int)) {
            Ok((h, p)) => Some((mac_at(f, 0), mac_at(f, 6), h, p)),
            Err(_) => None,
        }
    }
}

/// The frame that acknowledges fragment `offset` of transfer `tri`: from
/// the receiver back to the sender.
pub open spec fn ack_frame(tri: Tri, offset: u16) -> Seq<u8> {
    frame_seq(
        tri.src,
        tri.dst,
        EFT_ETHER_TYPE,
        EftPacketHeader {
            packet_type: EftType::Ack.spec_code(),
            length: EFT_HEADER_LENGTH as u8,
            total_length: EFT_HEADER_LENGTH as u16,
            id: tri.fileid,
            offset,
        }.bytes(),
    )
}

/// Reads the protocol packet of a frame; see `frame_packet`.
#[verifier::rlimit(30)]
pub fn read_frame(frame: &Vec<u8>) -> (r: Option<(MacAddress, MacAddress, EftPacket)>)
    ensures
        match frame_packet(frame@) {
            None => r is None,
            Some((d, s, h, p)) => r matches Some((d2, s2, pk)) && d2 == d && s2 == s && pk.header == h
                && pk.payload@ == p,
        },
{
    let f = match EthernetFrame::parse(frame.as_slice()) {
        Some(f) => f,
        None => {
            return None;
        },
    };
    proof {
        assert(frame@.subrange(12, 14) =~= be16(f.ether_type));
        assert(frame@.skip(ETHERNET_HEADER_LENGTH as int) =~= f.payload@);
    }
    if f.ether_type != EFT_ETHER_TYPE {
        return None;
    }
    match EftPacket::from_raw(f.payload) {
        Ok(p) => Some((f.destination, f.source, p)),
        Err(_) => None,
    }
}

/// The acknowledgement a sender receives in `frame`: the key of its
/// transfer (the frame's destination is the sender) and the offset; `None`
/// for any other frame.
pub fn parse_ack(frame: &Vec<u8>) -> (r: Option<(Tri, u16)>)
    ensures
        r == match frame_packet(frame@) {
            Some((d, s, h, p)) => if h.packet_type == EftType::Ack.spec_code() {
                Some((Tri { src: d, dst: s, fileid: h.id }, h.offset))
            } else {
                None
            },
            None => None,
        },
{
    match read_frame(frame) {
        Some((d, s, p)) => {
            if p.header.packet_type == EftType::Ack.code() {
                Some((Tri { src: d, dst: s, fileid: p.header.id }, p.header.offset))
            } else {
                None
            }
        },
        None => None,
    }
}

/// The bytes of the acknowledgement of fragment `offset` of `tri`.
pub fn build_ack(tri: Tri, offset: u16) -> (r: Vec<u8>)
    ensures
        r@ == ack_frame(tri, offset),
{
    let packet = EftPacket::ack(tri.fileid, offset).raw();
    proof {
        assert(packet@ =~= EftPacketHeader {
            packet_type: EftType::Ack.spec_code(),
            length: EFT_HEADER_LENGTH as u8,
            total_length: EFT_HEADER_LENGTH as u16,
            id: tri.fileid,
            offset,
        }.bytes());
    }
    EthernetFrame::encode(tri.src, tri.dst, EFT_ETHER_TYPE, &packet)
}

/// How long, in milliseconds, a transfer read to the end is remembered, so
/// that its late frames are still acknowledged.
pub const COMPLETED_TTL: u64 = 5000;

/// The entry `e`, made at `e.1`, is still remembered at `now`.
pub open spec fn is_recent(e: (Tri, u64), now: u64) -> bool {
    now - e.1 <= COMPLETED_TTL
}

/// The entries of `s` still remembered at `now`, in order.
pub open spec fn recent_only(s: Seq<(Tri, u64)>, now: u64) -> Seq<(Tri, u64)>
    decreases s.len(),
{
    if s.len() == 0 {
        s
    } else if is_recent(s.last(), now) {
        recent_only(s.drop_last(), now).push(s.last())
    } else {
        recent_only(s.drop_last(), now)
    }
}

/// Transfer `tri` was read to the end and is still remembered at `now`.
pub open spec fn recently_done(done: Seq<(Tri, u64)>, tri: Tri, now: u64) -> bool {
    exists|j: int| 0 <= j < done.len() && (#[trigger] done[j]).0 == tri && is_recent(done[j], now)
}

/// What the receiving side does about one frame.
pub struct RecvAction {
    /// The acknowledgement to send back, if any.
    pub ack: Option<Vec<u8>>,
    /// Whether the frame completed its file.
    pub completed: bool,
}

/// The state of the receiving side of an interface: the open streams, and
/// the transfers read to the end with the time they were read, whose late
/// frames are acknowledged for `COMPLETED_TTL` milliseconds.
pub struct RecvConnectionManager {
    keys: Vec<Tri>,
    connections: Vec<RecvConnection>,
    completed: Vec<(Tri, u64)>,
}

impl RecvConnectionManager {
    /// The keys of the open streams.
    pub closed spec fn keys(&self) -> Seq<Tri> {
        self.keys@
    }

    /// The receiver of each open stream.
    pub closed spec fn conns(&self) -> Seq<RecvConnection> {
        self.connections@
    }

    /// The transfers read to the end, with the time they were read.
    pub closed spec fn done(&self) -> Seq<(Tri, u64)> {
        self.completed@
    }

    /// The state invariant: a receiver per key, keys unique.
    pub open spec fn wf(&self) -> bool {
        &&& self.keys().len() == self.conns().len()
        &&& forall|i: int| 0 <= i < self.conns().len() ==> (#[trigger] self.conns()[i]).wf()
        &&& forall|i: int, j: int| 0 <= i < j < self.keys().len() ==> self.keys()[i] != self.keys()[j]
    }

    /// A stream with key `tri` is open.
    pub open spec fn has(&self, tri: Tri) -> bool {
        self.keys().contains(tri)
    }

    /// `self` holds the same streams as `other`.
    pub open spec fn same_as(&self, other: Self) -> bool {
        &&& self.keys() == other.keys()
        &&& self.conns() == other.conns()
        &&& self.done() == other.done()
    }

    /// No stream open.
    pub fn new() -> (r: Self)
        ensures
            r.wf(),
            r.keys().len() == 0,
            r.done().len() == 0,
    {
        RecvConnectionManager { keys: Vec::new(), connections: Vec::new(), completed: Vec::new() }
    }

    fn find(&self, tri: Tri) -> (r: Option<usize>)
        requires
            self.wf(),
        ensures
            r matches Some(i) ==> i < self.keys().len() && self.keys()[i as int] == tri,
            r is None ==> !self.has(tri),
    {
        let mut i: usize = 0;
        while i < self.keys.len()
            invariant
                i <= self.keys().len(),
                forall|j: int| 0 <= j < i ==> self.keys()[j] != tri,
            decreases self.keys().len() - i,
        {
            if self.keys[i] == tri {
                return Some(i);
            }
            i = i + 1;
        }
        None
    }

    fn is_done(&self, tri: Tri, now: u64) -> (r: bool)
        ensures
            r == recently_done(self.done(), tri, now),
    {
        let mut i: usize = 0;
        while i < self.completed.len()
            invariant
                i <= self.done().len(),
                forall|j: int| 0 <= j < i ==> !((#[trigger] self.done()[j]).0 == tri && is_recent(self.done()[j], now)),
            decreases self.done().len() - i,
        {
            let (t, at) = self.completed[i];
            if t == tri && (now < at || now - at <= COMPLETED_TTL) {
                proof {
                    assert(self.done()[i as int].0 == tri && is_recent(self.done()[i as int], now));
                }
                return true;
            }
            i = i + 1;
        }
        false
    }

    /// Forgets the transfers read to the end that are no longer recent at
    /// `now`.
    fn forget_old(&mut self, now: u64)
        ensures
            final(self).keys() == old(self).keys(),
            final(self).conns() == old(self).conns(),
            final(self).done() == recent_only(old(self).done(), now),
    {
        let mut kept: Vec<(Tri, u64)> = Vec::new();
        let mut i: usize = 0;
        while i < self.completed.len()
            invariant
                i <= self.done().len(),
                kept@ == recent_only(self.done().take(i as int), now),
            decreases self.done().len() - i,
        {
            let e = self.completed[i];
            proof {
                let s = self.done().take(i + 1);
                assert(s.drop_last() =~= self.done().take(i as int));
                assert(s.last() == e);
            }
            if now < e.1 || now - e.1 <= COMPLETED_TTL {
                kept.push(e);
            }
            i = i + 1;
        }
        proof {
            assert(self.done().take(self.done().len() as int) =~= self.done());
        }
        self.completed = kept;
    }

    /// Opens a stream for transfer `tri`, with nothing received; an open
    /// stream under the same key starts over, in its place. The other
    /// streams are kept as they are.
    pub fn stream(&mut self, tri: Tri)
        requires
            old(self).wf(),
        ensures
            final(self).wf(),
            final(self).has(tri),
            final(self).done() == old(self).done(),
            forall|t: Tri| t != tri ==> (#[trigger] old(self).has(t) <==> final(self).has(t)),
            ({
                ||| exists|i: int|
                    0 <= i < old(self).keys().len() && old(self).keys()[i] == tri && final(self).keys()
                        == old(self).keys() && final(self).conns() == old(self).conns().update(i, final(self).conns()[i])
                        && #[trigger] final(self).conns()[i].is_fresh()
                ||| !old(self).has(tri) && final(self).keys() == old(self).keys().push(tri) && final(self).conns()
                    == old(self).conns().push(final(self).conns().last()) && final(self).conns().last().is_fresh()
            }),
    {
        let c = RecvConnection::new();
        match self.find(tri) {
            Some(i) => {
                let ghost before = self.conns();
                self.connections.set(i, c);
                proof {
                    assert(self.keys()[i as int] == tri);
                    assert(self.conns() == before.update(i as int, self.conns()[i as int]));
                    assert(self.conns()[i as int].is_fresh());
                    assert forall|j: int| 0 <= j < self.keys().len() && self.keys()[j] == tri implies j == i by {
                        if j != i {
                            assert(self.keys()[j] != self.keys()[i as int]);
                        }
                    }
                }
            },
            None => {
                let ghost before = self.keys();
                self.keys.push(tri);
                self.connections.push(c);
                proof {
                    assert(self.keys()[before.len() as int] == tri);
                    assert forall|t: Tri| t != tri implies (#[trigger] before.contains(t) <==> self.keys().contains(t)) by {
                        if self.keys().contains(t) {
                            let j = choose|j: int| 0 <= j < self.keys().len() && self.keys()[j] == t;
                            assert(before[j] == t);
                        }
                        if before.contains(t) {
                            let j = choose|j: int| 0 <= j < before.len() && before[j] == t;
                            assert(self.keys()[j] == t);
                        }
                    }
                    assert forall|a: int, b: int| 0 <= a < b < self.keys().len() implies self.keys()[a]
                        != self.keys()[b] by {
                        if b == before.len() {
                            assert(before[a] != tri);
                        }
                    }
                }
            },
        }
    }
    /// Handles one received frame. A data packet of an open stream is
    /// recorded (see `RecvConnection::on_data`) and acknowledged, a repeated
    /// one too; a data packet of a transfer read to the end at most
    /// `COMPLETED_TTL` milliseconds before `now` is acknowledged and nothing
    /// else. Anything else, and an offset beyond
    /// `MAX_OFFSET_LENGTH`, is dropped.
    pub fn on_frame(&mut self, frame: &Vec<u8>, now: u64) -> (r: RecvAction)
        requires
            old(self).wf(),
        ensures
            final(self).wf(),
            final(self).keys() == old(self).keys(),
            final(self).done() == old(self).done(),
            match frame_packet(frame@) {
                None => r.ack is None && !r.completed && final(self).same_as(*old(self)),
                Some((d, s, h, p)) => {
                    let tri = Tri { src: s, dst: d, fileid: h.id };
                    if h.packet_type == EftType::Ack.spec_code() {
                        r.ack is None && !r.completed && final(self).same_as(*old(self))
                    } else if old(self).has(tri) {
                        forall|i: int|
                            0 <= i < old(self).keys().len() && #[trigger] old(self).keys()[i] == tri
                                ==> {
                                let c = old(self).conns()[i];
                                let c2 = final(self).conns()[i];
                                if h.offset >= MAX_OFFSET_LENGTH {
                                    r.ack is None && !r.completed && final(self).same_as(*old(self))
                                } else if c.received().contains(h.offset as int) {
                                    (r.ack matches Some(a) && a@ == ack_frame(tri, h.offset))
                                        && !r.completed && final(self).same_as(*old(self))
                                } else {
                                    &&& r.ack matches Some(a) && a@ == ack_frame(tri, h.offset)
                                    &&& final(self).conns() == old(self).conns().update(i, c2)
                                    &&& c2.received() == c.received().insert(h.offset as int)
                                    &&& c2.count() == c.count() + 1
                                    &&& c2.payloads() == c.payloads().update(h.offset as int, p)
                                    &&& c2.declared() == if h.packet_type
                                        == EftType::DataEnd.spec_code() {
                                        Some((h.offset + 1) as nat)
                                    } else {
                                        c.declared()
                                    }
                                    &&& r.completed == c2.complete()
                                }
                            }
                    } else if recently_done(old(self).done(), tri, now) {
                        (r.ack matches Some(a) && a@ == ack_frame(tri, h.offset)) && !r.completed
                            && final(self).same_as(*old(self))
                    } else {
                        r.ack is None && !r.completed && final(self).same_as(*old(self))
                    }
                },
            },
    {
        let none = RecvAction { ack: None, completed: false };
        let (d, s, packet) = match read_frame(frame) {
            Some(x) => x,
            None => {
                return none;
            },
        };
        if packet.header.packet_type == EftType::Ack.code() {
            return none;
        }
        let tri = Tri { src: s, dst: d, fileid: packet.header.id };
        match self.find(tri) {
            Some(i) => {
                let ghost before = self.conns();
                proof {
                    assert forall|j: int| 0 <= j < self.keys().len() && #[trigger] self.keys()[j] == tri implies j == i by {
                        if j != i {
                            assert(self.keys()[j] != self.keys()[i as int]);
                        }
                    }
                }
                let res = self.connections[i].on_data(
                    packet.header.offset,
                    packet.header.packet_type,
                    &packet.payload,
                );
                proof {
                    assert forall|j: int| 0 <= j < self.conns().len() && j != i implies self.conns()[j] == before[j] by {}
                }
                match res {
                    Ok(b) => {
                        proof {
                            if before[i as int].received().contains(packet.header.offset as int) {
                                assert(self.conns() =~= before);
                            }
                        }
                        RecvAction { ack: Some(build_ack(tri, packet.header.offset)), completed: b }
                    },
                    Err(_) => {
                        assert(self.conns() =~= before);
                        none
                    },
                }
            },
            None => {
                if self.is_done(tri, now) {
                    RecvAction { ack: Some(build_ack(tri, packet.header.offset)), completed: false }
                } else {
                    none
                }
            },
        }
    }

    /// Takes the file of stream `tri` once complete, at time `now`: the
    /// stream is closed and the transfer remembered as read at `now`, while
    /// the transfers read more than `COMPLETED_TTL` milliseconds ago are
    /// forgotten. `Ok(None)`, with nothing
    /// changed, while fragments are missing. Fails with `StreamTerminated`
    /// when no such stream is open.
    pub fn read(&mut self, tri: Tri, now: u64) -> (r: Result<Option<Vec<u8>>, TransferError>)
        requires
            old(self).wf(),
        ensures
            final(self).wf(),
            !old(self).has(tri) ==> r == Err::<Option<Vec<u8>>, _>(TransferError::StreamTerminated)
                && final(self).same_as(*old(self)),
            forall|i: int|
                0 <= i < old(self).keys().len() && #[trigger] old(self).keys()[i] == tri ==> {
                    let c = old(self).conns()[i];
                    &&& !c.complete() ==> (r matches Ok(None) && final(self).same_as(*old(self)))
                    &&& c.complete() ==> {
                        &&& r matches Ok(Some(v)) && v@ == c.payloads().take(c.count() as int).flatten()
                        &&& final(self).keys() == old(self).keys().remove(i)
                        &&& final(self).conns() == old(self).conns().remove(i)
                        &&& final(self).done() == recent_only(old(self).done(), now).push((tri, now))
                    }
                },
    {
        let i = match self.find(tri) {
            Some(i) => i,
            None => {
                return Err(TransferError::StreamTerminated);
            },
        };
        proof {
            assert forall|j: int| 0 <= j < self.keys().len() && #[trigger] self.keys()[j] == tri implies j == i by {
                if j != i {
                    assert(self.keys()[j] != self.keys()[i as int]);
                }
            }
        }
        match self.connections[i].assemble() {
            None => Ok(None),
            Some(v) => {
                let ghost keys = self.keys();
                let ghost conns = self.conns();
                self.keys.remove(i);
                self.connections.remove(i);
                self.forget_old(now);
                self.completed.push((tri, now));
                proof {
                    assert forall|a: int| 0 <= a < self.conns().len() implies (#[trigger] self.conns()[a]).wf() by {
                        if a < i {
                            assert(self.conns()[a] == conns[a]);
                        } else {
                            assert(self.conns()[a] == conns[a + 1]);
                        }
                    }
                    assert forall|a: int, b: int| 0 <= a < b < self.keys().len() implies self.keys()[a]
                        != self.keys()[b] by {
                        let a2 = if a < i { a } else { a + 1 };
                        let b2 = if b < i { b } else { b + 1 };
                        assert(self.keys()[a] == keys[a2]);
                        assert(self.keys()[b] == keys[b2]);
                    }
                }
                Ok(Some(v))
            },
        }
    }
}

} // verus!
