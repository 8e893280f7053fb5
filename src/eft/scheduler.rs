//! Per-peer retransmission queues and their round-robin order.
use vstd::prelude::*;

use crate::eft::connection::EndPoint;

verus! {

/// The order in which `pop_next` serves entries: files after the last one
/// served come first, by file id then offset; then the others, by file id
/// then offset.
pub open spec fn rr_key(e: (u16, u16), last: Option<u16>) -> int {
    let base = e.0 as int * 0x10000 + e.1 as int;
    match last {
        Some(l) => if e.0 > l {
            base
        } else {
            0x1_0000_0000 + base
        },
        None => base,
    }
}

/// The pending (file id, offset) pairs toward one peer.
pub struct PeerQueue {
    peer: EndPoint,
    entries: Vec<(u16, u16)>,
    last_file: Option<u16>,
}

impl PeerQueue {
    /// The peer the queue serves.
    pub closed spec fn spec_peer(&self) -> EndPoint {
        self.peer
    }

    /// The pending entries.
    pub closed spec fn pending(&self) -> Seq<(u16, u16)> {
        self.entries@
    }

    /// The file served last.
    pub closed spec fn last(&self) -> Option<u16> {
        self.last_file
    }

    /// An empty queue toward `peer`.
    pub fn new(peer: EndPoint) -> (r: Self)
        ensures
            r.spec_peer() == peer,
            r.pending().len() == 0,
            r.last() is None,
    {
        PeerQueue { peer, entries: Vec::new(), last_file: None }
    }

    /// The peer the queue serves.
    pub fn peer(&self) -> (r: EndPoint)
        ensures
            r == self.spec_peer(),
    {
        self.peer
    }

    /// Number of pending entries.
    pub fn len(&self) -> (r: usize)
        ensures
            r == self.pending().len(),
    {
        self.entries.len()
    }

    /// Adds an entry unless it is pending already.
    pub fn insert(&mut self, fileid: u16, offset: u16)
        ensures
            final(self).spec_peer() == old(self).spec_peer(),
            final(self).last() == old(self).last(),
            old(self).pending().contains((fileid, offset)) ==> final(self).pending() == old(self).pending(),
            !old(self).pending().contains((fileid, offset)) ==> final(self).pending() == old(self).pending().push((fileid, offset)),
            final(self).pending().contains((fileid, offset)),
            forall|e: (u16, u16)| old(self).pending().contains(e) ==> #[trigger] final(self).pending().contains(e),
    {
        let mut i: usize = 0;
        while i < self.entries.len()
            invariant
                i <= self.entries@.len(),
                forall|j: int| 0 <= j < i ==> self.entries@[j] != (fileid, offset),
            decreases self.entries@.len() - i,
        {
            let e = self.entries[i];
            if e.0 == fileid && e.1 == offset {
                return;
            }
            i = i + 1;
        }
        let ghost before = self.entries@;
        self.entries.push((fileid, offset));
        proof {
            assert(self.entries@[before.len() as int] == (fileid, offset));
            assert forall|e: (u16, u16)| before.contains(e) implies #[trigger] self.entries@.contains(e) by {
                let j = choose|j: int| 0 <= j < before.len() && before[j] == e;
                assert(self.entries@[j] == e);
            }
        }
    }

    /// Takes out the entry that comes first in round-robin order (see
    /// `rr_key`); `None` when nothing is pending.
    pub fn pop_next(&mut self) -> (r: Option<(u16, u16)>)
        ensures
            final(self).spec_peer() == old(self).spec_peer(),
            old(self).pending().len() == 0 ==> r is None && *final(self) == *old(self),
            old(self).pending().len() > 0 ==> exists|i: int|
                0 <= i < old(self).pending().len() && r == Some(old(self).pending()[i]) && final(self).pending() == old(self).pending().remove(i),
            final(self).last() == old(self).last(),
            forall|x: (u16, u16)| #[trigger] final(self).pending().contains(x) ==> old(self).pending().contains(x),
            forall|x: (u16, u16)|
                old(self).pending().contains(x) && r != Some(x) ==> #[trigger] final(self).pending().contains(x),
            r matches Some(e) ==> old(self).pending().contains(e),
            final(self).pending().len() <= old(self).pending().len(),
            r matches Some(e) ==> {
                &&& forall|j: int|
                    0 <= j < old(self).pending().len() ==> rr_key(e, old(self).last()) <= rr_key(
                        #[trigger] old(self).pending()[j],
                        old(self).last(),
                    )
            },
    {
        if self.entries.len() == 0 {
            return None;
        }
        let mut best: usize = 0;
        let mut best_key: u64 = self.key_of(0);
        let mut i: usize = 1;
        while i < self.entries.len()
            invariant
                1 <= i <= self.entries@.len(),
                best < self.entries@.len(),
                best_key == rr_key(self.entries@[best as int], self.last_file),
                forall|j: int|
                    0 <= j < i ==> best_key <= rr_key(#[trigger] self.entries@[j], self.last_file),
            decreases self.entries@.len() - i,
        {
            let k = self.key_of(i);
            if k < best_key {
                best = i;
                best_key = k;
            }
            i = i + 1;
        }
        let ghost before = self.entries@;
        let e = self.entries.remove(best);
        proof {
            assert(before[best as int] == e);
            assert forall|x: (u16, u16)| #[trigger] self.entries@.contains(x) implies before.contains(x) by {
                let j = choose|j: int| 0 <= j < self.entries@.len() && self.entries@[j] == x;
                if j < best {
                    assert(before[j] == x);
                } else {
                    assert(before[j + 1] == x);
                }
            }
            assert forall|x: (u16, u16)| before.contains(x) && Some(e) != Some(x) implies #[trigger] self.entries@.contains(x) by {
                let j = choose|j: int| 0 <= j < before.len() && before[j] == x;
                if j < best {
                    assert(self.entries@[j] == x);
                } else {
                    assert(j != best);
                    assert(self.entries@[j - 1] == x);
                }
            }
        }
        Some(e)
    }

    /// Records `fileid` as the file served last.
    pub fn mark_served(&mut self, fileid: u16)
        ensures
            final(self).spec_peer() == old(self).spec_peer(),
            final(self).pending() == old(self).pending(),
            final(self).last() == Some(fileid),
    {
        self.last_file = Some(fileid);
    }

    fn key_of(&self, i: usize) -> (r: u64)
        requires
            i < self.entries@.len(),
        ensures
            r == rr_key(self.entries@[i as int], self.last_file),
    {
        let e = self.entries[i];
        let base: u64 = e.0 as u64 * 0x10000 + e.1 as u64;
        match self.last_file {
            Some(l) => if e.0 > l {
                base
            } else {
                0x1_0000_0000 + base
            },
            None => base,
        }
    }
}

} // verus!
