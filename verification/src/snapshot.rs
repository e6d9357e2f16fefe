//! The list of live snapshots.

use vstd::prelude::*;

verus! {

/// A pinned sequence number: reads through it see the entries at or below it.
#[derive(Clone, Copy, Debug, PartialEq, Eq, Structural)]
pub struct Snapshot {
    id: u64,
    seq: u64,
}

impl Snapshot {
    /// The sequence number that the snapshot pins.
    pub closed spec fn spec_sequence(&self) -> u64 {
        self.seq
    }

    /// The sequence number that the snapshot pins.
    pub fn sequence(&self) -> (r: u64)
        ensures
            r == self.spec_sequence(),
    {
        self.seq
    }
}

/// The live snapshots, oldest first.
#[derive(Debug)]
pub struct SnapshotList {
    live: Vec<Snapshot>,
    next_id: u64,
}

impl SnapshotList {
    /// The sequence numbers pinned, in the order in which they were taken.
    pub closed spec fn view(&self) -> Seq<u64> {
        Seq::new(self.live@.len(), |i: int| self.live@[i].seq)
    }

    /// The snapshots that are live, oldest first.
    pub closed spec fn snapshots(&self) -> Seq<Snapshot> {
        self.live@
    }

    /// A list without snapshots.
    pub fn new() -> (r: SnapshotList)
        ensures
            r@ == Seq::<u64>::empty(),
            r.snapshots() == Seq::<Snapshot>::empty(),
    {
        let r = SnapshotList { live: Vec::new(), next_id: 0 };
        assert(r@ =~= Seq::<u64>::empty());
        r
    }

    /// Pins `seq`.
    pub fn new_snapshot(&mut self, seq: u64) -> (r: Snapshot)
        ensures
            r.spec_sequence() == seq,
            final(self)@ == old(self)@.push(seq),
            final(self).snapshots() == old(self).snapshots().push(r),
    {
        let snap = Snapshot { id: self.next_id, seq };
        self.next_id = self.next_id.wrapping_add(1);
        self.live.push(snap);
        assert(self@ =~= old(self)@.push(seq));
        snap
    }

    /// Lets go of `snap`: the oldest live snapshot equal to it leaves the
    /// list. Returns whether there was one.
    pub fn release(&mut self, snap: Snapshot) -> (r: bool)
        ensures
            r == old(self).snapshots().contains(snap),
            !r ==> final(self)@ == old(self)@ && final(self).snapshots() == old(self).snapshots(),
            r ==> exists|j: int|
                0 <= j < old(self).snapshots().len() && old(self).snapshots()[j] == snap && (forall|
                    k: int,
                | 0 <= k < j ==> old(self).snapshots()[k] != snap) && final(self).snapshots() == old(
                    self,
                ).snapshots().remove(j) && final(self)@ == old(self)@.remove(j),
    {
        let mut i: usize = 0;
        while i < self.live.len()
            invariant
                i <= self.live@.len(),
                self.live == old(self).live,
                self.next_id == old(self).next_id,
                forall|k: int| 0 <= k < i ==> self.live@[k] != snap,
            decreases self.live.len() - i,
        {
            if self.live[i].id == snap.id && self.live[i].seq == snap.seq {
                assert(old(self).live@[i as int] == snap);
                self.live.remove(i);
                assert(self@ =~= old(self)@.remove(i as int));
                assert(self.snapshots() == old(self).snapshots().remove(i as int));
                return true;
            }
            i += 1;
        }
        false
    }

    /// Whether no snapshot is live.
    pub fn empty(&self) -> (r: bool)
        ensures
            r == (self@.len() == 0),
    {
        self.live.len() == 0
    }

    /// The sequence number of the oldest live snapshot.
    pub fn oldest(&self) -> (r: u64)
        requires
            self@.len() > 0,
        ensures
            r == self@[0],
    {
        self.live[0].seq
    }

    /// The sequence number at or below which a merge may drop obsolete
    /// entries: that of the oldest live snapshot, or `last_seq` where none is
    /// live.
    pub fn smallest_seq(&self, last_seq: u64) -> (r: u64)
        ensures
            r == if self@.len() == 0 {
                last_seq
            } else {
                self@[0]
            },
    {
        if self.empty() {
            last_seq
        } else {
            self.oldest()
        }
    }
}

} // verus!
