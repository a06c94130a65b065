//! The snapshot manager: the registry of active read snapshots.
//!
//! Every transaction reads "as of" the LSN it captured when it began.
//! The manager tracks which snapshot LSNs are still held by live
//! transactions, so that checkpointing never flattens a version some
//! active snapshot still needs: the checkpoint watermark is capped at
//! the minimum active snapshot LSN.

use vstd::prelude::*;

verus! {

/// One active snapshot: the reader's identity and the LSN it reads at.
#[derive(Clone, Copy, Debug, PartialEq, Eq, Structural)]
pub struct Snap {
    pub txn_id: u64,
    pub lsn: u64,
}

/// The registry of active snapshots.
pub struct SnapshotManager {
    pub active: Vec<Snap>,
}

/// The minimum LSN among the given snapshots, if any are active.
pub open spec fn min_snap(ss: Seq<Snap>) -> Option<u64>
    decreases ss.len(),
{
    if ss.len() == 0 {
        None
    } else {
        match min_snap(ss.drop_last()) {
            None => Some(ss.last().lsn),
            Some(m) => if ss.last().lsn < m {
                Some(ss.last().lsn)
            } else {
                Some(m)
            },
        }
    }
}

/// The registry with every snapshot of transaction `id` removed.
pub open spec fn without_txn(ss: Seq<Snap>, id: u64) -> Seq<Snap>
    decreases ss.len(),
{
    if ss.len() == 0 {
        Seq::empty()
    } else if ss.last().txn_id == id {
        without_txn(ss.drop_last(), id)
    } else {
        without_txn(ss.drop_last(), id).push(ss.last())
    }
}

/// Whether transaction `id` holds snapshot `lsn`.
pub open spec fn snap_in(ss: Seq<Snap>, id: u64, lsn: u64) -> bool {
    exists|i: int| 0 <= i < ss.len() && ss[i].txn_id == id && ss[i].lsn == lsn
}

/// Every registered snapshot LSN lies in `[lo, hi]`.
pub open spec fn snaps_in_window(ss: Seq<Snap>, lo: u64, hi: u64) -> bool {
    forall|i: int| 0 <= i < ss.len() ==> lo <= ss[i].lsn && ss[i].lsn <= hi
}

/// The minimum active snapshot is itself a registered LSN, so it lies in
/// any window that bounds them all.
pub proof fn lemma_min_snap_in_window(ss: Seq<Snap>, lo: u64, hi: u64)
    requires
        snaps_in_window(ss, lo, hi),
    ensures
        match min_snap(ss) {
            Some(m) => lo <= m && m <= hi,
            None => true,
        },
    decreases ss.len(),
{
    if ss.len() > 0 {
        assert(snaps_in_window(ss.drop_last(), lo, hi));
        lemma_min_snap_in_window(ss.drop_last(), lo, hi);
        assert(ss.last() == ss[ss.len() - 1]);
    }
}

/// The minimum active snapshot is a lower bound on every registered
/// snapshot.
pub proof fn lemma_min_snap_le(ss: Seq<Snap>, i: int)
    requires
        0 <= i < ss.len(),
    ensures
        min_snap(ss) is Some,
        min_snap(ss)->Some_0 <= ss[i].lsn,
    decreases ss.len(),
{
    if i == ss.len() - 1 {
        assert(ss.last() == ss[i]);
    } else {
        lemma_min_snap_le(ss.drop_last(), i);
    }
}

impl SnapshotManager {
    /// An empty registry.
    pub fn new() -> (r: SnapshotManager)
        ensures
            r.active@ == Seq::<Snap>::empty(),
    {
        let m = SnapshotManager { active: Vec::new() };
        proof {
            assert(m.active@ =~= Seq::<Snap>::empty());
        }
        m
    }

    /// Registers a snapshot for a new reader.
    pub fn acquire(&mut self, txn_id: u64, lsn: u64)
        ensures
            final(self).active@ == old(self).active@.push(Snap { txn_id, lsn }),
    {
        self.active.push(Snap { txn_id, lsn });
    }

    /// Deregisters every snapshot the given transaction holds.
    pub fn release(&mut self, txn_id: u64)
        ensures
            final(self).active@ == without_txn(old(self).active@, txn_id),
    {
        let ghost orig = self.active@;
        let mut kept: Vec<Snap> = Vec::new();
        let mut i: usize = 0;
        proof {
            assert(orig.take(0) =~= Seq::<Snap>::empty());
        }
        while i < self.active.len()
            invariant
                i <= orig.len(),
                self.active@ == orig,
                kept@ == without_txn(orig.take(i as int), txn_id),
            decreases orig.len() - i,
        {
            proof {
                assert(orig.take(i + 1 as int).drop_last() =~= orig.take(i as int));
                assert(orig.take(i + 1 as int).last() == orig[i as int]);
            }
            let s = self.active[i];
            if s.txn_id != txn_id {
                kept.push(s);
            }
            i += 1;
        }
        proof {
            assert(orig.take(orig.len() as int) =~= orig);
        }
        self.active = kept;
    }

    /// The minimum LSN among active snapshots, if any reader is active.
    pub fn min_active(&self) -> (r: Option<u64>)
        ensures
            r == min_snap(self.active@),
    {
        let mut acc: Option<u64> = None;
        let mut i: usize = 0;
        proof {
            assert(self.active@.take(0) =~= Seq::<Snap>::empty());
        }
        while i < self.active.len()
            invariant
                i <= self.active@.len(),
                acc == min_snap(self.active@.take(i as int)),
            decreases self.active@.len() - i,
        {
            proof {
                assert(self.active@.take(i + 1 as int).drop_last() =~= self.active@.take(i as int));
                assert(self.active@.take(i + 1 as int).last() == self.active@[i as int]);
            }
            let s = self.active[i];
            acc = match acc {
                None => Some(s.lsn),
                Some(m) => if s.lsn < m {
                    Some(s.lsn)
                } else {
                    Some(m)
                },
            };
            i += 1;
        }
        proof {
            assert(self.active@.take(self.active@.len() as int) =~= self.active@);
        }
        acc
    }
}

} // verus!
