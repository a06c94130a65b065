//! The memtable: the in-memory, multi-version table of committed
//! mutations that have not yet been flushed into a checkpoint image.
//!
//! It is kept as the append-only sequence of committed records since the
//! last checkpoint, in commit order — a per-key version chain indexed by
//! key and LSN. A read under a snapshot walks the sequence from the most
//! recent record backwards and returns the first record for the key whose
//! LSN is at or below the snapshot, so readers under an old snapshot keep
//! seeing the version their snapshot fixed, whatever commits later.

use vstd::prelude::*;

use crate::record::{bytes_eq, opt_bytes_clone, Record, RecordView, opt2_view, recs_view};

verus! {

/// The in-memory table of recent committed versions.
pub struct Memtable {
    pub recs: Vec<Record>,
}

impl View for Memtable {
    type V = Seq<RecordView>;

    open spec fn view(&self) -> Seq<RecordView> {
        recs_view(self.recs@)
    }
}

/// Commit LSNs never decrease along the record sequence.
pub open spec fn lsns_nondecreasing(rs: Seq<RecordView>) -> bool {
    forall|i: int, j: int| 0 <= i <= j < rs.len() ==> rs[i].lsn <= rs[j].lsn
}

/// Every LSN in the sequence lies in the half-open window `(lo, hi]`.
pub open spec fn lsns_in_window(rs: Seq<RecordView>, lo: u64, hi: u64) -> bool {
    forall|i: int| 0 <= i < rs.len() ==> lo < rs[i].lsn && rs[i].lsn <= hi
}

/// The version of `k` visible at snapshot `s`: the value of the record
/// for `k` with the greatest LSN at or below `s`, if the sequence holds
/// one. `Some(None)` is a visible tombstone; `None` means the sequence
/// has no visible version and the reader falls through to the checkpoint
/// image.
pub open spec fn last_visible(rs: Seq<RecordView>, k: Seq<u8>, s: u64) -> Option<Option<Seq<u8>>>
    decreases rs.len(),
{
    if rs.len() == 0 {
        None
    } else if rs.last().key == k && rs.last().lsn <= s {
        Some(rs.last().value)
    } else {
        last_visible(rs.drop_last(), k, s)
    }
}

/// Whether some record for `k` has an LSN strictly above `s` — the
/// write-write conflict test for a transaction whose snapshot is `s`.
pub open spec fn written_after(rs: Seq<RecordView>, k: Seq<u8>, s: u64) -> bool {
    exists|i: int| 0 <= i < rs.len() && rs[i].key == k && rs[i].lsn > s
}

impl Memtable {
    /// An empty memtable.
    pub fn new() -> (r: Memtable)
        ensures
            r@ == Seq::<RecordView>::empty(),
    {
        let m = Memtable { recs: Vec::new() };
        proof {
            assert(m@ =~= Seq::<RecordView>::empty());
        }
        m
    }

    /// Applies one committed mutation: appends it to the version chains.
    pub fn apply(&mut self, rec: Record)
        ensures
            final(self)@ == old(self)@.push(rec@),
    {
        self.recs.push(rec);
        proof {
            assert(self@ =~= old(self)@.push(rec@));
        }
    }

    /// The version of `key` visible at snapshot `snapshot`, or `None` if
    /// the memtable holds none and the caller must consult the
    /// checkpoint image.
    pub fn get(&self, key: &Vec<u8>, snapshot: u64) -> (r: Option<Option<Vec<u8>>>)
        ensures
            opt2_view(r) == last_visible(self@, key@, snapshot),
    {
        let mut i: usize = self.recs.len();
        proof {
            assert(self@.take(self@.len() as int) =~= self@);
        }
        while i > 0
            invariant
                i <= self@.len(),
                self@.len() == self.recs@.len(),
                last_visible(self@, key@, snapshot) == last_visible(
                    self@.take(i as int),
                    key@,
                    snapshot,
                ),
            decreases i,
        {
            i -= 1;
            proof {
                assert(self@.take(i + 1 as int).last() == self@[i as int]);
                assert(self@.take(i + 1 as int).drop_last() =~= self@.take(i as int));
                assert(self@[i as int] == self.recs@[i as int]@);
            }
            let rec = &self.recs[i];
            if rec.lsn <= snapshot && bytes_eq(&rec.key, key) {
                return Some(opt_bytes_clone(&rec.value));
            }
        }
        None
    }

    /// Whether some committed record for `key` carries an LSN above
    /// `snapshot`.
    pub fn has_newer(&self, key: &Vec<u8>, snapshot: u64) -> (r: bool)
        ensures
            r == written_after(self@, key@, snapshot),
    {
        let mut i: usize = 0;
        while i < self.recs.len()
            invariant
                i <= self@.len(),
                self@.len() == self.recs@.len(),
                forall|j: int|
                    0 <= j < i ==> !(self@[j].key == key@ && self@[j].lsn > snapshot),
            decreases self@.len() - i,
        {
            proof {
                assert(self@[i as int] == self.recs@[i as int]@);
            }
            let rec = &self.recs[i];
            if rec.lsn > snapshot && bytes_eq(&rec.key, key) {
                return true;
            }
            i += 1;
        }
        false
    }

    /// Discards the first `cut` records, keeping the suffix; used once a
    /// checkpoint has flattened that prefix into the image.
    pub fn drop_prefix(&mut self, cut: usize)
        requires
            cut <= old(self)@.len(),
        ensures
            final(self)@ == old(self)@.skip(cut as int),
    {
        let tail = self.recs.split_off(cut);
        self.recs = tail;
        proof {
            assert(self@ =~= old(self)@.skip(cut as int));
        }
    }
}

} // verus!
