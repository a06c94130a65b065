//! The write-ahead log: the ordered, durable record of committed
//! mutations that the last checkpoint has not yet captured.
//!
//! Every commit appends its records here, in commit-LSN order, before
//! the operation reports success; the embedding layer persists each
//! appended record (with a flush to stable storage) at that point, so a
//! crash after success always finds the record on disk. Recovery replays
//! the log over the checkpoint image to rebuild the memtable and the LSN
//! counter exactly as they were. Truncation discards only records below
//! a checkpoint watermark that is itself at or below every active
//! snapshot.

use vstd::prelude::*;

use crate::record::{Record, RecordView, recs_view};

verus! {

/// The in-memory form of the log: the records since the last truncation.
pub struct Wal {
    pub recs: Vec<Record>,
}

impl View for Wal {
    type V = Seq<RecordView>;

    open spec fn view(&self) -> Seq<RecordView> {
        recs_view(self.recs@)
    }
}

impl Wal {
    /// An empty log.
    pub fn new() -> (r: Wal)
        ensures
            r@ == Seq::<RecordView>::empty(),
    {
        let w = Wal { recs: Vec::new() };
        proof {
            assert(w@ =~= Seq::<RecordView>::empty());
        }
        w
    }

    /// Appends one committed mutation record.
    pub fn append(&mut self, rec: Record)
        ensures
            final(self)@ == old(self)@.push(rec@),
    {
        self.recs.push(rec);
        proof {
            assert(self@ =~= old(self)@.push(rec@));
        }
    }

    /// Discards the first `cut` records, all captured by a checkpoint.
    pub fn truncate_prefix(&mut self, cut: usize)
        requires
            cut <= old(self)@.len(),
        ensures
            final(self)@ == old(self)@.skip(cut as int),
    {
        let tail = self.recs.split_off(cut);
        self.recs = tail;
        proof {
            assert(self@ =~= old(self)@.skip(cut as int));
        }
    }

    /// The records currently in the log, oldest first; what the
    /// embedding layer must hold on stable storage.
    pub fn records(&self) -> (r: &Vec<Record>)
        ensures
            recs_view(r@) == self@,
    {
        &self.recs
    }
}

} // verus!
