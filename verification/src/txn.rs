//! Transactions: snapshot-isolated, optimistically validated units of
//! work.
//!
//! A transaction captures its read snapshot when it begins and buffers
//! its writes privately: its own reads see them, nobody else's do. At
//! commit, validation applies first-committer-wins: if any key in the
//! write set was committed by someone else after this transaction's
//! snapshot, the commit fails with a conflict and the transaction
//! aborts with no WAL or memtable effect. Otherwise one fresh LSN is
//! assigned and every buffered write is appended to the WAL and applied
//! to the memtable under it, atomically from every reader's viewpoint:
//! snapshots below the commit LSN keep reading exactly what they read
//! before — that is the snapshot-isolation guarantee — and snapshots at
//! or above it see the whole write set.
//!
//! The state tag is checked on every entry point: a committed or
//! aborted transaction is inert, and every further operation on it
//! fails with an invalid-state error, except `abort`, which is an
//! idempotent no-op on a terminal transaction.

use vstd::prelude::*;

use crate::codec::{flat_key, flat_key_spec, path_key, path_key_spec};
use crate::database::Database;
use crate::error::StorageError;
use crate::memtable::{last_visible, written_after};
use crate::mvcc::{snap_in, snaps_in_window, without_txn, Snap};
use crate::record::{
    bytes_clone, bytes_eq, opt_bytes_clone, opt_bytes_view, record_clone, Record, RecordView,
};

verus! {

/// The transaction lifecycle tag: `Active` is the only working state;
/// the two terminal states admit no further transitions.
#[derive(Clone, Copy, Debug, PartialEq, Eq, Structural)]
pub enum TxnState {
    Active,
    Committed,
    Aborted,
}

/// One buffered, uncommitted write: a pending value or tombstone for an
/// already-encoded internal key.
pub struct PendingWrite {
    pub key: Vec<u8>,
    pub value: Option<Vec<u8>>,
}

/// The mathematical form of a pending write.
pub struct PendingView {
    pub key: Seq<u8>,
    pub value: Option<Seq<u8>>,
}

impl View for PendingWrite {
    type V = PendingView;

    open spec fn view(&self) -> PendingView {
        PendingView { key: self.key@, value: crate::record::opt_bytes_view(self.value) }
    }
}

/// The views of a write buffer.
pub open spec fn pend_view(ws: Seq<PendingWrite>) -> Seq<PendingView> {
    ws.map(|i: int, w: PendingWrite| w@)
}

/// The pending value for `k` in a write buffer; the latest write wins.
pub open spec fn ws_lookup(ws: Seq<PendingView>, k: Seq<u8>) -> Option<Option<Seq<u8>>>
    decreases ws.len(),
{
    if ws.len() == 0 {
        None
    } else if ws.last().key == k {
        Some(ws.last().value)
    } else {
        ws_lookup(ws.drop_last(), k)
    }
}

/// The records a write set becomes when committed at LSN `c`.
pub open spec fn ws_records(ws: Seq<PendingView>, c: u64) -> Seq<RecordView> {
    ws.map(|i: int, w: PendingView| RecordView { key: w.key, lsn: c, value: w.value })
}

/// Committing a batch at LSN `c` leaves every read below `c` untouched
/// and makes reads at or from `c` see the batch, latest write first.
pub proof fn lemma_visible_after_batch(
    rs: Seq<RecordView>,
    ws: Seq<PendingView>,
    c: u64,
    k: Seq<u8>,
    s: u64,
)
    ensures
        s < c ==> last_visible(rs + ws_records(ws, c), k, s) == last_visible(rs, k, s),
        s >= c ==> last_visible(rs + ws_records(ws, c), k, s) == match ws_lookup(ws, k) {
            Some(v) => Some(v),
            None => last_visible(rs, k, s),
        },
    decreases ws.len(),
{
    if ws.len() == 0 {
        assert(rs + ws_records(ws, c) =~= rs);
    } else {
        let front = ws.drop_last();
        let t = ws.last();
        lemma_visible_after_batch(rs, front, c, k, s);
        let tr = RecordView { key: t.key, lsn: c, value: t.value };
        assert(ws_records(ws, c) =~= ws_records(front, c).push(tr));
        assert(rs + ws_records(ws, c) =~= (rs + ws_records(front, c)).push(tr));
        crate::database::lemma_visible_push(rs + ws_records(front, c), tr, k, s);
    }
}

/// Removing snapshots only shrinks the registry's window.
proof fn lemma_without_txn_window(ss: Seq<Snap>, id: u64, lo: u64, hi: u64)
    requires
        snaps_in_window(ss, lo, hi),
    ensures
        snaps_in_window(without_txn(ss, id), lo, hi),
    decreases ss.len(),
{
    if ss.len() > 0 {
        assert(snaps_in_window(ss.drop_last(), lo, hi));
        lemma_without_txn_window(ss.drop_last(), id, lo, hi);
        assert(ss.last() == ss[ss.len() - 1]);
    }
}

/// A snapshot-isolated transaction handle.
pub struct Transaction {
    pub id: u64,
    /// The LSN this transaction reads as of, fixed at `begin`.
    pub snapshot_lsn: u64,
    /// The private, uncommitted write buffer; later writes shadow
    /// earlier ones for the same key.
    pub writes: Vec<PendingWrite>,
    pub state: TxnState,
}

impl Transaction {
    /// The write buffer, mathematically.
    pub open spec fn writes_view(&self) -> Seq<PendingView> {
        pend_view(self.writes@)
    }

    /// What this transaction reads for internal key `ik`: its own
    /// buffered write if it has one, else the database as of its
    /// snapshot.
    pub open spec fn read_spec(&self, db: Database, ik: Seq<u8>) -> Option<Seq<u8>> {
        match ws_lookup(self.writes_view(), ik) {
            Some(v) => v,
            None => db.visible(ik, self.snapshot_lsn),
        }
    }

    /// Whether commit-time validation must fail: some key in the write
    /// set was committed by another transaction after this one's
    /// snapshot.
    pub open spec fn has_conflict(&self, db: Database) -> bool {
        exists|i: int|
            0 <= i < self.writes_view().len() && written_after(
                db.mem@,
                self.writes_view()[i].key,
                self.snapshot_lsn,
            )
    }

    /// The current lifecycle state.
    pub fn current_state(&self) -> (r: TxnState)
        ensures
            r == self.state,
    {
        self.state
    }

    fn buffer(&mut self, internal_key: Vec<u8>, value: Option<Vec<u8>>) -> (r: Result<
        (),
        StorageError,
    >)
        ensures
            match old(self).state {
                TxnState::Active => {
                    &&& r is Ok
                    &&& final(self).state == TxnState::Active
                    &&& final(self).id == old(self).id
                    &&& final(self).snapshot_lsn == old(self).snapshot_lsn
                    &&& final(self).writes_view() == old(self).writes_view().push(
                        PendingView { key: internal_key@, value: opt_bytes_view(value) },
                    )
                },
                _ => (r is Err && r->Err_0 == StorageError::InvalidTransactionState) && *final(self) == *old(
                    self,
                ),
            },
    {
        match self.state {
            TxnState::Active => {
                let w = PendingWrite { key: internal_key, value };
                let ghost wv = w@;
                self.writes.push(w);
                proof {
                    assert(self.writes_view() =~= old(self).writes_view().push(wv));
                }
                Ok(())
            },
            _ => Err(StorageError::InvalidTransactionState),
        }
    }

    /// Buffers a write under a flat key. Fails on a terminal
    /// transaction; no WAL or memtable effect until commit.
    pub fn put(&mut self, key: &Vec<u8>, value: &Vec<u8>) -> (r: Result<(), StorageError>)
        ensures
            match old(self).state {
                TxnState::Active => {
                    &&& r is Ok
                    &&& final(self).state == TxnState::Active
                    &&& final(self).id == old(self).id
                    &&& final(self).snapshot_lsn == old(self).snapshot_lsn
                    &&& final(self).writes_view() == old(self).writes_view().push(
                        PendingView { key: flat_key_spec(key@), value: Some(value@) },
                    )
                },
                _ => (r is Err && r->Err_0 == StorageError::InvalidTransactionState) && *final(self) == *old(
                    self,
                ),
            },
    {
        self.buffer(flat_key(key), Some(bytes_clone(value)))
    }

    /// Buffers a tombstone under a flat key.
    pub fn delete(&mut self, key: &Vec<u8>) -> (r: Result<(), StorageError>)
        ensures
            match old(self).state {
                TxnState::Active => {
                    &&& r is Ok
                    &&& final(self).state == TxnState::Active
                    &&& final(self).id == old(self).id
                    &&& final(self).snapshot_lsn == old(self).snapshot_lsn
                    &&& final(self).writes_view() == old(self).writes_view().push(
                        PendingView { key: flat_key_spec(key@), value: None },
                    )
                },
                _ => (r is Err && r->Err_0 == StorageError::InvalidTransactionState) && *final(self) == *old(
                    self,
                ),
            },
    {
        self.buffer(flat_key(key), None)
    }

    /// Buffers a write under a path key.
    pub fn put_path(&mut self, path: &Vec<u8>, value: &Vec<u8>) -> (r: Result<(), StorageError>)
        ensures
            match old(self).state {
                TxnState::Active => {
                    &&& r is Ok
                    &&& final(self).state == TxnState::Active
                    &&& final(self).id == old(self).id
                    &&& final(self).snapshot_lsn == old(self).snapshot_lsn
                    &&& final(self).writes_view() == old(self).writes_view().push(
                        PendingView { key: path_key_spec(path@), value: Some(value@) },
                    )
                },
                _ => (r is Err && r->Err_0 == StorageError::InvalidTransactionState) && *final(self) == *old(
                    self,
                ),
            },
    {
        self.buffer(path_key(path), Some(bytes_clone(value)))
    }

    fn read_buffered(&self, internal_key: &Vec<u8>) -> (r: Option<Option<Vec<u8>>>)
        ensures
            crate::record::opt2_view(r) == ws_lookup(self.writes_view(), internal_key@),
    {
        let ghost wsv = self.writes_view();
        let mut i: usize = self.writes.len();
        proof {
            assert(wsv.take(wsv.len() as int) =~= wsv);
        }
        while i > 0
            invariant
                i <= wsv.len(),
                wsv == self.writes_view(),
                wsv.len() == self.writes@.len(),
                ws_lookup(wsv, internal_key@) == ws_lookup(wsv.take(i as int), internal_key@),
            decreases i,
        {
            i -= 1;
            proof {
                assert(wsv.take(i + 1 as int).last() == wsv[i as int]);
                assert(wsv.take(i + 1 as int).drop_last() =~= wsv.take(i as int));
                assert(wsv[i as int] == self.writes@[i as int]@);
            }
            let w = &self.writes[i];
            if bytes_eq(&w.key, internal_key) {
                return Some(opt_bytes_clone(&w.value));
            }
        }
        None
    }

    fn read(&self, db: &Database, internal_key: Vec<u8>) -> (r: Result<
        Option<Vec<u8>>,
        StorageError,
    >)
        requires
            db.wf(),
        ensures
            match self.state {
                TxnState::Active => match r {
                    Ok(v) => opt_bytes_view(v) == self.read_spec(*db, internal_key@),
                    Err(_) => false,
                },
                _ => (r is Err && r->Err_0 == StorageError::InvalidTransactionState),
            },
    {
        match self.state {
            TxnState::Active => match self.read_buffered(&internal_key) {
                Some(v) => Ok(v),
                None => Ok(db.read_at(&internal_key, self.snapshot_lsn)),
            },
            _ => Err(StorageError::InvalidTransactionState),
        }
    }

    /// Reads a flat key as this transaction sees it: its own buffered
    /// writes first, then the database as of its snapshot.
    pub fn get(&self, db: &Database, key: &Vec<u8>) -> (r: Result<Option<Vec<u8>>, StorageError>)
        requires
            db.wf(),
        ensures
            match self.state {
                TxnState::Active => match r {
                    Ok(v) => opt_bytes_view(v) == self.read_spec(*db, flat_key_spec(key@)),
                    Err(_) => false,
                },
                _ => (r is Err && r->Err_0 == StorageError::InvalidTransactionState),
            },
    {
        self.read(db, flat_key(key))
    }

    /// Reads a path key as this transaction sees it.
    pub fn get_path(&self, db: &Database, path: &Vec<u8>) -> (r: Result<
        Option<Vec<u8>>,
        StorageError,
    >)
        requires
            db.wf(),
        ensures
            match self.state {
                TxnState::Active => match r {
                    Ok(v) => opt_bytes_view(v) == self.read_spec(*db, path_key_spec(path@)),
                    Err(_) => false,
                },
                _ => (r is Err && r->Err_0 == StorageError::InvalidTransactionState),
            },
    {
        self.read(db, path_key(path))
    }

    fn check_conflict(&self, db: &Database) -> (r: bool)
        ensures
            r == self.has_conflict(*db),
    {
        let ghost wsv = self.writes_view();
        let mut i: usize = 0;
        while i < self.writes.len()
            invariant
                i <= wsv.len(),
                wsv == self.writes_view(),
                wsv.len() == self.writes@.len(),
                forall|j: int|
                    0 <= j < i ==> !written_after(db.mem@, wsv[j].key, self.snapshot_lsn),
            decreases wsv.len() - i,
        {
            proof {
                assert(wsv[i as int] == self.writes@[i as int]@);
            }
            if db.mem.has_newer(&self.writes[i].key, self.snapshot_lsn) {
                return true;
            }
            i += 1;
        }
        false
    }

    /// Commits the transaction. Validation is first-committer-wins: if
    /// any buffered key was committed by another transaction after this
    /// one's snapshot, the commit fails with `Conflict` and the
    /// transaction aborts with no effect on the store. Otherwise every
    /// buffered write is appended to the WAL and applied to the
    /// memtable under one fresh commit LSN. Either way the snapshot is
    /// released. Reads under any snapshot below the commit LSN are
    /// unchanged — committed or not, this transaction is invisible to
    /// every reader whose snapshot predates it.
    pub fn commit(&mut self, db: &mut Database) -> (r: Result<(), StorageError>)
        requires
            old(db).wf(),
            old(self).state == TxnState::Active ==> old(db).last_lsn < u64::MAX,
        ensures
            match old(self).state {
                TxnState::Active => {
                    &&& final(self).id == old(self).id
                    &&& final(self).snapshot_lsn == old(self).snapshot_lsn
                    &&& final(db).wf()
                    &&& final(db).store@ == old(db).store@
                    &&& final(db).last_checkpoint_lsn == old(db).last_checkpoint_lsn
                    &&& final(db).next_txn_id == old(db).next_txn_id
                    &&& final(db).snaps.active@ == without_txn(
                        old(db).snaps.active@,
                        old(self).id,
                    )
                    &&& if old(self).has_conflict(*old(db)) {
                        &&& (r is Err && r->Err_0 == StorageError::Conflict)
                        &&& final(self).state == TxnState::Aborted
                        &&& final(self).writes_view() == Seq::<PendingView>::empty()
                        &&& final(db).mem@ == old(db).mem@
                        &&& final(db).wal@ == old(db).wal@
                        &&& final(db).last_lsn == old(db).last_lsn
                    } else {
                        &&& r is Ok
                        &&& final(self).state == TxnState::Committed
                        &&& final(db).last_lsn == old(db).last_lsn + 1
                        &&& final(db).mem@ == old(db).mem@ + ws_records(
                            old(self).writes_view(),
                            (old(db).last_lsn + 1) as u64,
                        )
                        &&& final(db).wal@ == final(db).mem@
                        &&& forall|k: Seq<u8>, s: u64|
                            s <= old(db).last_lsn ==> final(db).visible(k, s) == old(db).visible(
                                k,
                                s,
                            )
                        &&& forall|k: Seq<u8>, s: u64|
                            s > old(db).last_lsn ==> final(db).visible(k, s) == match ws_lookup(
                                old(self).writes_view(),
                                k,
                            ) {
                                Some(v) => v,
                                None => old(db).visible(k, s),
                            }
                    }
                },
                _ => {
                    &&& (r is Err && r->Err_0 == StorageError::InvalidTransactionState)
                    &&& *final(self) == *old(self)
                    &&& *final(db) == *old(db)
                },
            },
    {
        match self.state {
            TxnState::Active => {
                if self.check_conflict(db) {
                    self.state = TxnState::Aborted;
                    self.writes = Vec::new();
                    db.snaps.release(self.id);
                    proof {
                        assert(self.writes_view() =~= Seq::<PendingView>::empty());
                        lemma_without_txn_window(
                            old(db).snaps.active@,
                            self.id,
                            db.last_checkpoint_lsn,
                            db.last_lsn,
                        );
                    }
                    return Err(StorageError::Conflict);
                }
                let c = db.last_lsn + 1;
                let ghost wsv = self.writes_view();
                let ghost orig_mem = db.mem@;
                let mut i: usize = 0;
                while i < self.writes.len()
                    invariant
                        i <= wsv.len(),
                        wsv == self.writes_view(),
                        wsv.len() == self.writes@.len(),
                        db.mem@ == orig_mem + ws_records(wsv.take(i as int), c),
                        db.wal@ == db.mem@,
                        db.store@ == old(db).store@,
                        db.last_lsn == old(db).last_lsn,
                        db.last_checkpoint_lsn == old(db).last_checkpoint_lsn,
                        db.snaps.active@ == old(db).snaps.active@,
                        db.next_txn_id == old(db).next_txn_id,
                        c == old(db).last_lsn + 1,
                    decreases wsv.len() - i,
                {
                    proof {
                        assert(wsv[i as int] == self.writes@[i as int]@);
                        assert(ws_records(wsv.take(i + 1 as int), c) =~= ws_records(
                            wsv.take(i as int),
                            c,
                        ).push(RecordView { key: wsv[i as int].key, lsn: c, value: wsv[i as int].value }));
                        assert(orig_mem + ws_records(wsv.take(i + 1 as int), c) =~= (orig_mem
                            + ws_records(wsv.take(i as int), c)).push(
                            RecordView { key: wsv[i as int].key, lsn: c, value: wsv[i as int].value },
                        ));
                    }
                    let w = &self.writes[i];
                    let rec = Record {
                        key: bytes_clone(&w.key),
                        lsn: c,
                        value: opt_bytes_clone(&w.value),
                    };
                    db.wal.append(record_clone(&rec));
                    db.mem.apply(rec);
                    i += 1;
                }
                proof {
                    assert(wsv.take(wsv.len() as int) =~= wsv);
                }
                db.last_lsn = c;
                db.snaps.release(self.id);
                self.state = TxnState::Committed;
                proof {
                    lemma_without_txn_window(
                        old(db).snaps.active@,
                        self.id,
                        old(db).last_checkpoint_lsn,
                        old(db).last_lsn,
                    );
                    assert forall|k: Seq<u8>, s: u64| true implies last_visible(
                        db.mem@,
                        k,
                        s,
                    ) == (if s < c {
                        last_visible(orig_mem, k, s)
                    } else {
                        match ws_lookup(wsv, k) {
                            Some(v) => Some(v),
                            None => last_visible(orig_mem, k, s),
                        }
                    }) by {
                        lemma_visible_after_batch(orig_mem, wsv, c, k, s);
                    }
                }
                Ok(())
            },
            _ => Err(StorageError::InvalidTransactionState),
        }
    }

    /// Aborts the transaction: discards the write buffer and releases
    /// the snapshot, with no durable effect. On an already-terminal
    /// transaction this is an idempotent no-op, not an error.
    pub fn abort(&mut self, db: &mut Database)
        requires
            old(db).wf(),
        ensures
            match old(self).state {
                TxnState::Active => {
                    &&& final(self).state == TxnState::Aborted
                    &&& final(self).id == old(self).id
                    &&& final(self).snapshot_lsn == old(self).snapshot_lsn
                    &&& final(self).writes_view() == Seq::<PendingView>::empty()
                    &&& final(db).wf()
                    &&& final(db).mem@ == old(db).mem@
                    &&& final(db).wal@ == old(db).wal@
                    &&& final(db).store@ == old(db).store@
                    &&& final(db).last_lsn == old(db).last_lsn
                    &&& final(db).last_checkpoint_lsn == old(db).last_checkpoint_lsn
                    &&& final(db).next_txn_id == old(db).next_txn_id
                    &&& final(db).snaps.active@ == without_txn(
                        old(db).snaps.active@,
                        old(self).id,
                    )
                },
                _ => {
                    &&& *final(self) == *old(self)
                    &&& *final(db) == *old(db)
                },
            },
    {
        match self.state {
            TxnState::Active => {
                self.state = TxnState::Aborted;
                self.writes = Vec::new();
                db.snaps.release(self.id);
                proof {
                    lemma_without_txn_window(
                        old(db).snaps.active@,
                        self.id,
                        db.last_checkpoint_lsn,
                        db.last_lsn,
                    );
                    assert(self.writes_view() =~= Seq::<PendingView>::empty());
                }
            },
            _ => {},
        }
    }
}

impl Database {
    /// Begins a transaction: captures the current latest LSN as the
    /// read snapshot, registers it as active — atomically, so no commit
    /// can slip between capture and registration — and hands back an
    /// `Active` handle with an empty write buffer.
    pub fn begin_transaction(&mut self) -> (r: Result<Transaction, StorageError>)
        requires
            old(self).wf(),
            old(self).next_txn_id < u64::MAX,
        ensures
            match r {
                Ok(t) => {
                    &&& t.state == TxnState::Active
                    &&& t.snapshot_lsn == old(self).last_lsn
                    &&& t.id == old(self).next_txn_id
                    &&& t.writes_view() == Seq::<PendingView>::empty()
                    &&& final(self).wf()
                    &&& final(self).mem@ == old(self).mem@
                    &&& final(self).wal@ == old(self).wal@
                    &&& final(self).store@ == old(self).store@
                    &&& final(self).last_lsn == old(self).last_lsn
                    &&& final(self).last_checkpoint_lsn == old(self).last_checkpoint_lsn
                    &&& final(self).next_txn_id == old(self).next_txn_id + 1
                    &&& final(self).snaps.active@ == old(self).snaps.active@.push(
                        Snap { txn_id: t.id, lsn: t.snapshot_lsn },
                    )
                    &&& snap_in(final(self).snaps.active@, t.id, t.snapshot_lsn)
                },
                Err(_) => false,
            },
    {
        let id = self.next_txn_id;
        self.next_txn_id = id + 1;
        self.snaps.acquire(id, self.last_lsn);
        let t = Transaction {
            id,
            snapshot_lsn: self.last_lsn,
            writes: Vec::new(),
            state: TxnState::Active,
        };
        proof {
            assert(t.writes_view() =~= Seq::<PendingView>::empty());
            let ss = self.snaps.active@;
            assert(ss[ss.len() - 1] == Snap { txn_id: t.id, lsn: t.snapshot_lsn });
        }
        Ok(t)
    }
}

} // verus!
