//! The database: one handle owning the WAL, the memtable, the
//! checkpoint store and the snapshot registry for the life of the
//! process.
//!
//! A non-transactional write is an implicit single-operation commit: it
//! takes the next LSN, appends the record to the WAL, and applies it to
//! the memtable. A non-transactional read sees everything committed so
//! far — its snapshot is the current latest LSN. Flat keys and path keys
//! are mapped by the codec into disjoint regions of one internal
//! keyspace and then share the whole pipeline.
//!
//! `checkpoint` flattens every record at or below the watermark — the
//! minimum active snapshot LSN, or the latest LSN when no reader is
//! active — into the checkpoint store, and truncates the WAL to the
//! remaining suffix. Reads at or above the watermark are unchanged by
//! this, which is the checkpoint correctness guarantee; and since the
//! watermark never passes an active snapshot, no live reader can lose
//! its view.

use vstd::prelude::*;

use crate::checkpoint::{img_get, img_keys_unique, img_lsns_at_most, CheckpointStore};
use crate::codec::{flat_key, flat_key_spec, path_key, path_key_spec};
use crate::error::StorageError;
use crate::memtable::{last_visible, lsns_in_window, lsns_nondecreasing, Memtable};
use crate::mvcc::{
    lemma_min_snap_in_window, lemma_min_snap_le, min_snap, snaps_in_window, SnapshotManager,
};
use crate::record::{
    bytes_clone, measure_records, opt_bytes_view, record_clone, records_size, recs_view, sat64,
    Record, RecordView,
};
use crate::wal::Wal;

verus! {

/// Fixed per-record framing the engine assumes for the on-disk log: an
/// 8-byte LSN, a 1-byte operation tag and two 4-byte lengths.
pub const WAL_RECORD_OVERHEAD: u64 = 17;

/// A point-in-time, read-only projection of engine state.
#[derive(Clone, Copy, Debug, PartialEq, Eq, Structural)]
pub struct Stats {
    pub memtable_size_bytes: u64,
    pub wal_size_bytes: u64,
    pub active_transactions: u64,
    /// The minimum LSN among active snapshots, or the latest committed
    /// LSN when no reader is active.
    pub min_active_snapshot: u64,
    pub last_checkpoint_lsn: u64,
}

/// The storage engine handle.
pub struct Database {
    pub wal: Wal,
    pub mem: Memtable,
    pub store: CheckpointStore,
    /// The latest committed LSN; 0 before the first commit.
    pub last_lsn: u64,
    /// The watermark of the last completed checkpoint; 0 before the first.
    pub last_checkpoint_lsn: u64,
    pub snaps: SnapshotManager,
    pub next_txn_id: u64,
}

/// A read outcome combined from the memtable and the checkpoint image:
/// the memtable's visible version wins; otherwise the image entry, whose
/// tombstones read as "absent"; otherwise absent.
pub open spec fn combine(m: Option<Option<Seq<u8>>>, im: Option<RecordView>) -> Option<Seq<u8>> {
    match m {
        Some(v) => v,
        None => match im {
            Some(e) => e.value,
            None => None,
        },
    }
}

/// The image after replaying a record sequence over it, observed at one
/// key: the latest replayed record for the key wins, else the image.
pub open spec fn img_get_after(img: Seq<RecordView>, rs: Seq<RecordView>, k: Seq<u8>) -> Option<
    RecordView,
>
    decreases rs.len(),
{
    if rs.len() == 0 {
        img_get(img, k)
    } else if rs.last().key == k {
        Some(rs.last())
    } else {
        img_get_after(img, rs.drop_last(), k)
    }
}

/// The records of `rs` with LSN strictly above `w`, in order.
pub open spec fn recs_above(rs: Seq<RecordView>, w: u64) -> Seq<RecordView>
    decreases rs.len(),
{
    if rs.len() == 0 {
        Seq::empty()
    } else if rs.last().lsn > w {
        recs_above(rs.drop_last(), w).push(rs.last())
    } else {
        recs_above(rs.drop_last(), w)
    }
}

/// Appending one record changes exactly the reads it shadows.
pub proof fn lemma_visible_push(rs: Seq<RecordView>, rec: RecordView, k: Seq<u8>, s: u64)
    ensures
        last_visible(rs.push(rec), k, s) == if rec.key == k && rec.lsn <= s {
            Some(rec.value)
        } else {
            last_visible(rs, k, s)
        },
{
    assert(rs.push(rec).drop_last() =~= rs);
}

proof fn lemma_visible_cons(r: RecordView, rs: Seq<RecordView>, k: Seq<u8>, s: u64)
    ensures
        last_visible(seq![r] + rs, k, s) == match last_visible(rs, k, s) {
            Some(v) => Some(v),
            None => if r.key == k && r.lsn <= s {
                Some(r.value)
            } else {
                None
            },
        },
    decreases rs.len(),
{
    let whole = seq![r] + rs;
    if rs.len() == 0 {
        assert(whole =~= seq![r]);
        assert(whole.drop_last() =~= Seq::<RecordView>::empty());
    } else {
        assert(whole.last() == rs.last());
        assert(whole.drop_last() =~= seq![r] + rs.drop_last());
        lemma_visible_cons(r, rs.drop_last(), k, s);
    }
}

/// Flattening a prefix of the version history into the image preserves
/// every read at or above the watermark that bounds the prefix.
proof fn lemma_checkpoint_visibility(
    img: Seq<RecordView>,
    prefix: Seq<RecordView>,
    suffix: Seq<RecordView>,
    w: u64,
    k: Seq<u8>,
    s: u64,
)
    requires
        forall|i: int| 0 <= i < prefix.len() ==> prefix[i].lsn <= w,
        s >= w,
    ensures
        combine(last_visible(suffix, k, s), img_get_after(img, prefix, k)) == combine(
            last_visible(prefix + suffix, k, s),
            img_get(img, k),
        ),
    decreases prefix.len(),
{
    if prefix.len() == 0 {
        assert(prefix + suffix =~= suffix);
    } else {
        let p = prefix.drop_last();
        let r = prefix.last();
        assert(seq![r] + suffix =~= prefix.skip(prefix.len() - 1) + suffix);
        assert(p + (seq![r] + suffix) =~= prefix + suffix);
        lemma_checkpoint_visibility(img, p, seq![r] + suffix, w, k, s);
        lemma_visible_cons(r, suffix, k, s);
        assert(prefix.drop_last() =~= p);
    }
}

proof fn lemma_recs_above_split(rs: Seq<RecordView>, w: u64, cut: int)
    requires
        0 <= cut <= rs.len(),
        forall|j: int| 0 <= j < cut ==> rs[j].lsn <= w,
        forall|j: int| cut <= j < rs.len() ==> rs[j].lsn > w,
    ensures
        recs_above(rs, w) == rs.skip(cut),
    decreases rs.len(),
{
    if rs.len() == 0 {
        assert(recs_above(rs, w) =~= rs.skip(cut));
    } else if cut == rs.len() {
        lemma_recs_above_split(rs.drop_last(), w, cut - 1);
        assert(rs.drop_last().skip(cut - 1) =~= Seq::<RecordView>::empty());
        assert(recs_above(rs, w) =~= rs.skip(cut));
    } else {
        lemma_recs_above_split(rs.drop_last(), w, cut);
        assert(rs.drop_last().skip(cut).push(rs.last()) =~= rs.skip(cut));
    }
}

/// Validity of recovered state: what a durable image and log must look
/// like for `open` to accept them.
pub open spec fn recovered_ok(
    img: Seq<RecordView>,
    flushed: u64,
    wal: Seq<RecordView>,
) -> bool {
    &&& img_keys_unique(img)
    &&& img_lsns_at_most(img, flushed)
    &&& lsns_nondecreasing(wal)
    &&& forall|i: int| 0 <= i < wal.len() ==> wal[i].lsn > flushed
}

impl Database {
    /// Internal consistency of the handle. Every public operation
    /// preserves it.
    pub open spec fn wf(&self) -> bool {
        &&& lsns_nondecreasing(self.mem@)
        &&& lsns_in_window(self.mem@, self.last_checkpoint_lsn, self.last_lsn)
        &&& self.wal@ == self.mem@
        &&& img_keys_unique(self.store@)
        &&& img_lsns_at_most(self.store@, self.last_checkpoint_lsn)
        &&& self.last_checkpoint_lsn <= self.last_lsn
        &&& snaps_in_window(self.snaps.active@, self.last_checkpoint_lsn, self.last_lsn)
    }

    /// The value a reader at snapshot `s` sees for internal key `k`:
    /// the memtable version with the greatest LSN at or below `s`, else
    /// the checkpoint image entry, else absent. `None` covers both a
    /// visible tombstone and a key never written.
    pub open spec fn visible(&self, k: Seq<u8>, s: u64) -> Option<Seq<u8>> {
        combine(last_visible(self.mem@, k, s), img_get(self.store@, k))
    }

    /// The checkpoint watermark: the minimum active snapshot LSN, or
    /// the latest committed LSN when no reader is active.
    pub open spec fn watermark(&self) -> u64 {
        match min_snap(self.snaps.active@) {
            Some(m) => m,
            None => self.last_lsn,
        }
    }

    /// A fresh, empty store.
    pub fn new() -> (r: Database)
        ensures
            r.wf(),
            r.last_lsn == 0,
            r.last_checkpoint_lsn == 0,
            r.next_txn_id == 0,
            r.mem@ == Seq::<RecordView>::empty(),
            r.store@ == Seq::<RecordView>::empty(),
            r.snaps.active@ == Seq::<crate::mvcc::Snap>::empty(),
            forall|k: Seq<u8>, s: u64| r.visible(k, s) is None,
    {
        Database {
            wal: Wal::new(),
            mem: Memtable::new(),
            store: CheckpointStore::new(),
            last_lsn: 0,
            last_checkpoint_lsn: 0,
            snaps: SnapshotManager::new(),
            next_txn_id: 0,
        }
    }

    /// Opens a store from recovered durable state: the checkpoint image,
    /// the recorded last-checkpoint LSN, and the WAL records at or after
    /// it, oldest first. Replays the WAL over the image to rebuild the
    /// memtable and the LSN counter exactly as they were before the
    /// crash. Refuses state this engine cannot have produced.
    pub fn open(image: Vec<Record>, checkpoint_lsn: u64, wal_records: Vec<Record>) -> (r: Result<
        Database,
        StorageError,
    >)
        ensures
            match r {
                Ok(db) => {
                    &&& recovered_ok(recs_view(image@), checkpoint_lsn, recs_view(wal_records@))
                    &&& db.wf()
                    &&& db.mem@ == recs_view(wal_records@)
                    &&& db.wal@ == recs_view(wal_records@)
                    &&& db.store@ == recs_view(image@)
                    &&& db.last_checkpoint_lsn == checkpoint_lsn
                    &&& db.last_lsn == if wal_records@.len() == 0 {
                        checkpoint_lsn
                    } else {
                        recs_view(wal_records@).last().lsn
                    }
                    &&& db.snaps.active@ == Seq::<crate::mvcc::Snap>::empty()
                },
                Err(e) => {
                    &&& e == StorageError::Corruption
                    &&& !recovered_ok(recs_view(image@), checkpoint_lsn, recs_view(wal_records@))
                },
            },
    {
        let ghost gimg = recs_view(image@);
        let ghost gwal = recs_view(wal_records@);
        // The image must hold each key at most once, at or below the
        // checkpoint watermark.
        let mut i: usize = 0;
        while i < image.len()
            invariant
                i <= image@.len(),
                gimg == recs_view(image@),
                gimg.len() == image@.len(),
                forall|a: int, b: int| 0 <= a < b < i ==> gimg[a].key != gimg[b].key,
                forall|a: int| 0 <= a < i ==> gimg[a].lsn <= checkpoint_lsn,
            decreases image@.len() - i,
        {
            proof {
                assert(gimg[i as int] == image@[i as int]@);
            }
            if image[i].lsn > checkpoint_lsn {
                proof {
                    assert(!img_lsns_at_most(gimg, checkpoint_lsn));
                }
                return Err(StorageError::Corruption);
            }
            let mut j: usize = 0;
            while j < i
                invariant
                    j <= i,
                    i < image@.len(),
                    gimg == recs_view(image@),
                    gimg.len() == image@.len(),
                    forall|a: int| 0 <= a < j ==> gimg[a].key != gimg[i as int].key,
                decreases i - j,
            {
                proof {
                    assert(gimg[j as int] == image@[j as int]@);
                    assert(gimg[i as int] == image@[i as int]@);
                }
                if crate::record::bytes_eq(&image[j].key, &image[i].key) {
                    proof {
                        assert(!img_keys_unique(gimg));
                    }
                    return Err(StorageError::Corruption);
                }
                j += 1;
            }
            i += 1;
        }
        // The WAL must be in nondecreasing LSN order, entirely above the
        // checkpoint watermark.
        let mut w: usize = 0;
        while w < wal_records.len()
            invariant
                w <= wal_records@.len(),
                gwal == recs_view(wal_records@),
                gwal.len() == wal_records@.len(),
                forall|a: int| 0 <= a < w ==> gwal[a].lsn > checkpoint_lsn,
                forall|a: int, b: int| 0 <= a <= b < w ==> gwal[a].lsn <= gwal[b].lsn,
            decreases wal_records@.len() - w,
        {
            proof {
                assert(gwal[w as int] == wal_records@[w as int]@);
            }
            if wal_records[w].lsn <= checkpoint_lsn {
                return Err(StorageError::Corruption);
            }
            if w > 0 {
                proof {
                    assert(gwal[w - 1 as int] == wal_records@[w - 1 as int]@);
                }
                if wal_records[w - 1].lsn > wal_records[w].lsn {
                    return Err(StorageError::Corruption);
                }
            }
            w += 1;
        }
        // Replay the log, oldest first, to rebuild the memtable.
        let mut mem = Memtable::new();
        let mut m: usize = 0;
        while m < wal_records.len()
            invariant
                m <= wal_records@.len(),
                gwal == recs_view(wal_records@),
                gwal.len() == wal_records@.len(),
                mem@ == gwal.take(m as int),
            decreases wal_records@.len() - m,
        {
            proof {
                assert(gwal[m as int] == wal_records@[m as int]@);
                assert(gwal.take(m as int).push(gwal[m as int]) =~= gwal.take(m + 1 as int));
            }
            mem.apply(record_clone(&wal_records[m]));
            m += 1;
        }
        proof {
            assert(gwal.take(gwal.len() as int) =~= gwal);
        }
        let last_lsn: u64 = if wal_records.len() == 0 {
            checkpoint_lsn
        } else {
            wal_records[wal_records.len() - 1].lsn
        };
        proof {
            if gwal.len() > 0 {
                assert(gwal[gwal.len() - 1] == wal_records@[wal_records@.len() - 1]@);
                assert(gwal.last() == gwal[gwal.len() - 1]);
            }
        }
        let db = Database {
            wal: Wal { recs: wal_records },
            mem,
            store: CheckpointStore { entries: image },
            last_lsn,
            last_checkpoint_lsn: checkpoint_lsn,
            snaps: SnapshotManager::new(),
            next_txn_id: 0,
        };
        proof {
            assert(db.wal@ =~= gwal);
            assert(db.store@ =~= gimg);
        }
        Ok(db)
    }

    /// Commits one mutation outside any explicit transaction: assigns
    /// the next LSN, appends the record durably to the WAL, applies it
    /// to the memtable.
    fn commit_one(&mut self, internal_key: Vec<u8>, value: Option<Vec<u8>>)
        requires
            old(self).wf(),
            old(self).last_lsn < u64::MAX,
        ensures
            final(self).wf(),
            final(self).last_lsn == old(self).last_lsn + 1,
            final(self).mem@ == old(self).mem@.push(
                RecordView {
                    key: internal_key@,
                    lsn: (old(self).last_lsn + 1) as u64,
                    value: opt_bytes_view(value),
                },
            ),
            final(self).wal@ == final(self).mem@,
            final(self).store@ == old(self).store@,
            final(self).snaps.active@ == old(self).snaps.active@,
            final(self).last_checkpoint_lsn == old(self).last_checkpoint_lsn,
            final(self).next_txn_id == old(self).next_txn_id,
    {
        let lsn = self.last_lsn + 1;
        let rec = Record { key: internal_key, lsn, value };
        self.wal.append(record_clone(&rec));
        self.mem.apply(rec);
        self.last_lsn = lsn;
    }

    /// The value visible for an already-encoded internal key at
    /// snapshot `s`.
    pub fn read_at(&self, internal_key: &Vec<u8>, s: u64) -> (r: Option<Vec<u8>>)
        requires
            self.wf(),
        ensures
            opt_bytes_view(r) == self.visible(internal_key@, s),
    {
        match self.mem.get(internal_key, s) {
            Some(v) => v,
            None => match self.store.get(internal_key) {
                Some(v) => v,
                None => None,
            },
        }
    }

    /// Writes `value` under a flat key. An implicit single-operation
    /// transaction: durable and visible to every later read once it
    /// returns.
    pub fn put(&mut self, key: &Vec<u8>, value: &Vec<u8>) -> (r: Result<(), StorageError>)
        requires
            old(self).wf(),
            old(self).last_lsn < u64::MAX,
        ensures
            r is Ok,
            final(self).wf(),
            final(self).last_lsn == old(self).last_lsn + 1,
            final(self).mem@ == old(self).mem@.push(
                RecordView {
                    key: flat_key_spec(key@),
                    lsn: (old(self).last_lsn + 1) as u64,
                    value: Some(value@),
                },
            ),
            final(self).wal@ == final(self).mem@,
            final(self).store@ == old(self).store@,
            final(self).snaps.active@ == old(self).snaps.active@,
            final(self).last_checkpoint_lsn == old(self).last_checkpoint_lsn,
            final(self).next_txn_id == old(self).next_txn_id,
            forall|s: u64|
                s > old(self).last_lsn ==> final(self).visible(flat_key_spec(key@), s) == Some(
                    value@,
                ),
            forall|k2: Seq<u8>, s: u64|
                k2 != flat_key_spec(key@) || s <= old(self).last_lsn ==> final(self).visible(k2, s)
                    == old(self).visible(k2, s),
    {
        let ik = flat_key(key);
        self.commit_one(ik, Some(bytes_clone(value)));
        proof {
            assert forall|k2: Seq<u8>, s: u64| true implies last_visible(
                self.mem@,
                k2,
                s,
            ) == if flat_key_spec(key@) == k2 && self.last_lsn <= s {
                Some(Some(value@))
            } else {
                last_visible(old(self).mem@, k2, s)
            } by {
                lemma_visible_push(
                    old(self).mem@,
                    RecordView {
                        key: flat_key_spec(key@),
                        lsn: self.last_lsn,
                        value: Some(value@),
                    },
                    k2,
                    s,
                );
            }
        }
        Ok(())
    }

    /// Reads the current value under a flat key; `Ok(None)` when the key
    /// is absent or deleted — absence is not an error.
    pub fn get(&self, key: &Vec<u8>) -> (r: Result<Option<Vec<u8>>, StorageError>)
        requires
            self.wf(),
        ensures
            match r {
                Ok(v) => opt_bytes_view(v) == self.visible(flat_key_spec(key@), self.last_lsn),
                Err(_) => false,
            },
    {
        let ik = flat_key(key);
        Ok(self.read_at(&ik, self.last_lsn))
    }

    /// Deletes a flat key: a durable tombstone; later reads see absence.
    pub fn delete(&mut self, key: &Vec<u8>) -> (r: Result<(), StorageError>)
        requires
            old(self).wf(),
            old(self).last_lsn < u64::MAX,
        ensures
            r is Ok,
            final(self).wf(),
            final(self).last_lsn == old(self).last_lsn + 1,
            final(self).mem@ == old(self).mem@.push(
                RecordView {
                    key: flat_key_spec(key@),
                    lsn: (old(self).last_lsn + 1) as u64,
                    value: None,
                },
            ),
            final(self).wal@ == final(self).mem@,
            final(self).store@ == old(self).store@,
            final(self).snaps.active@ == old(self).snaps.active@,
            final(self).last_checkpoint_lsn == old(self).last_checkpoint_lsn,
            final(self).next_txn_id == old(self).next_txn_id,
            forall|s: u64|
                s > old(self).last_lsn ==> final(self).visible(flat_key_spec(key@), s) is None,
            forall|k2: Seq<u8>, s: u64|
                k2 != flat_key_spec(key@) || s <= old(self).last_lsn ==> final(self).visible(k2, s)
                    == old(self).visible(k2, s),
    {
        let ik = flat_key(key);
        self.commit_one(ik, None);
        proof {
            assert forall|k2: Seq<u8>, s: u64| true implies last_visible(
                self.mem@,
                k2,
                s,
            ) == if flat_key_spec(key@) == k2 && self.last_lsn <= s {
                Some(None)
            } else {
                last_visible(old(self).mem@, k2, s)
            } by {
                lemma_visible_push(
                    old(self).mem@,
                    RecordView { key: flat_key_spec(key@), lsn: self.last_lsn, value: None },
                    k2,
                    s,
                );
            }
        }
        Ok(())
    }

    /// Writes `value` under a slash-delimited path key.
    pub fn put_path(&mut self, path: &Vec<u8>, value: &Vec<u8>) -> (r: Result<(), StorageError>)
        requires
            old(self).wf(),
            old(self).last_lsn < u64::MAX,
        ensures
            r is Ok,
            final(self).wf(),
            final(self).last_lsn == old(self).last_lsn + 1,
            final(self).mem@ == old(self).mem@.push(
                RecordView {
                    key: path_key_spec(path@),
                    lsn: (old(self).last_lsn + 1) as u64,
                    value: Some(value@),
                },
            ),
            final(self).wal@ == final(self).mem@,
            final(self).store@ == old(self).store@,
            final(self).snaps.active@ == old(self).snaps.active@,
            final(self).last_checkpoint_lsn == old(self).last_checkpoint_lsn,
            final(self).next_txn_id == old(self).next_txn_id,
            forall|s: u64|
                s > old(self).last_lsn ==> final(self).visible(path_key_spec(path@), s) == Some(
                    value@,
                ),
            forall|k2: Seq<u8>, s: u64|
                k2 != path_key_spec(path@) || s <= old(self).last_lsn ==> final(self).visible(
                    k2,
                    s,
                ) == old(self).visible(k2, s),
    {
        let ik = path_key(path);
        self.commit_one(ik, Some(bytes_clone(value)));
        proof {
            assert forall|k2: Seq<u8>, s: u64| true implies last_visible(
                self.mem@,
                k2,
                s,
            ) == if path_key_spec(path@) == k2 && self.last_lsn <= s {
                Some(Some(value@))
            } else {
                last_visible(old(self).mem@, k2, s)
            } by {
                lemma_visible_push(
                    old(self).mem@,
                    RecordView {
                        key: path_key_spec(path@),
                        lsn: self.last_lsn,
                        value: Some(value@),
                    },
                    k2,
                    s,
                );
            }
        }
        Ok(())
    }

    /// Reads the current value under a path key.
    pub fn get_path(&self, path: &Vec<u8>) -> (r: Result<Option<Vec<u8>>, StorageError>)
        requires
            self.wf(),
        ensures
            match r {
                Ok(v) => opt_bytes_view(v) == self.visible(path_key_spec(path@), self.last_lsn),
                Err(_) => false,
            },
    {
        let ik = path_key(path);
        Ok(self.read_at(&ik, self.last_lsn))
    }

    /// Deletes a path key.
    pub fn delete_path(&mut self, path: &Vec<u8>) -> (r: Result<(), StorageError>)
        requires
            old(self).wf(),
            old(self).last_lsn < u64::MAX,
        ensures
            r is Ok,
            final(self).wf(),
            final(self).last_lsn == old(self).last_lsn + 1,
            final(self).mem@ == old(self).mem@.push(
                RecordView {
                    key: path_key_spec(path@),
                    lsn: (old(self).last_lsn + 1) as u64,
                    value: None,
                },
            ),
            final(self).wal@ == final(self).mem@,
            final(self).store@ == old(self).store@,
            final(self).snaps.active@ == old(self).snaps.active@,
            final(self).last_checkpoint_lsn == old(self).last_checkpoint_lsn,
            final(self).next_txn_id == old(self).next_txn_id,
            forall|s: u64|
                s > old(self).last_lsn ==> final(self).visible(path_key_spec(path@), s) is None,
            forall|k2: Seq<u8>, s: u64|
                k2 != path_key_spec(path@) || s <= old(self).last_lsn ==> final(self).visible(
                    k2,
                    s,
                ) == old(self).visible(k2, s),
    {
        let ik = path_key(path);
        self.commit_one(ik, None);
        proof {
            assert forall|k2: Seq<u8>, s: u64| true implies last_visible(
                self.mem@,
                k2,
                s,
            ) == if path_key_spec(path@) == k2 && self.last_lsn <= s {
                Some(None)
            } else {
                last_visible(old(self).mem@, k2, s)
            } by {
                lemma_visible_push(
                    old(self).mem@,
                    RecordView { key: path_key_spec(path@), lsn: self.last_lsn, value: None },
                    k2,
                    s,
                );
            }
        }
        Ok(())
    }

    /// Drains everything at or below the watermark into the checkpoint
    /// store, records the watermark as the last checkpoint LSN, and
    /// truncates the WAL to the remaining suffix. Reads at or above the
    /// watermark — in particular, under every active snapshot and every
    /// future one — are unchanged.
    pub fn checkpoint(&mut self) -> (r: Result<u64, StorageError>)
        requires
            old(self).wf(),
        ensures
            match r {
                Ok(w) => {
                    &&& w == old(self).watermark()
                    &&& final(self).wf()
                    &&& final(self).last_checkpoint_lsn == w
                    &&& final(self).last_lsn == old(self).last_lsn
                    &&& final(self).snaps.active@ == old(self).snaps.active@
                    &&& final(self).next_txn_id == old(self).next_txn_id
                    &&& final(self).mem@ == recs_above(old(self).mem@, w)
                    &&& final(self).wal@ == final(self).mem@
                    &&& forall|k: Seq<u8>, s: u64|
                        s >= w ==> final(self).visible(k, s) == old(self).visible(k, s)
                },
                Err(_) => false,
            },
    {
        let w: u64 = match self.snaps.min_active() {
            Some(m) => m,
            None => self.last_lsn,
        };
        proof {
            lemma_min_snap_in_window(
                self.snaps.active@,
                self.last_checkpoint_lsn,
                self.last_lsn,
            );
        }
        // The records at or below the watermark form a prefix of the
        // memtable, since LSNs never decrease along it.
        let mut cut: usize = 0;
        while cut < self.mem.recs.len() && self.mem.recs[cut].lsn <= w
            invariant
                cut <= self.mem@.len(),
                self.mem@.len() == self.mem.recs@.len(),
                self.mem@ == old(self).mem@,
                self.mem.recs@ == old(self).mem.recs@,
                forall|j: int| 0 <= j < cut ==> self.mem@[j].lsn <= w,
            decreases self.mem@.len() - cut,
        {
            proof {
                assert(self.mem@[cut as int] == self.mem.recs@[cut as int]@);
            }
            cut += 1;
        }
        proof {
            if cut < self.mem@.len() {
                assert(self.mem@[cut as int] == self.mem.recs@[cut as int]@);
                assert(self.mem@[cut as int].lsn > w);
                assert forall|j: int| cut <= j < self.mem@.len() implies self.mem@[j].lsn > w by {
                    assert(self.mem@[cut as int].lsn <= self.mem@[j].lsn);
                }
            }
        }
        let ghost orig = *self;
        let ghost prefix = self.mem@.take(cut as int);
        let ghost suffix = self.mem@.skip(cut as int);
        // Flatten the prefix, oldest first, into the image.
        let mut i: usize = 0;
        while i < cut
            invariant
                i <= cut,
                cut <= self.mem@.len(),
                self.mem@.len() == self.mem.recs@.len(),
                self.mem@ == orig.mem@,
                self.mem.recs@ == orig.mem.recs@,
                prefix == orig.mem@.take(cut as int),
                forall|j: int| 0 <= j < cut ==> orig.mem@[j].lsn <= w,
                img_keys_unique(self.store@),
                img_lsns_at_most(self.store@, w),
                forall|k: Seq<u8>|
                    img_get(self.store@, k) == img_get_after(
                        orig.store@,
                        prefix.take(i as int),
                        k,
                    ),
                self.wal@ == orig.wal@,
                self.last_lsn == orig.last_lsn,
                self.last_checkpoint_lsn == orig.last_checkpoint_lsn,
                self.snaps.active@ == orig.snaps.active@,
                self.next_txn_id == orig.next_txn_id,
                img_lsns_at_most(orig.store@, w) || img_lsns_at_most(
                    orig.store@,
                    orig.last_checkpoint_lsn,
                ),
            decreases cut - i,
        {
            proof {
                assert(self.mem@[i as int] == self.mem.recs@[i as int]@);
                assert(prefix[i as int] == self.mem@[i as int]);
                assert(prefix.take(i + 1 as int).drop_last() =~= prefix.take(i as int));
                assert(prefix.take(i + 1 as int).last() == prefix[i as int]);
            }
            let rec = record_clone(&self.mem.recs[i]);
            self.store.upsert(rec);
            i += 1;
        }
        proof {
            assert(prefix.take(cut as int) =~= prefix);
        }
        self.mem.drop_prefix(cut);
        self.wal.truncate_prefix(cut);
        self.last_checkpoint_lsn = w;
        proof {
            assert(prefix + suffix =~= orig.mem@);
            assert forall|k: Seq<u8>, s: u64| s >= w implies self.visible(k, s) == orig.visible(
                k,
                s,
            ) by {
                lemma_checkpoint_visibility(orig.store@, prefix, suffix, w, k, s);
            }
            lemma_recs_above_split(orig.mem@, w, cut as int);
            assert forall|idx: int| 0 <= idx < orig.snaps.active@.len() implies w
                <= orig.snaps.active@[idx].lsn by {
                lemma_min_snap_le(orig.snaps.active@, idx);
            }
        }
        Ok(w)
    }

    /// The operational projection: sizes, active readers, watermarks.
    pub fn stats(&self) -> (r: Result<Stats, StorageError>)
        requires
            self.wf(),
        ensures
            match r {
                Ok(st) => {
                    &&& st.memtable_size_bytes == sat64(records_size(self.mem@, 0))
                    &&& st.wal_size_bytes == sat64(
                        records_size(self.wal@, WAL_RECORD_OVERHEAD as int),
                    )
                    &&& st.active_transactions == self.snaps.active@.len()
                    &&& st.min_active_snapshot == self.watermark()
                    &&& st.last_checkpoint_lsn == self.last_checkpoint_lsn
                },
                Err(_) => false,
            },
    {
        let min_active: u64 = match self.snaps.min_active() {
            Some(m) => m,
            None => self.last_lsn,
        };
        Ok(
            Stats {
                memtable_size_bytes: measure_records(&self.mem.recs, 0),
                wal_size_bytes: measure_records(&self.wal.recs, WAL_RECORD_OVERHEAD),
                active_transactions: self.snaps.active.len() as u64,
                min_active_snapshot: min_active,
                last_checkpoint_lsn: self.last_checkpoint_lsn,
            },
        )
    }

    /// Releases the handle. Every successful write is already durably in
    /// the WAL, so there is nothing left to flush; the state is reported
    /// unchanged so the embedding layer can persist its final copy.
    pub fn close(&mut self)
        ensures
            *final(self) == *old(self),
    {
    }

    /// The WAL records the embedding layer must hold on stable storage.
    pub fn wal_records(&self) -> (r: &Vec<Record>)
        ensures
            recs_view(r@) == self.wal@,
    {
        self.wal.records()
    }

    /// The checkpoint image entries the embedding layer must hold on
    /// stable storage, together with [`Self::checkpoint_lsn`].
    pub fn checkpoint_image(&self) -> (r: &Vec<Record>)
        ensures
            recs_view(r@) == self.store@,
    {
        &self.store.entries
    }

    /// The LSN of the last completed checkpoint.
    pub fn checkpoint_lsn(&self) -> (r: u64)
        ensures
            r == self.last_checkpoint_lsn,
    {
        self.last_checkpoint_lsn
    }
}

/// Durability: a store reopened from the durable state — the checkpoint
/// image and the WAL suffix — serves every read exactly as the store
/// did before the crash. `open` guarantees the premises for the state
/// it accepts, and `wf` guarantees the WAL carries the whole memtable.
pub proof fn lemma_recovery_preserves_reads(pre: Database, post: Database)
    requires
        pre.wf(),
        post.mem@ == pre.wal@,
        post.store@ == pre.store@,
    ensures
        forall|k: Seq<u8>, s: u64| post.visible(k, s) == pre.visible(k, s),
{
}

} // verus!
