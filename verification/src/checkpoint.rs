//! The checkpoint store: the flattened, durable image of everything
//! flushed out of the memtable.
//!
//! The image holds at most one entry per key — the record with the
//! greatest LSN at or below the checkpoint watermark — and is consulted
//! when a read finds no visible version in the memtable. Tombstones are
//! kept as entries so that a flushed deletion still hides anything older.
//! Installing a new image entry supersedes the prior entry for the same
//! key; the on-disk copy of the image is written by the embedding layer,
//! crash-atomically, from the state this store reports.

use vstd::prelude::*;

use crate::record::{bytes_eq, opt_bytes_clone, opt2_view, Record, RecordView, recs_view};

verus! {

/// The flattened image of flushed keys.
pub struct CheckpointStore {
    pub entries: Vec<Record>,
}

impl View for CheckpointStore {
    type V = Seq<RecordView>;

    open spec fn view(&self) -> Seq<RecordView> {
        recs_view(self.entries@)
    }
}

/// At most one image entry per key.
pub open spec fn img_keys_unique(es: Seq<RecordView>) -> bool {
    forall|i: int, j: int| 0 <= i < j < es.len() ==> es[i].key != es[j].key
}

/// Every image entry's LSN is at most `hi`.
pub open spec fn img_lsns_at_most(es: Seq<RecordView>, hi: u64) -> bool {
    forall|i: int| 0 <= i < es.len() ==> es[i].lsn <= hi
}

/// The image entry for `k`, if one exists.
pub open spec fn img_get(es: Seq<RecordView>, k: Seq<u8>) -> Option<RecordView>
    decreases es.len(),
{
    if es.len() == 0 {
        None
    } else if es.last().key == k {
        Some(es.last())
    } else {
        img_get(es.drop_last(), k)
    }
}

/// The value the image reports for `k`: `Some(None)` is a flushed
/// tombstone, `None` means the key was never flushed.
pub open spec fn img_value(es: Seq<RecordView>, k: Seq<u8>) -> Option<Option<Seq<u8>>> {
    match img_get(es, k) {
        Some(e) => Some(e.value),
        None => None,
    }
}

proof fn lemma_img_get_update(es: Seq<RecordView>, i: int, rec: RecordView, k: Seq<u8>)
    requires
        img_keys_unique(es),
        0 <= i < es.len(),
        es[i].key == rec.key,
    ensures
        img_get(es.update(i, rec), k) == if k == rec.key {
            Some(rec)
        } else {
            img_get(es, k)
        },
    decreases es.len(),
{
    let up = es.update(i, rec);
    if i == es.len() - 1 {
        assert(up.last() == rec);
        if k != rec.key {
            assert(up.drop_last() =~= es.drop_last());
        }
    } else {
        assert(up.last() == es.last());
        assert(up.drop_last() =~= es.drop_last().update(i, rec));
        if es.last().key == k {
            if k == rec.key {
                assert(es[i].key == es[es.len() - 1].key);
                assert(false);
            }
        } else {
            lemma_img_get_update(es.drop_last(), i, rec, k);
        }
    }
}

impl CheckpointStore {
    /// An empty image.
    pub fn new() -> (r: CheckpointStore)
        ensures
            r@ == Seq::<RecordView>::empty(),
    {
        let s = CheckpointStore { entries: Vec::new() };
        proof {
            assert(s@ =~= Seq::<RecordView>::empty());
        }
        s
    }

    /// The flushed value for `key`, if the image holds one.
    pub fn get(&self, key: &Vec<u8>) -> (r: Option<Option<Vec<u8>>>)
        ensures
            opt2_view(r) == img_value(self@, key@),
    {
        let mut i: usize = self.entries.len();
        proof {
            assert(self@.take(self@.len() as int) =~= self@);
        }
        while i > 0
            invariant
                i <= self@.len(),
                self@.len() == self.entries@.len(),
                img_get(self@, key@) == img_get(self@.take(i as int), key@),
            decreases i,
        {
            i -= 1;
            proof {
                assert(self@.take(i + 1 as int).last() == self@[i as int]);
                assert(self@.take(i + 1 as int).drop_last() =~= self@.take(i as int));
                assert(self@[i as int] == self.entries@[i as int]@);
            }
            let e = &self.entries[i];
            if bytes_eq(&e.key, key) {
                return Some(opt_bytes_clone(&e.value));
            }
        }
        None
    }

    /// Installs one flushed record, superseding any prior entry for the
    /// same key.
    pub fn upsert(&mut self, rec: Record)
        requires
            img_keys_unique(old(self)@),
        ensures
            img_keys_unique(final(self)@),
            forall|k: Seq<u8>|
                img_get(final(self)@, k) == if k == rec@.key {
                    Some(rec@)
                } else {
                    img_get(old(self)@, k)
                },
            forall|hi: u64|
                img_lsns_at_most(old(self)@, hi) && rec@.lsn <= hi ==> img_lsns_at_most(
                    final(self)@,
                    hi,
                ),
    {
        let mut i: usize = 0;
        while i < self.entries.len()
            invariant
                i <= self@.len(),
                self@.len() == self.entries@.len(),
                self@ == old(self)@,
                self.entries@ == old(self).entries@,
                img_keys_unique(old(self)@),
                forall|j: int| 0 <= j < i ==> self@[j].key != rec@.key,
            decreases self@.len() - i,
        {
            proof {
                assert(self@[i as int] == self.entries@[i as int]@);
            }
            let found = bytes_eq(&self.entries[i].key, &rec.key);
            if found {
                let ghost oldview = self@;
                let _ = self.entries.remove(i);
                self.entries.insert(i, rec);
                proof {
                    assert(self.entries@ =~= old(self).entries@.update(i as int, rec));
                    assert(self@ =~= oldview.update(i as int, rec@));
                    assert forall|k: Seq<u8>|
                        img_get(self@, k) == (if k == rec@.key {
                            Some(rec@)
                        } else {
                            img_get(oldview, k)
                        }) by {
                        lemma_img_get_update(oldview, i as int, rec@, k);
                    }
                    assert forall|i2: int, j2: int|
                        0 <= i2 < j2 < self@.len() implies self@[i2].key != self@[j2].key by {
                        assert(oldview[i2].key != oldview[j2].key);
                    }
                }
                return ;
            }
            i += 1;
        }
        let ghost oldview = self@;
        self.entries.push(rec);
        proof {
            assert(self@ =~= oldview.push(rec@));
            assert(self@.drop_last() =~= oldview);
            assert(forall|j: int| 0 <= j < oldview.len() ==> oldview[j].key != rec@.key);
        }
    }
}

} // verus!
