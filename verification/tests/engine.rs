use toondb_storage::{Database, Record, StorageError, TxnState};

fn b(s: &[u8]) -> Vec<u8> {
    s.to_vec()
}

#[test]
fn put_then_get() {
    let mut db = Database::new();
    db.put(&b(b"a"), &b(b"1")).unwrap();
    assert_eq!(db.get(&b(b"a")).unwrap(), Some(b(b"1")));
    assert_eq!(db.get(&b(b"missing")).unwrap(), None);
}

#[test]
fn delete_leaves_tombstone() {
    let mut db = Database::new();
    db.put(&b(b"a"), &b(b"1")).unwrap();
    db.delete(&b(b"a")).unwrap();
    assert_eq!(db.get(&b(b"a")).unwrap(), None);
    // Deleting an absent key is not an error either.
    db.delete(&b(b"never")).unwrap();
    assert_eq!(db.get(&b(b"never")).unwrap(), None);
}

#[test]
fn uncommitted_writes_stay_private() {
    // Fresh store: put "a"="1"; a transaction overwrites it but until
    // commit every outside reader still sees "1"; after commit, "2".
    let mut db = Database::new();
    db.put(&b(b"a"), &b(b"1")).unwrap();
    let mut t1 = db.begin_transaction().unwrap();
    t1.put(&b(b"a"), &b(b"2")).unwrap();
    assert_eq!(db.get(&b(b"a")).unwrap(), Some(b(b"1")));
    assert_eq!(t1.get(&db, &b(b"a")).unwrap(), Some(b(b"2")));
    t1.commit(&mut db).unwrap();
    assert_eq!(db.get(&b(b"a")).unwrap(), Some(b(b"2")));
}

#[test]
fn snapshot_isolation_across_commit() {
    let mut db = Database::new();
    db.put(&b(b"k"), &b(b"old")).unwrap();
    let t1 = db.begin_transaction().unwrap();
    let mut t2 = db.begin_transaction().unwrap();
    t2.put(&b(b"k"), &b(b"new")).unwrap();
    t2.commit(&mut db).unwrap();
    // t1's snapshot predates t2's commit: it keeps reading "old" for
    // the rest of its lifetime, though the store has moved on.
    assert_eq!(t1.get(&db, &b(b"k")).unwrap(), Some(b(b"old")));
    assert_eq!(db.get(&b(b"k")).unwrap(), Some(b(b"new")));
    assert_eq!(t1.get(&db, &b(b"k")).unwrap(), Some(b(b"old")));
}

#[test]
fn write_write_conflict_first_committer_wins() {
    let mut db = Database::new();
    db.put(&b(b"other"), &b(b"kept")).unwrap();
    let mut t1 = db.begin_transaction().unwrap();
    let mut t2 = db.begin_transaction().unwrap();
    t1.put(&b(b"k"), &b(b"t1")).unwrap();
    t2.put(&b(b"k"), &b(b"t2")).unwrap();
    t2.put(&b(b"extra"), &b(b"t2")).unwrap();
    t1.commit(&mut db).unwrap();
    // The second committer loses, distinguishably from other failures,
    // and its whole write set is discarded (atomic abort).
    assert_eq!(t2.commit(&mut db), Err(StorageError::Conflict));
    assert_eq!(t2.current_state(), TxnState::Aborted);
    assert_eq!(db.get(&b(b"k")).unwrap(), Some(b(b"t1")));
    assert_eq!(db.get(&b(b"extra")).unwrap(), None);
    assert_eq!(db.get(&b(b"other")).unwrap(), Some(b(b"kept")));
}

#[test]
fn disjoint_write_sets_do_not_conflict() {
    let mut db = Database::new();
    let mut t1 = db.begin_transaction().unwrap();
    let mut t2 = db.begin_transaction().unwrap();
    t1.put(&b(b"x"), &b(b"1")).unwrap();
    t2.put(&b(b"y"), &b(b"2")).unwrap();
    t1.commit(&mut db).unwrap();
    t2.commit(&mut db).unwrap();
    assert_eq!(db.get(&b(b"x")).unwrap(), Some(b(b"1")));
    assert_eq!(db.get(&b(b"y")).unwrap(), Some(b(b"2")));
}

#[test]
fn terminal_transaction_is_inert() {
    // begin; abort; every further operation fails with the invalid-state
    // error, while a second abort is a no-op, not an error.
    let mut db = Database::new();
    let mut t = db.begin_transaction().unwrap();
    t.abort(&mut db);
    assert_eq!(t.current_state(), TxnState::Aborted);
    assert_eq!(t.put(&b(b"a"), &b(b"1")), Err(StorageError::InvalidTransactionState));
    assert_eq!(t.delete(&b(b"a")), Err(StorageError::InvalidTransactionState));
    assert_eq!(t.get(&db, &b(b"a")), Err(StorageError::InvalidTransactionState));
    assert_eq!(t.commit(&mut db), Err(StorageError::InvalidTransactionState));
    t.abort(&mut db);
    assert_eq!(t.current_state(), TxnState::Aborted);

    let mut t2 = db.begin_transaction().unwrap();
    t2.put(&b(b"c"), &b(b"3")).unwrap();
    t2.commit(&mut db).unwrap();
    assert_eq!(t2.commit(&mut db), Err(StorageError::InvalidTransactionState));
    assert_eq!(
        t2.put_path(&b(b"p"), &b(b"v")),
        Err(StorageError::InvalidTransactionState)
    );
    assert_eq!(t2.get_path(&db, &b(b"p")), Err(StorageError::InvalidTransactionState));
}

#[test]
fn aborted_writes_never_land() {
    let mut db = Database::new();
    let mut t = db.begin_transaction().unwrap();
    t.put(&b(b"gone"), &b(b"x")).unwrap();
    t.abort(&mut db);
    assert_eq!(db.get(&b(b"gone")).unwrap(), None);
}

#[test]
fn path_and_flat_namespaces_are_distinct() {
    // put_path("users/42/name", "Ann"): the path read sees it, the flat
    // read of the same bytes does not, and the other way round.
    let mut db = Database::new();
    db.put_path(&b(b"users/42/name"), &b(b"Ann")).unwrap();
    assert_eq!(db.get_path(&b(b"users/42/name")).unwrap(), Some(b(b"Ann")));
    assert_eq!(db.get(&b(b"users/42/name")).unwrap(), None);
    db.put(&b(b"users/42/name"), &b(b"flat")).unwrap();
    assert_eq!(db.get_path(&b(b"users/42/name")).unwrap(), Some(b(b"Ann")));
    assert_eq!(db.get(&b(b"users/42/name")).unwrap(), Some(b(b"flat")));
}

#[test]
fn delete_path_and_transactional_paths() {
    let mut db = Database::new();
    db.put_path(&b(b"a/b"), &b(b"1")).unwrap();
    db.delete_path(&b(b"a/b")).unwrap();
    assert_eq!(db.get_path(&b(b"a/b")).unwrap(), None);

    let mut t = db.begin_transaction().unwrap();
    t.put_path(&b(b"a/b"), &b(b"2")).unwrap();
    assert_eq!(t.get_path(&db, &b(b"a/b")).unwrap(), Some(b(b"2")));
    assert_eq!(db.get_path(&b(b"a/b")).unwrap(), None);
    t.commit(&mut db).unwrap();
    assert_eq!(db.get_path(&b(b"a/b")).unwrap(), Some(b(b"2")));
}

#[test]
fn durability_across_simulated_crash() {
    // Every successful write survives a crash before the next
    // checkpoint: reopen from the durable state (image + WAL) only.
    let mut db = Database::new();
    db.put(&b(b"a"), &b(b"1")).unwrap();
    db.put(&b(b"c"), &b(b"3")).unwrap();
    db.delete(&b(b"a")).unwrap();
    db.put_path(&b(b"p/q"), &b(b"v")).unwrap();
    let wal = db.wal_records().clone();
    let image = db.checkpoint_image().clone();
    let cp = db.checkpoint_lsn();
    drop(db);
    let db2 = Database::open(image, cp, wal).unwrap();
    assert_eq!(db2.get(&b(b"a")).unwrap(), None);
    assert_eq!(db2.get(&b(b"c")).unwrap(), Some(b(b"3")));
    assert_eq!(db2.get_path(&b(b"p/q")).unwrap(), Some(b(b"v")));
}

#[test]
fn checkpoint_preserves_reads_and_truncates_wal() {
    let mut db = Database::new();
    db.put(&b(b"a"), &b(b"1")).unwrap();
    db.put(&b(b"b"), &b(b"2")).unwrap();
    db.delete(&b(b"a")).unwrap();
    let lsn = db.checkpoint().unwrap();
    assert_eq!(lsn, 3);
    assert_eq!(db.checkpoint_lsn(), 3);
    // Reads after the checkpoint are identical to before it.
    assert_eq!(db.get(&b(b"a")).unwrap(), None);
    assert_eq!(db.get(&b(b"b")).unwrap(), Some(b(b"2")));
    // Everything below the watermark has left the WAL.
    assert_eq!(db.wal_records().len(), 0);
    // And a crash right after the checkpoint still recovers everything.
    let db2 = Database::open(
        db.checkpoint_image().clone(),
        db.checkpoint_lsn(),
        db.wal_records().clone(),
    )
    .unwrap();
    assert_eq!(db2.get(&b(b"a")).unwrap(), None);
    assert_eq!(db2.get(&b(b"b")).unwrap(), Some(b(b"2")));
}

#[test]
fn checkpoint_respects_active_snapshots() {
    let mut db = Database::new();
    db.put(&b(b"k"), &b(b"old")).unwrap();
    let t1 = db.begin_transaction().unwrap();
    db.put(&b(b"k"), &b(b"new")).unwrap();
    // The watermark is capped at t1's snapshot, so its view survives.
    let w = db.checkpoint().unwrap();
    assert_eq!(w, 1);
    assert_eq!(t1.get(&db, &b(b"k")).unwrap(), Some(b(b"old")));
    assert_eq!(db.get(&b(b"k")).unwrap(), Some(b(b"new")));
    // The still-needed record stays in the WAL.
    assert_eq!(db.wal_records().len(), 1);
}

#[test]
fn checkpoint_twice_is_stable() {
    let mut db = Database::new();
    db.put(&b(b"a"), &b(b"1")).unwrap();
    let w1 = db.checkpoint().unwrap();
    let w2 = db.checkpoint().unwrap();
    assert_eq!(w1, w2);
    assert_eq!(db.get(&b(b"a")).unwrap(), Some(b(b"1")));
}

#[test]
fn open_refuses_corrupt_state() {
    let rec = |key: &[u8], lsn: u64, value: Option<&[u8]>| Record {
        key: key.to_vec(),
        lsn,
        value: value.map(|v| v.to_vec()),
    };
    // A WAL record at or below the checkpoint watermark.
    let r = Database::open(Vec::new(), 5, vec![rec(b"k", 5, Some(b"v"))]);
    assert_eq!(r.err(), Some(StorageError::Corruption));
    // A WAL out of LSN order.
    let r = Database::open(
        Vec::new(),
        0,
        vec![rec(b"k", 2, Some(b"v")), rec(b"k", 1, Some(b"v"))],
    );
    assert_eq!(r.err(), Some(StorageError::Corruption));
    // An image with a duplicated key.
    let r = Database::open(
        vec![rec(b"k", 1, Some(b"a")), rec(b"k", 2, Some(b"b"))],
        3,
        Vec::new(),
    );
    assert_eq!(r.err(), Some(StorageError::Corruption));
    // An image entry above the checkpoint watermark.
    let r = Database::open(vec![rec(b"k", 9, Some(b"a"))], 3, Vec::new());
    assert_eq!(r.err(), Some(StorageError::Corruption));
    // The empty fresh state is fine.
    assert!(Database::open(Vec::new(), 0, Vec::new()).is_ok());
}

#[test]
fn stats_report_the_engine_state() {
    let mut db = Database::new();
    let st = db.stats().unwrap();
    assert_eq!(st.memtable_size_bytes, 0);
    assert_eq!(st.wal_size_bytes, 0);
    assert_eq!(st.active_transactions, 0);
    assert_eq!(st.min_active_snapshot, 0);
    assert_eq!(st.last_checkpoint_lsn, 0);

    // One record: internal key is the tagged flat key (2 bytes) plus a
    // 1-byte value; the WAL adds 17 bytes of framing per record.
    db.put(&b(b"a"), &b(b"1")).unwrap();
    let st = db.stats().unwrap();
    assert_eq!(st.memtable_size_bytes, 3);
    assert_eq!(st.wal_size_bytes, 20);
    assert_eq!(st.min_active_snapshot, 1);

    let mut t = db.begin_transaction().unwrap();
    db.put(&b(b"b"), &b(b"2")).unwrap();
    let st = db.stats().unwrap();
    assert_eq!(st.active_transactions, 1);
    // The held snapshot pins the reclamation watermark.
    assert_eq!(st.min_active_snapshot, 1);
    t.abort(&mut db);

    db.checkpoint().unwrap();
    let st = db.stats().unwrap();
    assert_eq!(st.active_transactions, 0);
    assert_eq!(st.last_checkpoint_lsn, 2);
    assert_eq!(st.wal_size_bytes, 0);
}

#[test]
fn close_keeps_durable_state() {
    let mut db = Database::new();
    db.put(&b(b"a"), &b(b"1")).unwrap();
    db.close();
    let db2 = Database::open(
        db.checkpoint_image().clone(),
        db.checkpoint_lsn(),
        db.wal_records().clone(),
    )
    .unwrap();
    assert_eq!(db2.get(&b(b"a")).unwrap(), Some(b(b"1")));
}

#[test]
fn error_messages_are_stable() {
    assert_eq!(
        StorageError::InvalidTransactionState.message(),
        "transaction already committed or aborted"
    );
    assert_eq!(StorageError::Conflict.message(), "write-write conflict");
    assert_eq!(StorageError::Corruption.message(), "corrupt store");
}

#[test]
fn later_writes_in_one_transaction_shadow_earlier_ones() {
    let mut db = Database::new();
    let mut t = db.begin_transaction().unwrap();
    t.put(&b(b"k"), &b(b"first")).unwrap();
    t.put(&b(b"k"), &b(b"second")).unwrap();
    t.delete(&b(b"k")).unwrap();
    t.put(&b(b"k"), &b(b"final")).unwrap();
    assert_eq!(t.get(&db, &b(b"k")).unwrap(), Some(b(b"final")));
    t.commit(&mut db).unwrap();
    assert_eq!(db.get(&b(b"k")).unwrap(), Some(b(b"final")));
}
