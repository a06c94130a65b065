//! Mutation records: the unit of committed change.
//!
//! A record captures one mutation — a value written for a key, or a
//! tombstone marking a deletion — together with the log sequence number
//! (LSN) of the commit that produced it. Records are immutable once
//! written; the LSN axis is the single global order of all commits.

use vstd::prelude::*;

verus! {

/// One committed mutation.
#[derive(Clone, Debug)]
pub struct Record {
    pub key: Vec<u8>,
    /// The commit LSN; assigned exactly once, never reused.
    pub lsn: u64,
    /// `Some` for a put, `None` for a delete (tombstone).
    pub value: Option<Vec<u8>>,
}

/// The mathematical form of a record.
pub struct RecordView {
    pub key: Seq<u8>,
    pub lsn: u64,
    pub value: Option<Seq<u8>>,
}

/// The view of an optional byte string.
pub open spec fn opt_bytes_view(o: Option<Vec<u8>>) -> Option<Seq<u8>> {
    match o {
        Some(v) => Some(v@),
        None => None,
    }
}

/// The view of a nested optional result, as reads return them.
pub open spec fn opt2_view(o: Option<Option<Vec<u8>>>) -> Option<Option<Seq<u8>>> {
    match o {
        Some(v) => Some(opt_bytes_view(v)),
        None => None,
    }
}

impl View for Record {
    type V = RecordView;

    open spec fn view(&self) -> RecordView {
        RecordView { key: self.key@, lsn: self.lsn, value: opt_bytes_view(self.value) }
    }
}

/// The views of a vector of records.
pub open spec fn recs_view(rs: Seq<Record>) -> Seq<RecordView> {
    rs.map(|i: int, r: Record| r@)
}

/// Byte-string equality.
pub fn bytes_eq(a: &Vec<u8>, b: &Vec<u8>) -> (r: bool)
    ensures
        r <==> a@ == b@,
{
    if a.len() != b.len() {
        return false;
    }
    let mut i: usize = 0;
    while i < a.len()
        invariant
            i <= a@.len(),
            a@.len() == b@.len(),
            forall|j: int| 0 <= j < i ==> a@[j] == b@[j],
        decreases a@.len() - i,
    {
        if a[i] != b[i] {
            return false;
        }
        i += 1;
    }
    proof {
        assert(a@ =~= b@);
    }
    true
}

/// An exact copy of a byte string.
pub fn bytes_clone(a: &Vec<u8>) -> (r: Vec<u8>)
    ensures
        r@ == a@,
{
    let mut out: Vec<u8> = Vec::new();
    let mut i: usize = 0;
    while i < a.len()
        invariant
            i <= a@.len(),
            out@ == a@.take(i as int),
        decreases a@.len() - i,
    {
        out.push(a[i]);
        proof {
            assert(a@.take(i as int).push(a@[i as int]) =~= a@.take(i + 1 as int));
        }
        i += 1;
    }
    proof {
        assert(a@.take(a@.len() as int) =~= a@);
    }
    out
}

/// An exact copy of an optional byte string.
pub fn opt_bytes_clone(a: &Option<Vec<u8>>) -> (r: Option<Vec<u8>>)
    ensures
        opt_bytes_view(r) == opt_bytes_view(*a),
{
    match a {
        Some(v) => Some(bytes_clone(v)),
        None => None,
    }
}

/// An exact copy of a record.
pub fn record_clone(r: &Record) -> (c: Record)
    ensures
        c@ == r@,
{
    Record { key: bytes_clone(&r.key), lsn: r.lsn, value: opt_bytes_clone(&r.value) }
}

/// Saturation of an unbounded count into a 64-bit report.
pub open spec fn sat64(n: int) -> u64 {
    if n > u64::MAX {
        u64::MAX as u64
    } else if n < 0 {
        0u64
    } else {
        n as u64
    }
}

/// Saturating 64-bit addition.
pub fn sat_add(a: u64, b: u64) -> (r: u64)
    ensures
        r == sat64(a + b),
{
    if a > u64::MAX - b {
        u64::MAX
    } else {
        a + b
    }
}

/// The bytes a record contributes to a size report: its key and value
/// bytes plus a fixed per-record overhead.
pub open spec fn record_size(r: RecordView, overhead: int) -> int {
    overhead + r.key.len() + match r.value {
        Some(v) => v.len() as int,
        None => 0,
    }
}

/// The total size of a sequence of records.
pub open spec fn records_size(rs: Seq<RecordView>, overhead: int) -> int
    decreases rs.len(),
{
    if rs.len() == 0 {
        0
    } else {
        records_size(rs.drop_last(), overhead) + record_size(rs.last(), overhead)
    }
}

/// A size is never negative.
proof fn lemma_records_size_nonneg(rs: Seq<RecordView>, overhead: int)
    requires
        overhead >= 0,
    ensures
        records_size(rs, overhead) >= 0,
    decreases rs.len(),
{
    if rs.len() > 0 {
        lemma_records_size_nonneg(rs.drop_last(), overhead);
    }
}

/// Sums record sizes, saturating at the 64-bit limit.
pub fn measure_records(rs: &Vec<Record>, overhead: u64) -> (r: u64)
    ensures
        r == sat64(records_size(recs_view(rs@), overhead as int)),
{
    let ghost rv = recs_view(rs@);
    let mut acc: u64 = 0;
    let mut i: usize = 0;
    while i < rs.len()
        invariant
            i <= rs@.len(),
            rv == recs_view(rs@),
            acc == sat64(records_size(rv.take(i as int), overhead as int)),
        decreases rs@.len() - i,
    {
        let ghost done = rv.take(i as int);
        proof {
            assert(rv.take(i + 1 as int).drop_last() =~= done);
            assert(rv.take(i + 1 as int).last() == rv[i as int]);
            assert(rv[i as int] == rs@[i as int]@);
            lemma_records_size_nonneg(done, overhead as int);
            assert(records_size(rv.take(i + 1 as int), overhead as int) == records_size(
                done,
                overhead as int,
            ) + record_size(rv[i as int], overhead as int));
        }
        acc = sat_add(acc, overhead);
        let kl = rs[i].key.len();
        acc = sat_add(acc, kl as u64);
        match &rs[i].value {
            Some(v) => {
                let vl = v.len();
                acc = sat_add(acc, vl as u64);
            },
            None => {},
        }
        i += 1;
    }
    proof {
        assert(rv.take(rv.len() as int) =~= rv);
    }
    acc
}

} // verus!
