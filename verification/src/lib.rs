//! An embedded, transactional key-value storage engine.
//!
//! One logical keyspace serves two addressing schemes: flat byte-string keys
//! and slash-delimited hierarchical path keys. Writes go through a write-ahead
//! log and an in-memory table of recent committed versions; transactions get
//! snapshot isolation through multi-version concurrency control, and
//! checkpoints flatten old versions into a durable image so the log can be
//! truncated.

pub mod checkpoint;
pub mod codec;
pub mod database;
pub mod error;
pub mod memtable;
pub mod mvcc;
pub mod record;
pub mod txn;
pub mod wal;

pub use database::{Database, Stats};
pub use error::StorageError;
pub use record::Record;
pub use txn::{Transaction, TxnState};
