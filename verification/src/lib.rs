//! An embedded key-value store built as a log-structured merge tree.
//!
//! Every mutation is framed as a log record, applied to a sorted in-memory
//! table, and eventually frozen into an immutable sorted segment. Reads
//! consult the tiers from newest to oldest and stop at the first entry
//! that mentions the key. This crate holds the engine's logic; reading
//! and writing files is left to the caller.

pub mod compaction;
pub mod error;
pub mod guarantees;
pub mod keys;
pub mod manifest;
pub mod memtable;
pub mod record;
pub mod run;
pub mod schema;
pub mod segment;
pub mod storage;
pub mod tiers;
pub mod wire;

pub use error::{DbError, SchemaError};
pub use memtable::MemTable;
pub use record::{Entry, Marker, StorageOp};
pub use schema::{CompileTimeSchema, Schema};
pub use segment::Segment;
pub use storage::LsmStorage;
