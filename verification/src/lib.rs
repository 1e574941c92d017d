//! # KVS
//! `KVS` is an embedded, log-structured key-value store. Every `set` and
//! `remove` is appended to an on-disk command log, one entry per segment
//! file; `get` answers from an in-memory index rebuilt at startup by
//! replaying the log in ascending segment order.
//!
//! The store itself performs no I/O: it keeps an in-memory mirror of the
//! segment files and records the file writes and deletions each operation
//! needs as [`DiskOp`] values, which the embedding program drains and
//! applies to the store directory.

mod codec;
mod entry;
mod error;
mod laws;
mod model;
mod path;
mod permissions;
mod position;
mod reader;
mod store;
mod writer;

pub use codec::{decode, decode_at, encode, lemma_decode_of_encode, spec_decode, spec_decode_at, spec_encode};
pub use entry::{Entry, EntryModel};
pub use error::{ErrorKind, KvsError};
pub use laws::{lemma_freshness, lemma_tombstone};
pub use model::{apply_entry, apply_log, replay, seg_files_by_name, seg_map, segs_sorted};
pub use path::{segment_file_name, spec_parse_segment_id, spec_segment_file_name, ParsePath};
pub use permissions::Permissions;
pub use position::Position;
pub use reader::BufReaderWithPosition;
pub use store::{
    appended_entry, apply_disk_op, apply_disk_ops, distinct_keys, entries_of, entry_of,
    files_decodable, files_map, files_ok, lemma_one_segment_per_live_key,
    lemma_recovery_reproduces_state, lemma_store_model,
    max_file_id, seg_present, shadowed, DiskOp, KvStore, SegmentFile, COMPACTION_MINIMUM,
};
pub use writer::BufWriterWithPosition;
