//! A content-addressed file store: compressed objects, content-hash deduplication with
//! reference counts, and delta encoding against similar bases, with an index from
//! logical paths to entries. File and index I/O belong to the caller.

pub mod codec;
pub mod config;
pub mod dedup;
pub mod delta;
pub mod error;
pub mod index;
pub mod storage;
pub mod table;
pub mod text;

pub use config::{CompressionAlgorithm, Config, DeltaAlgorithm, IndexMode};
pub use dedup::{ContentDeduplicator, DedupInfo, DedupStats};
pub use delta::{BaseFileInfo, DeltaInfo, DeltaStats, DeltaStorage, Score, SimilarityMatch};
pub use error::StowrError;
pub use index::{choose_index_mode, FileEntry, MemoryIndex};
pub use storage::{Extracted, StorageManager, StoreOutcome, StoredKind};
