//! A single-node time-series store: line-protocol parsing, a write-ahead log
//! with checksummed frames, a two-tier in-memory index and compressed
//! partitions. The crate holds the decisions and the codecs; whoever embeds it
//! performs the file and thread operations that its functions hand out.

pub mod ingest;
pub mod partition;
pub mod protocol;
pub mod server;
pub mod sql;
pub mod storage;
pub mod text;
pub mod wal;
