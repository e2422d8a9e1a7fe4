//! Partitions: a frozen snapshot as one compressed data file and a sidecar
//! that describes its sections.

pub mod codec;
pub mod dir;
pub mod manager;
pub mod meta;
pub mod names;

pub use codec::{PartitionReader, PartitionWriter};
pub use dir::{DirOp, PartitionDir};
pub use manager::{FailPoint, PartitionManager};
pub use meta::{MetricsMeta, Partition, PartitionError};
pub use names::FileKind;
