//! The sidecar of a partition: one entry for each series, in the order of the
//! sections in the data file.

use vstd::prelude::*;
use vstd::string::*;

verus! {

/// Why a partition operation cannot go on.
#[derive(Clone, Copy, Debug, PartialEq, Eq, Structural)]
pub enum PartitionError {
    /// The compressor or the decompressor has failed.
    Codec,
    /// A section is said to reach beyond the end of the data.
    Truncated,
    /// The size of a section is no multiple of the record size.
    Misaligned,
    /// A fail point fired before the partition body was written.
    WriteMetaStep,
    /// A fail point fired before the data file got its final name.
    RenameStep,
    /// A file is missing.
    NotFound,
    /// A sidecar cannot be read.
    InvalidData,
    /// There is no partition number left.
    Exhausted,
}

/// Takes a file that is missing for removed: an outcome that failed with
/// `NotFound` becomes a success, and every other outcome stays as it is.
pub fn ignore_not_found(result: Result<(), PartitionError>) -> (eased: Result<(), PartitionError>)
    ensures
        eased == match result {
            Err(PartitionError::NotFound) => Ok::<(), PartitionError>(()),
            other => other,
        },
{
    match result {
        Err(PartitionError::NotFound) => Ok(()),
        other => other,
    }
}

/// What the entry of one series holds.
pub struct MetaView {
    pub metric_name: Seq<char>,
    pub start_time: u64,
    pub end_time: u64,
    pub size: usize,
    pub start_offset: u64,
    pub end_offset: u64,
    pub uncompressed_size: u64,
    pub crc32: u32,
}

/// What a sidecar holds.
pub struct PartitionView {
    pub start_time: u64,
    pub end_time: u64,
    pub metrics: Seq<MetaView>,
}

/// The section of one series: its time range, the number of its points, and
/// the bytes that it fills in the uncompressed body.
#[derive(Debug, PartialEq)]
pub struct MetricsMeta {
    pub metric_name: String,
    pub start_time: u64,
    pub end_time: u64,
    pub size: usize,
    pub start_offset: u64,
    pub end_offset: u64,
    pub uncompressed_size: u64,
    pub crc32: u32,
}

impl View for MetricsMeta {
    type V = MetaView;

    open spec fn view(&self) -> MetaView {
        MetaView {
            metric_name: self.metric_name@,
            start_time: self.start_time,
            end_time: self.end_time,
            size: self.size,
            start_offset: self.start_offset,
            end_offset: self.end_offset,
            uncompressed_size: self.uncompressed_size,
            crc32: self.crc32,
        }
    }
}

impl MetricsMeta {
    /// An entry without offsets and without checksum.
    pub fn new(
        metric_name: String,
        start_time: u64,
        end_time: u64,
        size: usize,
        uncompressed_size: u64,
    ) -> (meta: Self)
        ensures
            meta@ == (MetaView {
                metric_name: metric_name@,
                start_time,
                end_time,
                size,
                start_offset: 0,
                end_offset: 0,
                uncompressed_size,
                crc32: 0,
            }),
    {
        MetricsMeta {
            metric_name,
            start_time,
            end_time,
            size,
            uncompressed_size,
            start_offset: 0,
            end_offset: 0,
            crc32: 0,
        }
    }

    /// The number of bytes between the two offsets.
    pub fn size_on_disk(&self) -> (size: u64)
        requires
            self.start_offset <= self.end_offset,
        ensures
            size == self.end_offset - self.start_offset,
    {
        self.end_offset - self.start_offset
    }

    /// A copy of the entry.
    pub fn duplicate(&self) -> (copy: MetricsMeta)
        ensures
            copy@ == self@,
    {
        MetricsMeta {
            metric_name: self.metric_name.clone(),
            start_time: self.start_time,
            end_time: self.end_time,
            size: self.size,
            start_offset: self.start_offset,
            end_offset: self.end_offset,
            uncompressed_size: self.uncompressed_size,
            crc32: self.crc32,
        }
    }
}

/// What a run of entries holds.
pub open spec fn meta_views(metrics: Seq<MetricsMeta>) -> Seq<MetaView> {
    metrics.map_values(|m: MetricsMeta| m@)
}

/// The sidecar of one partition: the time range of the whole and the entries
/// of the series.
#[derive(Debug, PartialEq)]
pub struct Partition {
    pub start_time: u64,
    pub end_time: u64,
    pub metrics: Vec<MetricsMeta>,
}

impl View for Partition {
    type V = PartitionView;

    open spec fn view(&self) -> PartitionView {
        PartitionView {
            start_time: self.start_time,
            end_time: self.end_time,
            metrics: meta_views(self.metrics@),
        }
    }
}

impl Partition {
    /// A sidecar without entries.
    pub fn new() -> (partition: Self)
        ensures
            partition@ == (PartitionView { start_time: 0, end_time: 0, metrics: Seq::empty() }),
    {
        let partition = Partition { start_time: 0u64, end_time: 0u64, metrics: Vec::new() };
        assert(meta_views(partition.metrics@) =~= Seq::empty());
        partition
    }

    /// A copy of the sidecar.
    pub fn duplicate(&self) -> (copy: Partition)
        ensures
            copy@ == self@,
    {
        let mut metrics: Vec<MetricsMeta> = Vec::with_capacity(self.metrics.len());
        let mut i: usize = 0;
        while i < self.metrics.len()
            invariant
                i <= self.metrics@.len(),
                metrics@.len() == i,
                forall|k: int| 0 <= k < i ==> (#[trigger] metrics@[k])@ == self.metrics@[k]@,
            decreases self.metrics@.len() - i,
        {
            metrics.push(self.metrics[i].duplicate());
            i = i + 1;
        }
        assert(meta_views(metrics@) =~= meta_views(self.metrics@));
        Partition { start_time: self.start_time, end_time: self.end_time, metrics }
    }
}

} // verus!
