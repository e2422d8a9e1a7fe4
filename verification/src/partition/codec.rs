//! The data file of a partition. Its uncompressed body is the sections of the
//! series, one behind the other; a section is a run of 16-byte records; a
//! record is the timestamp and the bits of the value, both as little-endian
//! `u64`. In the data file each section is one zstd frame, and the frames
//! stand one behind the other in the order of the sections; the sidecar says
//! where in the file each frame starts and ends.

use vstd::prelude::*;
use vstd::bytes::*;
use vstd::slice::*;
use vstd::string::*;
use std::sync::Arc;
use crate::partition::meta::{
    meta_views, MetaView, MetricsMeta, Partition, PartitionError, PartitionView,
};
use crate::storage::{
    entries_wf, insert_points, lemma_insert_point_wf, lemma_insert_points_concat,
    lemma_position_of_is, views, DataPoint, MetricsData, PointView,
};

verus! {

/// Bytes of one record.
pub const RECORD_SIZE: usize = 16;

/// The bytes that `zstd::decode_all` returns for `packed`, or `None` when it
/// returns an error.
pub uninterp spec fn zstd_unpacked(packed: Seq<u8>) -> Option<Seq<u8>>;

/// The frame that `zstd::encode_all` returns for `body` at the compression
/// level `level`, or `None` when it returns an error.
pub uninterp spec fn zstd_packed(body: Seq<u8>, level: i32) -> Option<Seq<u8>>;

/// Reads the upper end of `zstd::compression_level_range`: the highest level
/// that the linked zstd accepts. Nothing is claimed of the number.
#[verifier::external_body]
fn zstd_max_level() -> (level: i32) {
    *zstd::compression_level_range().end()
}

/// Calls `zstd::encode_all` on the slice. It returns one zstd frame or an
/// error. What it returns depends on the bytes and the level alone, so the
/// contract equates it with `zstd_packed`. It also claims the round trip
/// that the crate documents: what it returns decodes, with
/// `zstd::decode_all`, to the bytes that were put in.
#[verifier::external_body]
fn zstd_pack(body: &[u8], level: i32) -> (packed: Option<Vec<u8>>)
    ensures
        packed is Some == zstd_packed(body@, level) is Some,
        packed matches Some(bytes) ==> zstd_packed(body@, level) == Some(bytes@),
        packed matches Some(bytes) ==> zstd_unpacked(bytes@) == Some(body@),
{
    zstd::encode_all(body, level).ok()
}

/// Calls `zstd::decode_all` on the slice. What it returns depends on the
/// bytes alone, so the contract equates it with `zstd_unpacked`.
#[verifier::external_body]
fn zstd_unpack(packed: &[u8]) -> (body: Option<Vec<u8>>)
    ensures
        body is Some == zstd_unpacked(packed@) is Some,
        body matches Some(bytes) ==> zstd_unpacked(packed@) == Some(bytes@),
{
    zstd::decode_all(packed).ok()
}

/// The record of one point.
pub open spec fn record(point: PointView) -> Seq<u8> {
    spec_u64_to_le_bytes(point.timestamp) + spec_u64_to_le_bytes(point.value)
}

/// The section of one series: the records of its points, in their order.
pub open spec fn section(points: Seq<PointView>) -> Seq<u8>
    decreases points.len(),
{
    if points.len() == 0 {
        Seq::empty()
    } else {
        section(points.drop_last()) + record(points.last())
    }
}

/// The uncompressed body: the sections of the series, in their order.
pub open spec fn body(entries: Seq<(Seq<char>, Seq<PointView>)>) -> Seq<u8>
    decreases entries.len(),
{
    if entries.len() == 0 {
        Seq::empty()
    } else {
        body(entries.drop_last()) + section(entries.last().1)
    }
}

/// The entry of a series whose section starts at `start` in the body.
pub open spec fn meta_of(entry: (Seq<char>, Seq<PointView>), start: nat) -> MetaView {
    MetaView {
        metric_name: entry.0,
        start_time: entry.1.first().timestamp,
        end_time: entry.1.last().timestamp,
        size: entry.1.len() as usize,
        start_offset: start as u64,
        end_offset: (start + 16 * entry.1.len()) as u64,
        uncompressed_size: (16 * entry.1.len()) as u64,
        crc32: 0,
    }
}

/// The entries of the series, in their order.
pub open spec fn metas(entries: Seq<(Seq<char>, Seq<PointView>)>) -> Seq<MetaView>
    decreases entries.len(),
{
    if entries.len() == 0 {
        Seq::empty()
    } else {
        metas(entries.drop_last()).push(meta_of(entries.last(), body(entries.drop_last()).len()))
    }
}

/// The earliest start among the entries, or 0 when there is none.
pub open spec fn earliest(metrics: Seq<MetaView>) -> u64
    decreases metrics.len(),
{
    if metrics.len() == 0 {
        0
    } else if metrics.len() == 1 || metrics.last().start_time < earliest(metrics.drop_last()) {
        metrics.last().start_time
    } else {
        earliest(metrics.drop_last())
    }
}

/// The latest end among the entries, or 0 when there is none.
pub open spec fn latest(metrics: Seq<MetaView>) -> u64
    decreases metrics.len(),
{
    if metrics.len() == 0 {
        0
    } else if metrics.last().end_time > latest(metrics.drop_last()) {
        metrics.last().end_time
    } else {
        latest(metrics.drop_last())
    }
}

/// The sidecar of the partition that holds the series.
pub open spec fn partition_of(entries: Seq<(Seq<char>, Seq<PointView>)>) -> PartitionView {
    PartitionView {
        start_time: earliest(metas(entries)),
        end_time: latest(metas(entries)),
        metrics: metas(entries),
    }
}

/// A section has 16 bytes for each point.
pub proof fn lemma_section_len(points: Seq<PointView>)
    ensures
        section(points).len() == 16 * points.len(),
    decreases points.len(),
{
    lemma_auto_spec_u64_to_from_le_bytes();
    if points.len() > 0 {
        lemma_section_len(points.drop_last());
    }
}

/// Writes partitions.
pub struct PartitionWriter {}

impl PartitionWriter {
    /// The uncompressed body and the sidecar of the partition that holds
    /// `data`.
    pub fn encode(data: &MetricsData) -> (encoded: (Vec<u8>, Partition))
        requires
            data.wf(),
        ensures
            encoded.0@ == body(data.entries()),
            encoded.1@ == partition_of(data.entries()),
    {
        let ghost entries = data.entries();
        let mut out: Vec<u8> = Vec::new();
        let mut partition: Partition = Partition::new();
        let mut i: usize = 0;
        assert(entries.take(0) =~= Seq::empty());
        while i < data.len()
            invariant
                i <= entries.len(),
                entries == data.entries(),
                entries_wf(entries),
                out@ == body(entries.take(i as int)),
                partition@ == partition_of(entries.take(i as int)),
            decreases entries.len() - i,
        {
            let name: &str = data.series_name(i);
            let points: &Vec<DataPoint> = data.series_points(i);
            let start: usize = out.len();
            let ghost done = entries.take(i as int);
            let ghost entry = entries[i as int];
            proof {
                assert(entries.take(i + 1).drop_last() == done);
                assert(entries.take(i + 1).last() == entry);
                assert(views(points@).take(0) =~= Seq::empty());
            }
            let mut k: usize = 0;
            while k < points.len()
                invariant
                    k <= points@.len(),
                    out@ == body(done) + section(views(points@).take(k as int)),
                decreases points@.len() - k,
            {
                proof {
                    assert(views(points@).take(k + 1).drop_last() == views(points@).take(k as int));
                    assert(views(points@).take(k + 1).last() == points@[k as int]@);
                }
                let mut timestamp: Vec<u8> = u64_to_le_bytes(points[k].timestamp);
                let mut value: Vec<u8> = u64_to_le_bytes(points[k].value);
                out.append(&mut timestamp);
                out.append(&mut value);
                assert(out@ =~= body(done) + section(views(points@).take(k + 1)));
                k = k + 1;
            }
            proof {
                assert(views(points@).take(points@.len() as int) == views(points@));
                lemma_section_len(entry.1);
                assert(entry.1.first() == points@[0]@);
                assert(entry.1.last() == points@[points@.len() - 1]@);
            }
            let first: u64 = points[0].timestamp;
            let last: u64 = points[points.len() - 1].timestamp;
            let mut meta: MetricsMeta = MetricsMeta::new(
                String::from_str(name),
                first,
                last,
                points.len(),
                (out.len() - start) as u64,
            );
            meta.start_offset = start as u64;
            meta.end_offset = out.len() as u64;
            if partition.metrics.len() == 0 || first < partition.start_time {
                partition.start_time = first;
            }
            if last > partition.end_time {
                partition.end_time = last;
            }
            let ghost listed = partition.metrics@;
            partition.metrics.push(meta);
            proof {
                let all = metas(entries.take(i + 1));
                assert(meta@ == meta_of(entry, body(done).len()));
                assert(all == metas(done).push(meta@));
                assert(all.drop_last() == metas(done));
                assert(all.last() == meta@);
                assert(listed.len() == metas(done).len());
                assert(partition@.metrics =~= all);
                assert(partition@.start_time == earliest(all));
                assert(partition@.end_time == latest(all));
            }
            i = i + 1;
        }
        proof {
            assert(entries.take(entries.len() as int) == entries);
        }
        (out, partition)
    }

    /// The data file and the sidecar of the partition that holds `data`.
    /// Each section is compressed at the highest level into a frame of its
    /// own; the sidecar's offsets are the places of the frames in the file.
    /// The call fails when the compressor does; with no series there is
    /// nothing to compress, and the file is empty. It is `write_partition_at`
    /// at the highest level that the compressor has.
    pub fn write_partition(data: &MetricsData) -> (written: Result<(Vec<u8>, Partition), PartitionError>)
        requires
            data.wf(),
        ensures
            exists|level: i32| #[trigger] wrote(data.entries(), level, files_view(written)),
            written matches Ok(files) ==> describes(files.0@, files.1@, data.entries()),
            written matches Err(e) ==> e == PartitionError::Codec,
            data.entries().len() == 0 ==> written is Ok,
    {
        let level: i32 = zstd_max_level();
        let written = PartitionWriter::write_partition_at(data, level);
        assert(wrote(data.entries(), level, files_view(written)));
        written
    }

    /// Puts the frame of the section at `i` behind what the file holds, and
    /// writes the place that the frame has got into the entry at `i`.
    pub fn put_frame(file: &mut Vec<u8>, metrics: &mut Vec<MetricsMeta>, i: usize, frame: Vec<u8>)
        requires
            i < old(metrics)@.len(),
        ensures
            final(file)@ == old(file)@ + frame@,
            final(metrics)@.len() == old(metrics)@.len(),
            meta_views(final(metrics)@) == meta_views(old(metrics)@).update(
                i as int,
                placed(
                    old(metrics)@[i as int]@,
                    old(file)@.len() as u64,
                    final(file)@.len() as u64,
                ),
            ),
    {
        let mut frame = frame;
        let start: usize = file.len();
        file.append(&mut frame);
        set_offsets(metrics, i, start as u64, file.len() as u64);
    }

    /// The data file and the sidecar of the partition that holds `data`,
    /// with each section compressed at `level` into a frame of its own. The
    /// call succeeds exactly when the compressor takes every section.
    #[verifier::rlimit(60)]
    pub fn write_partition_at(data: &MetricsData, level: i32) -> (written: Result<
        (Vec<u8>, Partition),
        PartitionError,
    >)
        requires
            data.wf(),
        ensures
            wrote(data.entries(), level, files_view(written)),
            written is Ok <==> packs(data.entries(), level),
            written matches Ok(files) ==> describes(files.0@, files.1@, data.entries()),
            written matches Err(e) ==> e == PartitionError::Codec,
    {
        let ghost entries = data.entries();
        let (plain, mut partition) = PartitionWriter::encode(data);
        let ghost sections = partition_of(entries).metrics;
        let mut file: Vec<u8> = Vec::new();
        let count: usize = partition.metrics.len();
        let size: usize = plain.len();
        let mut i: usize = 0;
        proof {
            lemma_metas_len(entries);
        }
        while i < count
            invariant
                i <= count == sections.len(),
                entries == data.entries(),
                sections == partition_of(entries).metrics,
                sections.len() == entries.len(),
                plain@ == body(entries),
                size == plain@.len(),
                partition@.start_time == partition_of(entries).start_time,
                partition@.end_time == partition_of(entries).end_time,
                partition@.metrics.len() == count,
                partition.metrics@.len() == count,
                forall|k: int| i <= k < count ==> #[trigger] partition@.metrics[k] == sections[k],
                forall|k: int|
                    0 <= k < i ==> framed(file@, #[trigger] partition@.metrics[k], sections[k], entries[k].1),
                forall|k: int|
                    0 <= k < i ==> frame_of(file@, #[trigger] partition@.metrics[k], entries[k].1, level),
                forall|k: int|
                    0 <= k < i ==> (#[trigger] partition@.metrics[k]).start_offset == if k == 0 {
                        0
                    } else {
                        partition@.metrics[k - 1].end_offset
                    },
                file@.len() == if i == 0 {
                    0
                } else {
                    partition@.metrics[i - 1].end_offset as nat
                },
            decreases count - i,
        {
            proof {
                lemma_section_place(entries, i as int);
                assert(partition@.metrics[i as int] == partition.metrics@[i as int]@);
                assert(partition.metrics@[i as int]@ == sections[i as int]);
            }
            let from: usize = partition.metrics[i].start_offset as usize;
            let to: usize = partition.metrics[i].end_offset as usize;
            let packed: Vec<u8> = match zstd_pack(slice_subrange(plain.as_slice(), from, to), level) {
                Some(packed) => packed,
                None => {
                    proof {
                        assert(zstd_packed(section(entries[i as int].1), level) is None);
                        assert(!packs(entries, level));
                    }
                    return Err(PartitionError::Codec);
                },
            };
            let ghost frame = packed@;
            let ghost before = file@;
            let ghost listed = partition@.metrics;
            let start: usize = file.len();
            PartitionWriter::put_frame(&mut file, &mut partition.metrics, i, packed);
            let end: usize = file.len();
            proof {
                let put = placed(listed[i as int], start as u64, end as u64);
                assert(file@ == before + frame);
                assert(end == start + frame.len());
                assert(partition@.metrics == listed.update(i as int, put));
                assert(partition@.metrics[i as int] == put);
                assert(put.start_offset == start && put.end_offset == file@.len());
                assert(file@.subrange(start as int, file@.len() as int) == frame);
                assert(zstd_packed(section(entries[i as int].1), level) == Some(frame));
                assert(framed(file@, put, sections[i as int], entries[i as int].1));
                assert(frame_of(file@, put, entries[i as int].1, level));
                assert forall|k: int| 0 <= k < i implies framed(
                    file@,
                    #[trigger] partition@.metrics[k],
                    sections[k],
                    entries[k].1,
                ) && frame_of(file@, partition@.metrics[k], entries[k].1, level) by {
                    assert(partition@.metrics[k] == listed[k]);
                    assert(framed(before, listed[k], sections[k], entries[k].1));
                    assert(frame_of(before, listed[k], entries[k].1, level));
                    assert(file@.subrange(
                        listed[k].start_offset as int,
                        listed[k].end_offset as int,
                    ) == before.subrange(listed[k].start_offset as int, listed[k].end_offset as int));
                }
            }
            i = i + 1;
        }
        proof {
            assert(packs(entries, level)) by {
                assert forall|k: int| 0 <= k < entries.len() implies zstd_packed(
                    section(#[trigger] entries[k].1),
                    level,
                ) is Some by {
                    assert(frame_of(file@, partition@.metrics[k], entries[k].1, level));
                }
            }
        }
        Ok((file, partition))
    }
}

/// The compressor takes the section of every series at `level`.
pub open spec fn packs(entries: Seq<(Seq<char>, Seq<PointView>)>, level: i32) -> bool {
    forall|k: int| 0 <= k < entries.len() ==> zstd_packed(section(#[trigger] entries[k].1), level) is Some
}

/// The bytes of `file` at the place that `meta` gives are the frame that the
/// compressor makes of the section of `points` at `level`.
pub open spec fn frame_of(file: Seq<u8>, meta: MetaView, points: Seq<PointView>, level: i32) -> bool {
    zstd_packed(section(points), level) == Some(
        file.subrange(meta.start_offset as int, meta.end_offset as int),
    )
}

/// What a written data file and its sidecar hold, or the error.
pub open spec fn files_view(written: Result<(Vec<u8>, Partition), PartitionError>) -> Result<
    (Seq<u8>, PartitionView),
    PartitionError,
> {
    match written {
        Ok(files) => Ok((files.0@, files.1@)),
        Err(e) => Err(e),
    }
}

/// What writing the series `entries` at `level` gives. Where the compressor
/// takes every section: the data file whose frames are what the compressor
/// makes of the sections, in their order and with nothing between them, and
/// the sidecar that describes it. Where it fails on a section: the error of
/// the compressor.
pub open spec fn wrote(
    entries: Seq<(Seq<char>, Seq<PointView>)>,
    level: i32,
    written: Result<(Seq<u8>, PartitionView), PartitionError>,
) -> bool {
    match written {
        Ok(files) => {
            &&& packs(entries, level)
            &&& describes(files.0, files.1, entries)
            &&& forall|k: int|
                0 <= k < entries.len() ==> frame_of(
                    files.0,
                    #[trigger] files.1.metrics[k],
                    entries[k].1,
                    level,
                )
        },
        Err(e) => e == PartitionError::Codec && !packs(entries, level),
    }
}

/// Writes the place of its frame into the entry at `i`.
fn set_offsets(metrics: &mut Vec<MetricsMeta>, i: usize, start: u64, end: u64)
    requires
        i < old(metrics)@.len(),
    ensures
        final(metrics)@.len() == old(metrics)@.len(),
        meta_views(final(metrics)@) == meta_views(old(metrics)@).update(
            i as int,
            placed(old(metrics)@[i as int]@, start, end),
        ),
{
    let ghost held = metrics@;
    metrics[i].start_offset = start;
    metrics[i].end_offset = end;
    proof {
        assert(metrics@.len() == held.len());
        assert(metrics@[i as int].metric_name == held[i as int].metric_name);
        assert forall|k: int| 0 <= k < held.len() && k != i implies metrics@[k] == held[k] by {}
        assert(meta_views(metrics@) =~= meta_views(held).update(
            i as int,
            placed(held[i as int]@, start, end),
        ));
    }
}

/// The entry `meta` with its place in the data file.
pub open spec fn placed(meta: MetaView, start: u64, end: u64) -> MetaView {
    MetaView {
        metric_name: meta.metric_name,
        start_time: meta.start_time,
        end_time: meta.end_time,
        size: meta.size,
        start_offset: start,
        end_offset: end,
        uncompressed_size: meta.uncompressed_size,
        crc32: meta.crc32,
    }
}

/// The entry `meta` is the entry `plain` of the body but for its offsets,
/// which mark a frame within `file` that unpacks to the section of `points`.
pub open spec fn framed(file: Seq<u8>, meta: MetaView, plain: MetaView, points: Seq<PointView>) -> bool {
    &&& meta == placed(plain, meta.start_offset, meta.end_offset)
    &&& meta.start_offset <= meta.end_offset <= file.len()
    &&& zstd_unpacked(file.subrange(meta.start_offset as int, meta.end_offset as int)) == Some(
        section(points),
    )
}

/// `partition` is the sidecar of the data file `file` that holds the series
/// `entries`: it says of each series what the sidecar of the body says, and
/// where its frame lies. The frames fill the file in the order of the
/// entries, the first from offset 0, each next one from where the one
/// before ends, the last to the end of the file.
pub open spec fn describes(
    file: Seq<u8>,
    partition: PartitionView,
    entries: Seq<(Seq<char>, Seq<PointView>)>,
) -> bool {
    let plain = partition_of(entries);
    &&& partition.start_time == plain.start_time
    &&& partition.end_time == plain.end_time
    &&& partition.metrics.len() == entries.len()
    &&& plain.metrics.len() == entries.len()
    &&& forall|k: int|
        0 <= k < entries.len() ==> framed(
            file,
            #[trigger] partition.metrics[k],
            plain.metrics[k],
            entries[k].1,
        )
    &&& forall|k: int|
        0 <= k < entries.len() ==> (#[trigger] partition.metrics[k]).start_offset == if k == 0 {
            0
        } else {
            partition.metrics[k - 1].end_offset
        }
    &&& file.len() == if entries.len() == 0 {
        0
    } else {
        partition.metrics[entries.len() - 1].end_offset as nat
    }
}

/// The sidecar of the body has an entry for each series.
pub proof fn lemma_metas_len(entries: Seq<(Seq<char>, Seq<PointView>)>)
    ensures
        metas(entries).len() == entries.len(),
    decreases entries.len(),
{
    if entries.len() > 0 {
        lemma_metas_len(entries.drop_last());
    }
}

/// Where the section of the series at `i` lies in the body, and that the
/// sidecar of the body says so.
pub proof fn lemma_section_place(entries: Seq<(Seq<char>, Seq<PointView>)>, i: int)
    requires
        0 <= i < entries.len(),
        body(entries).len() <= usize::MAX,
    ensures
        metas(entries).len() == entries.len(),
        metas(entries)[i] == meta_of(entries[i], body(entries.take(i)).len()),
        metas(entries)[i].start_offset == body(entries.take(i)).len(),
        metas(entries)[i].end_offset == body(entries.take(i)).len() + 16 * entries[i].1.len(),
        metas(entries)[i].end_offset <= body(entries).len(),
        body(entries).subrange(
            metas(entries)[i].start_offset as int,
            metas(entries)[i].end_offset as int,
        ) == section(entries[i].1),
    decreases entries.len(),
{
    let front = entries.drop_last();
    lemma_metas_len(entries);
    lemma_metas_len(front);
    lemma_section_len(entries.last().1);
    if i < front.len() {
        lemma_section_place(front, i);
        assert(entries.take(i) == front.take(i));
        assert(front[i] == entries[i]);
        assert(body(entries).subrange(
            metas(front)[i].start_offset as int,
            metas(front)[i].end_offset as int,
        ) == body(front).subrange(
            metas(front)[i].start_offset as int,
            metas(front)[i].end_offset as int,
        ));
    } else {
        assert(entries.take(i) == front);
        assert(body(entries).subrange(
            body(front).len() as int,
            (body(front).len() + 16 * entries[i].1.len()) as int,
        ) == section(entries[i].1));
    }
}

/// The points of a section of the series `name`, in the order of its
/// records. Bytes behind the last whole record are left out.
pub open spec fn records(bytes: Seq<u8>, name: Seq<char>) -> Seq<PointView>
    decreases bytes.len(),
{
    if bytes.len() < 16 {
        Seq::empty()
    } else {
        let n = bytes.len() - bytes.len() % 16;
        records(bytes.take(n - 16), name).push(
            PointView {
                name,
                timestamp: spec_u64_from_le_bytes(bytes.subrange(n - 16, n - 8)),
                value: spec_u64_from_le_bytes(bytes.subrange(n - 8, n)),
                tags: Seq::empty(),
            },
        )
    }
}

/// The bytes that the sections of `metrics` fill together.
pub open spec fn consumed(metrics: Seq<MetaView>) -> nat
    decreases metrics.len(),
{
    if metrics.len() == 0 {
        0
    } else {
        consumed(metrics.drop_last()) + metrics.last().uncompressed_size as nat
    }
}

/// The points that the body holds according to `metrics`, section by section
/// in the order of the entries; or the error of the first section that is
/// not made of whole records or reaches beyond the body.
pub open spec fn decoded(plain: Seq<u8>, metrics: Seq<MetaView>) -> Result<
    Seq<PointView>,
    PartitionError,
>
    decreases metrics.len(),
{
    if metrics.len() == 0 {
        Ok(Seq::empty())
    } else {
        match decoded(plain, metrics.drop_last()) {
            Err(e) => Err(e),
            Ok(points) => {
                let start = consumed(metrics.drop_last());
                let size = metrics.last().uncompressed_size;
                if size % 16 != 0 {
                    Err(PartitionError::Misaligned)
                } else if start + size > plain.len() {
                    Err(PartitionError::Truncated)
                } else {
                    Ok(
                        points + records(
                            plain.subrange(start as int, start + size),
                            metrics.last().metric_name,
                        ),
                    )
                }
            },
        }
    }
}

/// Reads partitions.
pub struct PartitionReader {}

impl PartitionReader {
    /// The series that the uncompressed body holds according to the sidecar:
    /// each section is as long as its entry says, and its points are
    /// collected under the entry's name.
    pub fn decode(plain: &[u8], partition: &Partition) -> (data: Result<MetricsData, PartitionError>)
        ensures
            match decoded(plain@, partition@.metrics) {
                Ok(points) => data matches Ok(series) && series.wf() && series.entries()
                    == insert_points(Seq::empty(), points),
                Err(e) => data matches Err(err) && err == e,
            },
    {
        let ghost metrics = partition@.metrics;
        let mut result: MetricsData = MetricsData::new();
        let mut position: usize = 0;
        let mut i: usize = 0;
        let ghost mut so_far: Seq<PointView> = Seq::empty();
        assert(metrics.take(0) =~= Seq::empty());
        while i < partition.metrics.len()
            invariant
                i <= metrics.len(),
                metrics == partition@.metrics,
                metrics.len() == partition.metrics@.len(),
                position <= plain@.len(),
                position == consumed(metrics.take(i as int)),
                decoded(plain@, metrics.take(i as int)) == Ok::<Seq<PointView>, PartitionError>(
                    so_far,
                ),
                result.wf(),
                result.entries() == insert_points(Seq::empty(), so_far),
            decreases metrics.len() - i,
        {
            let meta: &MetricsMeta = &partition.metrics[i];
            let ghost name = meta.metric_name@;
            proof {
                assert(metrics.take(i + 1).drop_last() == metrics.take(i as int));
                assert(metrics.take(i + 1).last() == meta@);
            }
            let size: u64 = meta.uncompressed_size;
            if size % 16 != 0 {
                proof {
                    lemma_decoded_stays_failed(plain@, metrics, i + 1);
                }
                return Err(PartitionError::Misaligned);
            }
            if size > (plain.len() - position) as u64 {
                proof {
                    lemma_decoded_stays_failed(plain@, metrics, i + 1);
                }
                return Err(PartitionError::Truncated);
            }
            let end: usize = position + size as usize;
            let ghost part = plain@.subrange(position as int, end as int);
            let ghost before = so_far;
            let mut at: usize = position;
            let shared: Arc<String> = Arc::new(meta.metric_name.clone());
            assert(part.take(0) =~= Seq::empty());
            while at < end
                invariant
                    position <= at <= end <= plain@.len(),
                    (at - position) % 16 == 0,
                    (end - position) % 16 == 0,
                    part == plain@.subrange(position as int, end as int),
                    name == meta.metric_name@,
                    shared@ == name,
                    so_far == before + records(part.take(at - position), name),
                    result.wf(),
                    result.entries() == insert_points(Seq::empty(), so_far),
                decreases end - at,
            {
                let timestamp: u64 = u64_from_le_bytes(slice_subrange(plain, at, at + 8));
                let value: u64 = u64_from_le_bytes(slice_subrange(plain, at + 8, at + 16));
                let point: DataPoint = DataPoint::new(shared.clone(), timestamp, value);
                proof {
                    let next = part.take(at - position + 16);
                    assert(next.take(next.len() - 16) == part.take(at - position));
                    assert(next.subrange(next.len() - 16, next.len() - 8) == plain@.subrange(
                        at as int,
                        at + 8,
                    ));
                    assert(next.subrange(next.len() - 8, next.len() as int) == plain@.subrange(
                        at + 8,
                        at + 16,
                    ));
                    assert(records(next, name) == records(part.take(at - position), name).push(
                        point@,
                    ));
                    assert(before + records(next, name) == so_far.push(point@));
                    assert(so_far.push(point@).drop_last() == so_far);
                    lemma_insert_point_wf(result.entries(), point@);
                    so_far = so_far.push(point@);
                }
                result.add(point);
                at = at + 16;
            }
            proof {
                assert(part.take(end - position) == part);
            }
            position = end;
            i = i + 1;
        }
        proof {
            assert(metrics.take(metrics.len() as int) == metrics);
        }
        Ok(result)
    }

    /// The series that the data file holds according to the sidecar. Each
    /// frame is taken from the place that its entry gives and unpacked; the
    /// sections together are the body, which is read as `decode` reads it.
    /// The call fails when an entry's place is not within the file, and when
    /// the decompressor fails.
    pub fn read_partition(packed: &[u8], partition: &Partition) -> (data: Result<
        MetricsData,
        PartitionError,
    >)
        ensures
            match unpacked_body(packed@, partition@.metrics) {
                Err(e) => data matches Err(err) && err == e,
                Ok(plain) => match decoded(plain, partition@.metrics) {
                    Ok(points) => data matches Ok(series) && series.wf() && series.entries()
                        == insert_points(Seq::empty(), points),
                    Err(e) => data matches Err(err) && err == e,
                },
            },
    {
        let ghost metrics = partition@.metrics;
        let size: usize = packed.len();
        let mut plain: Vec<u8> = Vec::new();
        let mut i: usize = 0;
        assert(metrics.take(0) =~= Seq::empty());
        while i < partition.metrics.len()
            invariant
                i <= metrics.len(),
                metrics == partition@.metrics,
                metrics.len() == partition.metrics@.len(),
                size == packed@.len(),
                unpacked_body(packed@, metrics.take(i as int)) == Ok::<Seq<u8>, PartitionError>(
                    plain@,
                ),
            decreases metrics.len() - i,
        {
            proof {
                assert(metrics.take(i + 1).drop_last() == metrics.take(i as int));
                assert(metrics.take(i + 1).last() == partition.metrics@[i as int]@);
            }
            let start: u64 = partition.metrics[i].start_offset;
            let end: u64 = partition.metrics[i].end_offset;
            if start > end || end > size as u64 {
                proof {
                    lemma_unpacked_stays_failed(packed@, metrics, i + 1);
                }
                return Err(PartitionError::Truncated);
            }
            match zstd_unpack(slice_subrange(packed, start as usize, end as usize)) {
                None => {
                    proof {
                        lemma_unpacked_stays_failed(packed@, metrics, i + 1);
                    }
                    return Err(PartitionError::Codec);
                },
                Some(section) => {
                    let mut section = section;
                    plain.append(&mut section);
                },
            }
            i = i + 1;
        }
        proof {
            assert(metrics.take(metrics.len() as int) == metrics);
        }
        PartitionReader::decode(plain.as_slice(), partition)
    }
}

/// The body of a data file: the frames that the entries mark, unpacked and
/// put one behind the other; or the error of the first entry whose place is
/// not within the file or whose frame does not unpack.
pub open spec fn unpacked_body(file: Seq<u8>, metrics: Seq<MetaView>) -> Result<
    Seq<u8>,
    PartitionError,
>
    decreases metrics.len(),
{
    if metrics.len() == 0 {
        Ok(Seq::empty())
    } else {
        match unpacked_body(file, metrics.drop_last()) {
            Err(e) => Err(e),
            Ok(front) => {
                let entry = metrics.last();
                if !(entry.start_offset <= entry.end_offset <= file.len()) {
                    Err(PartitionError::Truncated)
                } else {
                    match zstd_unpacked(
                        file.subrange(entry.start_offset as int, entry.end_offset as int),
                    ) {
                        Some(section) => Ok(front + section),
                        None => Err(PartitionError::Codec),
                    }
                }
            },
        }
    }
}

/// Once a frame fails, the file fails with the same error, whatever entries
/// follow.
pub proof fn lemma_unpacked_stays_failed(file: Seq<u8>, metrics: Seq<MetaView>, n: int)
    requires
        0 <= n <= metrics.len(),
        unpacked_body(file, metrics.take(n)) is Err,
    ensures
        unpacked_body(file, metrics) == unpacked_body(file, metrics.take(n)),
    decreases metrics.len() - n,
{
    if n < metrics.len() {
        assert(metrics.take(n + 1).drop_last() == metrics.take(n));
        lemma_unpacked_stays_failed(file, metrics, n + 1);
    } else {
        assert(metrics.take(n) == metrics);
    }
}

/// What is read from a body depends on the names and the sizes of the
/// entries alone.
pub proof fn lemma_decoded_alike(plain: Seq<u8>, one: Seq<MetaView>, other: Seq<MetaView>)
    requires
        one.len() == other.len(),
        forall|k: int|
            0 <= k < one.len() ==> (#[trigger] one[k]).metric_name == other[k].metric_name
                && one[k].uncompressed_size == other[k].uncompressed_size,
    ensures
        decoded(plain, one) == decoded(plain, other),
        consumed(one) == consumed(other),
    decreases one.len(),
{
    if one.len() > 0 {
        assert forall|k: int| 0 <= k < one.len() - 1 implies (#[trigger] one.drop_last()[k]).metric_name
            == other.drop_last()[k].metric_name && one.drop_last()[k].uncompressed_size
            == other.drop_last()[k].uncompressed_size by {
            assert(one.drop_last()[k] == one[k]);
            assert(other.drop_last()[k] == other[k]);
        }
        lemma_decoded_alike(plain, one.drop_last(), other.drop_last());
        assert(one.last() == one[one.len() - 1]);
        assert(other.last() == other[other.len() - 1]);
    }
}

/// The frames that a sidecar describes unpack to the body of the series.
pub proof fn lemma_unpacked_described(
    file: Seq<u8>,
    partition: PartitionView,
    entries: Seq<(Seq<char>, Seq<PointView>)>,
    n: int,
)
    requires
        describes(file, partition, entries),
        0 <= n <= entries.len(),
    ensures
        unpacked_body(file, partition.metrics.take(n)) == Ok::<Seq<u8>, PartitionError>(
            body(entries.take(n)),
        ),
    decreases n,
{
    if n == 0 {
        assert(partition.metrics.take(0) =~= Seq::empty());
        assert(entries.take(0) =~= Seq::empty());
    } else {
        lemma_unpacked_described(file, partition, entries, n - 1);
        let entry = partition.metrics[n - 1];
        let points = entries[n - 1].1;
        assert(framed(file, entry, partition_of(entries).metrics[n - 1], points));
        lemma_unpacked_push(
            file,
            partition.metrics.take(n - 1),
            entry,
            body(entries.take(n - 1)),
            section(points),
        );
        assert(partition.metrics.take(n) == partition.metrics.take(n - 1).push(entry));
        assert(entries.take(n).drop_last() == entries.take(n - 1));
        assert(entries.take(n).last() == entries[n - 1]);
    }
}

/// The body of a data file grows by the section of each entry whose frame
/// lies within the file and unpacks.
proof fn lemma_unpacked_push(
    file: Seq<u8>,
    front: Seq<MetaView>,
    entry: MetaView,
    plain: Seq<u8>,
    section: Seq<u8>,
)
    requires
        unpacked_body(file, front) == Ok::<Seq<u8>, PartitionError>(plain),
        entry.start_offset <= entry.end_offset <= file.len(),
        zstd_unpacked(file.subrange(entry.start_offset as int, entry.end_offset as int)) == Some(
            section,
        ),
    ensures
        unpacked_body(file, front.push(entry)) == Ok::<Seq<u8>, PartitionError>(plain + section),
{
    assert(front.push(entry).drop_last() == front);
    assert(front.push(entry).last() == entry);
}

/// Round trip: the data file and the sidecar that are written for
/// well-formed series read back as the same series in the same order, each
/// with its points in their order, without tags.
pub proof fn lemma_read_back_written(
    file: Seq<u8>,
    partition: PartitionView,
    entries: Seq<(Seq<char>, Seq<PointView>)>,
)
    requires
        entries_wf(entries),
        body(entries).len() <= u64::MAX,
        describes(file, partition, entries),
    ensures
        unpacked_body(file, partition.metrics) == Ok::<Seq<u8>, PartitionError>(body(entries)),
        decoded(body(entries), partition.metrics) == Ok::<Seq<PointView>, PartitionError>(
            flat(stored(entries)),
        ),
        insert_points(Seq::empty(), flat(stored(entries))) == stored(entries),
{
    lemma_unpacked_described(file, partition, entries, entries.len() as int);
    assert(partition.metrics.take(entries.len() as int) == partition.metrics);
    assert(entries.take(entries.len() as int) == entries);
    lemma_decode_encode(entries);
    assert forall|k: int| 0 <= k < partition.metrics.len() implies (
    #[trigger] partition.metrics[k]).metric_name == metas(entries)[k].metric_name
        && partition.metrics[k].uncompressed_size == metas(entries)[k].uncompressed_size by {
        assert(framed(file, partition.metrics[k], partition_of(entries).metrics[k], entries[k].1));
    }
    lemma_decoded_alike(body(entries), partition.metrics, metas(entries));
}

/// Once a section fails, the body fails with the same error, whatever
/// entries follow.
pub proof fn lemma_decoded_stays_failed(plain: Seq<u8>, metrics: Seq<MetaView>, n: int)
    requires
        0 <= n <= metrics.len(),
        decoded(plain, metrics.take(n)) is Err,
    ensures
        decoded(plain, metrics) == decoded(plain, metrics.take(n)),
    decreases metrics.len() - n,
{
    if n < metrics.len() {
        assert(metrics.take(n + 1).drop_last() == metrics.take(n));
        lemma_decoded_stays_failed(plain, metrics, n + 1);
    } else {
        assert(metrics.take(n) == metrics);
    }
}


/// The points without their tags, which a partition does not hold.
pub open spec fn untagged(points: Seq<PointView>) -> Seq<PointView> {
    points.map_values(
        |p: PointView|
            PointView { name: p.name, timestamp: p.timestamp, value: p.value, tags: Seq::empty() },
    )
}

/// The series as a partition holds them: without the tags of their points.
pub open spec fn stored(entries: Seq<(Seq<char>, Seq<PointView>)>) -> Seq<
    (Seq<char>, Seq<PointView>),
> {
    entries.map_values(|e: (Seq<char>, Seq<PointView>)| (e.0, untagged(e.1)))
}

/// The points of all series, series by series.
pub open spec fn flat(entries: Seq<(Seq<char>, Seq<PointView>)>) -> Seq<PointView>
    decreases entries.len(),
{
    if entries.len() == 0 {
        Seq::empty()
    } else {
        flat(entries.drop_last()) + entries.last().1
    }
}

/// The records of a section read back as the points that were written.
pub proof fn lemma_records_of_section(points: Seq<PointView>, name: Seq<char>)
    requires
        forall|i: int| 0 <= i < points.len() ==> (#[trigger] points[i]).name == name,
    ensures
        records(section(points), name) == untagged(points),
    decreases points.len(),
{
    lemma_auto_spec_u64_to_from_le_bytes();
    lemma_section_len(points);
    let bytes = section(points);
    if points.len() == 0 {
        assert(untagged(points) =~= Seq::empty());
    } else {
        let front = points.drop_last();
        let last = points.last();
        lemma_section_len(front);
        assert forall|i: int| 0 <= i < front.len() implies (#[trigger] front[i]).name == name by {
            assert(front[i] == points[i]);
        }
        lemma_records_of_section(front, name);
        let n = bytes.len() as int;
        assert(n % 16 == 0);
        assert(bytes.take(n - 16) == section(front));
        assert(bytes.subrange(n - 16, n - 8) == spec_u64_to_le_bytes(last.timestamp));
        assert(bytes.subrange(n - 8, n) == spec_u64_to_le_bytes(last.value));
        assert(untagged(points) =~= untagged(front).push(
            PointView {
                name,
                timestamp: last.timestamp,
                value: last.value,
                tags: Seq::empty(),
            },
        ));
    }
}

/// The sections of a sidecar fill the body that was written with it.
pub proof fn lemma_consumed(entries: Seq<(Seq<char>, Seq<PointView>)>)
    requires
        body(entries).len() <= u64::MAX,
    ensures
        consumed(metas(entries)) == body(entries).len(),
    decreases entries.len(),
{
    if entries.len() > 0 {
        let front = entries.drop_last();
        lemma_section_len(entries.last().1);
        lemma_consumed(front);
        assert(metas(entries).drop_last() == metas(front));
    }
}

/// Bytes behind the sections change nothing that is read from them.
pub proof fn lemma_decoded_extend(plain: Seq<u8>, extra: Seq<u8>, metrics: Seq<MetaView>)
    requires
        decoded(plain, metrics) is Ok,
    ensures
        decoded(plain + extra, metrics) == decoded(plain, metrics),
    decreases metrics.len(),
{
    if metrics.len() > 0 {
        lemma_decoded_extend(plain, extra, metrics.drop_last());
        let start = consumed(metrics.drop_last());
        let size = metrics.last().uncompressed_size;
        assert((plain + extra).subrange(start as int, start + size) == plain.subrange(
            start as int,
            start + size,
        ));
    }
}

/// Points of one name that no series has yet become one new last series.
pub proof fn lemma_insert_fresh(
    entries: Seq<(Seq<char>, Seq<PointView>)>,
    name: Seq<char>,
    points: Seq<PointView>,
)
    requires
        points.len() > 0,
        forall|i: int| 0 <= i < points.len() ==> (#[trigger] points[i]).name == name,
        forall|j: int| 0 <= j < entries.len() ==> (#[trigger] entries[j]).0 != name,
    ensures
        insert_points(entries, points) == entries.push((name, points)),
    decreases points.len(),
{
    let front = points.drop_last();
    let last = points.last();
    assert(last.name == name);
    if front.len() == 0 {
        lemma_position_of_is(entries, name, entries.len() as int);
        assert(insert_points(entries, front) == entries);
        assert(seq![last] == points);
    } else {
        assert forall|i: int| 0 <= i < front.len() implies (#[trigger] front[i]).name == name by {
            assert(front[i] == points[i]);
        }
        lemma_insert_fresh(entries, name, front);
        let grown = entries.push((name, front));
        assert forall|j: int| 0 <= j < entries.len() implies (#[trigger] grown[j]).0 != name by {
            assert(grown[j] == entries[j]);
        }
        lemma_position_of_is(grown, name, entries.len() as int);
        assert(front.push(last) == points);
        assert(grown.update(entries.len() as int, (name, points)) == entries.push((name, points)));
    }
}

/// Round trip: the body and the sidecar that are written for well-formed
/// series read back as the same series in the same order, each with its
/// points in their order, without tags.
pub proof fn lemma_decode_encode(entries: Seq<(Seq<char>, Seq<PointView>)>)
    requires
        entries_wf(entries),
        body(entries).len() <= u64::MAX,
    ensures
        decoded(body(entries), metas(entries)) == Ok::<Seq<PointView>, PartitionError>(
            flat(stored(entries)),
        ),
        insert_points(Seq::empty(), flat(stored(entries))) == stored(entries),
    decreases entries.len(),
{
    if entries.len() == 0 {
        assert(stored(entries) =~= Seq::empty());
    } else {
        let front = entries.drop_last();
        let last = entries.last();
        let kept = stored(entries);
        assert forall|i: int| 0 <= i < front.len() implies #[trigger] front[i] == entries[i] by {}
        assert(entries_wf(front));
        lemma_decode_encode(front);
        lemma_section_len(last.1);
        lemma_consumed(front);
        lemma_decoded_extend(body(front), section(last.1), metas(front));
        assert(metas(entries).drop_last() == metas(front));
        assert(body(entries).subrange(
            body(front).len() as int,
            (body(front).len() + 16 * last.1.len()) as int,
        ) == section(last.1));
        lemma_records_of_section(last.1, last.0);
        assert(kept.drop_last() == stored(front));
        assert(kept.last() == (last.0, untagged(last.1)));
        lemma_insert_points_concat(Seq::empty(), flat(stored(front)), untagged(last.1));
        assert forall|j: int| 0 <= j < stored(front).len() implies (#[trigger] stored(front)[j]).0
            != last.0 by {
            assert(stored(front)[j].0 == entries[j].0);
        }
        lemma_insert_fresh(stored(front), last.0, untagged(last.1));
        assert(stored(front).push((last.0, untagged(last.1))) == kept);
    }
}

} // verus!
