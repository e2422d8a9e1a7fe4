use std::collections::HashSet;
use tiempodb::partition::{
    DirOp, FailPoint, FileKind, MetricsMeta, Partition, PartitionDir, PartitionError,
    PartitionManager, PartitionReader, PartitionWriter,
};
use tiempodb::storage::{DataPoint, MetricsData};

fn generate_metric(metric_name: &str) -> MetricsData {
    let mut data = MetricsData::new();
    data.add(DataPoint::new(metric_name.to_string().into(), 100u64, 200i64 as u64));
    data
}

fn generate_metrics_batch(metric_suffix: &str) -> MetricsData {
    let mut data = MetricsData::new();
    (0..10).for_each(|metric_idx| {
        let metric_name = format!("metric_{metric_suffix}_{metric_idx}");
        (0..10u64).for_each(|i| {
            data.add(DataPoint::new(
                metric_name.clone().into(),
                100u64 + i,
                (200i64 + i as i64) as u64,
            ))
        });
    });
    data
}

fn keys(data: &MetricsData) -> HashSet<String> {
    (0..data.len())
        .map(|i| data.series_name(i).to_string())
        .collect()
}

fn names(partition: &Partition) -> HashSet<String> {
    partition
        .metrics
        .iter()
        .map(|m| m.metric_name.clone())
        .collect()
}

fn new_manager() -> PartitionManager {
    PartitionManager::new("partitions", PartitionDir::new()).unwrap()
}

fn reopened(manager: PartitionManager) -> PartitionManager {
    PartitionManager::new("partitions", manager.into_dir()).unwrap()
}

#[test]
fn test_partition_read_write() {
    let data = generate_metrics_batch("");
    let (file, partition) = PartitionWriter::write_partition(&data).unwrap();
    let read_data = PartitionReader::read_partition(&file, &partition).unwrap();

    assert_eq!(read_data, data);
}

#[test]
fn test_partion_meta_write_read() {
    let mut partition = Partition::new();
    partition.metrics.push(MetricsMeta::new(
        "metric1".to_string(),
        1234,
        4567,
        8910,
        1234,
    ));
    partition
        .metrics
        .push(MetricsMeta::new("metric2".to_string(), 14, 47, 810, 1321));
    partition.start_time = 10;
    partition.end_time = 60;

    let mut dir = PartitionDir::new();
    dir.write_meta(1, partition.duplicate());

    let read_partition = dir.load_meta(1).unwrap();

    assert_eq!(read_partition, partition);
}

#[test]
fn parse_file_name_success() {
    let (idx, ttyp) = PartitionManager::parse_file_name("partition_12.meta").unwrap();
    assert_eq!(12, idx);
    assert_eq!("meta", ttyp);
}

#[test]
fn parse_file_name_bad_format() {
    assert!(PartitionManager::parse_file_name("partition_12").is_none()); // no type
    assert!(PartitionManager::parse_file_name("partition.meta").is_none()); // no idx
    assert!(PartitionManager::parse_file_name("partition_notanumber.meta").is_none()); // idx is no number
    assert!(
        PartitionManager::parse_file_name("partition_12_this_should_not_exist.meta").is_none()
    ); // additional suffixes
}

#[test]
fn parse_file_name_knows_the_three_suffixes() {
    assert_eq!(
        Some((0, "data")),
        PartitionManager::parse_file_name("partition_0.data")
    );
    assert_eq!(
        Some((7, "data-tmp")),
        PartitionManager::parse_file_name("partition_7.data-tmp")
    );
    assert_eq!(
        Some((18446744073709551615, "meta")),
        PartitionManager::parse_file_name("partition_18446744073709551615.meta")
    );
    assert!(PartitionManager::parse_file_name("partition_18446744073709551616.meta").is_none());
    assert!(PartitionManager::parse_file_name("partition_1.json").is_none());
    assert!(PartitionManager::parse_file_name("partition_1.").is_none());
    assert!(PartitionManager::parse_file_name("partition_.meta").is_none());
    assert!(PartitionManager::parse_file_name("partition_+1.meta").is_none());
    assert!(PartitionManager::parse_file_name("partition_1.meta.bak").is_none());
    assert!(PartitionManager::parse_file_name("segment_1.meta").is_none());
    assert!(PartitionManager::parse_file_name("").is_none());
}

#[test]
fn file_names_are_read_back() {
    let manager = new_manager();
    assert_eq!("partition_3.data-tmp", manager.tmp_data_file(3));
    assert_eq!("partition_3.data", manager.data_file(3));
    assert_eq!("partition_3.meta", manager.meta_file(3));
    assert_eq!(
        Some((3, "data-tmp")),
        PartitionManager::parse_file_name(&manager.tmp_data_file(3))
    );
    assert_eq!(
        Some((120, "meta")),
        PartitionManager::parse_file_name(&manager.meta_file(120))
    );
}

#[test]
fn test_roll_new_partition() {
    let mut manager = new_manager();
    let metrics = generate_metrics_batch("first");

    let original_metrics: HashSet<String> = keys(&metrics);
    manager.roll_new_partition(&metrics).unwrap();

    let mut manager = reopened(manager);
    assert_eq!(manager.partitions.len(), 1);

    let loaded_metrics: HashSet<String> = names(manager.partitions.get(0).unwrap());

    assert_eq!(loaded_metrics, original_metrics);

    let metrics = generate_metrics_batch("second");
    manager.roll_new_partition(&metrics).unwrap();

    let second_metrics: HashSet<String> = keys(&metrics);

    let manager = reopened(manager);
    assert_eq!(manager.partitions.len(), 2);

    let loaded_metrics: HashSet<String> = names(manager.partitions.get(1).unwrap());

    assert_eq!(loaded_metrics, second_metrics);
}

fn recoverable_partition_failure() {
    let mut manager = new_manager();
    manager.set_failpoint(Some(FailPoint::RenameStep));

    let metrics = generate_metric("first");
    assert_eq!(true, manager.roll_new_partition(&metrics).is_err());

    manager.set_failpoint(None);

    let metrics = generate_metric("second");
    manager.roll_new_partition(&metrics).unwrap();

    assert_eq!(2, manager.partitions.len());

    let metrics: HashSet<String> = manager
        .partitions
        .iter()
        .flat_map(|p| p.metrics.iter().map(|m| m.metric_name.clone()))
        .collect();

    assert_eq!(
        metrics,
        vec!["first".to_string(), "second".to_string()]
            .into_iter()
            .collect()
    );
}

fn partition_failure_data_loss() {
    let mut manager = new_manager();
    manager.set_failpoint(Some(FailPoint::WriteMetaStep));

    let metrics = generate_metric("first");
    assert_eq!(true, manager.roll_new_partition(&metrics).is_err());

    manager.set_failpoint(None);

    let metrics = generate_metric("second");
    manager.roll_new_partition(&metrics).unwrap();

    let metrics: HashSet<String> = manager
        .partitions
        .iter()
        .flat_map(|p| p.metrics.iter().map(|m| m.metric_name.clone()))
        .collect();

    assert_eq!(metrics, vec!["second".to_string()].into_iter().collect());
}

#[test]
fn partition_test_recoverable_partition_failure() {
    recoverable_partition_failure();
}

#[test]
fn partition_test_partition_failure_data_loss() {
    partition_failure_data_loss();
}

#[test]
fn mod_test_recoverable_partition_failure() {
    recoverable_partition_failure();
}

#[test]
fn mod_test_partition_failure_data_loss() {
    partition_failure_data_loss();
}

#[test]
fn a_roll_writes_data_then_sidecar_then_renames() {
    let mut manager = new_manager();
    let metrics = generate_metric("first");
    manager.roll_new_partition(&metrics).unwrap();
    assert_eq!(1, manager.last_partition_id);

    let ops = manager.take_journal();
    assert_eq!(3, ops.len());
    let (file, partition) = PartitionWriter::write_partition(&metrics).unwrap();
    assert_eq!(
        ops[0],
        DirOp::WriteData {
            id: 1,
            bytes: file
        }
    );
    assert_eq!(
        ops[1],
        DirOp::WriteMeta {
            id: 1,
            meta: partition
        }
    );
    assert_eq!(ops[2], DirOp::Promote { id: 1 });
    assert!(manager.take_journal().is_empty());

    assert!(manager.dir().has_file(1, FileKind::Data));
    assert!(manager.dir().has_file(1, FileKind::Meta));
    assert!(!manager.dir().has_file(1, FileKind::DataTmp));
    assert!(!manager.dir().has_file(2, FileKind::Data));
}

#[test]
fn a_failed_rename_leaves_the_sidecar_and_the_temporary_file() {
    let mut manager = new_manager();
    manager.set_failpoint(Some(FailPoint::RenameStep));
    assert_eq!(
        Err(PartitionError::RenameStep),
        manager.roll_new_partition(&generate_metric("first"))
    );
    assert_eq!(0, manager.last_partition_id);
    assert!(manager.partitions.is_empty());
    assert!(manager.dir().has_file(1, FileKind::DataTmp));
    assert!(manager.dir().has_file(1, FileKind::Meta));
    assert!(!manager.dir().has_file(1, FileKind::Data));
    assert_eq!(2, manager.take_journal().len());

    manager.set_failpoint(None);
    manager.roll_new_partition(&generate_metric("second")).unwrap();
    assert_eq!(2, manager.last_partition_id);
    let ops = manager.take_journal();
    assert_eq!(4, ops.len());
    assert_eq!(ops[0], DirOp::Promote { id: 1 });
    assert_eq!(ops[3], DirOp::Promote { id: 2 });
    assert!(manager.dir().has_file(1, FileKind::Data));
    assert!(manager.dir().has_file(2, FileKind::Data));
}

#[test]
fn a_temporary_file_without_sidecar_is_removed() {
    let mut dir = PartitionDir::new();
    dir.record("partition_1.data-tmp", None);
    dir.record("notes.txt", None);
    let mut manager = PartitionManager::new("partitions", dir).unwrap();
    assert_eq!(0, manager.last_partition_id);

    manager.roll_new_partition(&generate_metric("second")).unwrap();
    assert_eq!(1, manager.last_partition_id);
    assert_eq!(1, manager.partitions.len());
    let ops = manager.take_journal();
    assert_eq!(6, ops.len());
    assert_eq!(
        ops[0],
        DirOp::Remove {
            id: 1,
            kind: FileKind::DataTmp
        }
    );
    assert_eq!(
        ops[1],
        DirOp::Remove {
            id: 1,
            kind: FileKind::Data
        }
    );
    assert_eq!(
        ops[2],
        DirOp::Remove {
            id: 1,
            kind: FileKind::Meta
        }
    );
}

#[test]
fn startup_lists_committed_partitions_by_number() {
    let mut dir = PartitionDir::new();
    let first = PartitionWriter::encode(&generate_metric("first")).1;
    let third = PartitionWriter::encode(&generate_metric("third")).1;
    let lone = PartitionWriter::encode(&generate_metric("lone")).1;
    dir.record("partition_3.meta", Some(third));
    dir.record("partition_3.data", None);
    dir.record("partition_1.data", None);
    dir.record("partition_1.meta", Some(first));
    dir.record("partition_2.data", None);
    dir.record("partition_5.meta", Some(lone));
    dir.record("partition_5.data-tmp", None);
    let manager = PartitionManager::new("partitions", dir).unwrap();
    assert_eq!(3, manager.last_partition_id);
    assert_eq!(2, manager.partitions.len());
    assert_eq!("first", manager.partitions[0].metrics[0].metric_name);
    assert_eq!("third", manager.partitions[1].metrics[0].metric_name);
    assert_eq!("partitions", manager.partitions_dir);
    assert_eq!("partitions", manager.path());
    assert_eq!(3, manager.last_id());
    assert_eq!(&manager.partitions, manager.committed_partitions());
}

#[test]
fn startup_fails_on_a_sidecar_that_cannot_be_read() {
    let mut dir = PartitionDir::new();
    dir.record("partition_1.meta", None);
    dir.record("partition_1.data", None);
    assert!(matches!(
        PartitionManager::new("partitions", dir),
        Err(PartitionError::InvalidData)
    ));
}

#[test]
fn startup_passes_over_a_sidecar_without_a_data_file() {
    let data = generate_metric("m");
    let mut dir = PartitionDir::new();
    dir.record("partition_1.meta", Some(PartitionWriter::encode(&data).1));
    dir.record("partition_1.data", None);
    dir.record("partition_2.meta", None);
    dir.record("partition_3.meta", None);
    dir.record("partition_3.data-tmp", None);
    let manager = PartitionManager::new("partitions", dir).unwrap();
    assert_eq!(1, manager.partitions.len());
    assert_eq!(1, manager.last_partition_id);
}

#[test]
fn sidecar_describes_the_sections() {
    let mut data = MetricsData::new();
    data.add(DataPoint::new("a".to_string().into(), 7, 1));
    data.add(DataPoint::new("b".to_string().into(), 3, 2));
    data.add(DataPoint::new("a".to_string().into(), 9, 3));
    let (plain, partition) = PartitionWriter::encode(&data);

    let mut expected = Vec::new();
    for (timestamp, value) in [(7u64, 1u64), (9, 3), (3, 2)] {
        expected.extend_from_slice(&timestamp.to_le_bytes());
        expected.extend_from_slice(&value.to_le_bytes());
    }
    assert_eq!(expected, plain);

    assert_eq!(3, partition.start_time);
    assert_eq!(9, partition.end_time);
    assert_eq!(
        partition.metrics,
        vec![
            MetricsMeta {
                metric_name: "a".to_string(),
                start_time: 7,
                end_time: 9,
                size: 2,
                start_offset: 0,
                end_offset: 32,
                uncompressed_size: 32,
                crc32: 0,
            },
            MetricsMeta {
                metric_name: "b".to_string(),
                start_time: 3,
                end_time: 3,
                size: 1,
                start_offset: 32,
                end_offset: 48,
                uncompressed_size: 16,
                crc32: 0,
            },
        ]
    );
    assert_eq!(32, partition.metrics[0].size_on_disk());
}

#[test]
fn an_empty_snapshot_is_an_empty_partition() {
    let data = MetricsData::new();
    let (plain, partition) = PartitionWriter::encode(&data);
    assert!(plain.is_empty());
    assert_eq!(partition, Partition::new());
    let (file, partition) = PartitionWriter::write_partition(&data).unwrap();
    assert_eq!(
        PartitionReader::read_partition(&file, &partition).unwrap(),
        data
    );
}

#[test]
fn the_data_file_is_a_frame_for_each_section() {
    let data = generate_metrics_batch("x");
    let (plain, _) = PartitionWriter::encode(&data);
    let (file, partition) = PartitionWriter::write_partition(&data).unwrap();
    assert_ne!(plain, file);
    assert_eq!(10, partition.metrics.len());
    let mut at = 0u64;
    for meta in &partition.metrics {
        assert_eq!(at, meta.start_offset);
        assert!(meta.start_offset < meta.end_offset);
        let frame = &file[meta.start_offset as usize..meta.end_offset as usize];
        assert_eq!(&frame[..4], &[0x28, 0xb5, 0x2f, 0xfd]);
        assert_eq!(meta.end_offset - meta.start_offset, meta.size_on_disk());
        assert_eq!(160, meta.uncompressed_size);
        assert_eq!(10, meta.size);
        at = meta.end_offset;
    }
    assert_eq!(file.len() as u64, at);
    assert!(PartitionReader::read_partition(&plain, &partition).is_err());
    assert_eq!(
        PartitionReader::decode(&plain, &partition).unwrap(),
        PartitionReader::read_partition(&file, &partition).unwrap()
    );
}

#[test]
fn reading_checks_the_places_of_the_frames() {
    let data = generate_metric("m");
    let (file, mut partition) = PartitionWriter::write_partition(&data).unwrap();
    partition.metrics[0].end_offset = file.len() as u64 + 1;
    assert_eq!(
        Err(PartitionError::Truncated),
        PartitionReader::read_partition(&file, &partition).map(|d| d.len())
    );
    partition.metrics[0].end_offset = 0;
    partition.metrics[0].start_offset = 1;
    assert_eq!(
        Err(PartitionError::Truncated),
        PartitionReader::read_partition(&file, &partition).map(|d| d.len())
    );
    partition.metrics[0].start_offset = 0;
    partition.metrics[0].end_offset = file.len() as u64 - 1;
    assert_eq!(
        Err(PartitionError::Codec),
        PartitionReader::read_partition(&file, &partition).map(|d| d.len())
    );
}

#[test]
fn decoding_checks_the_sections_against_the_body() {
    let data = generate_metric("m");
    let (plain, mut partition) = PartitionWriter::encode(&data);
    assert_eq!(16, plain.len());

    partition.metrics[0].uncompressed_size = 32;
    assert_eq!(
        Err(PartitionError::Truncated),
        PartitionReader::decode(&plain, &partition).map(|d| d.len())
    );
    partition.metrics[0].uncompressed_size = 8;
    assert_eq!(
        Err(PartitionError::Misaligned),
        PartitionReader::decode(&plain, &partition).map(|d| d.len())
    );
    partition.metrics[0].uncompressed_size = 0;
    assert_eq!(
        Ok(0),
        PartitionReader::decode(&plain, &partition).map(|d| d.len())
    );
}

#[test]
fn sections_of_one_name_are_collected_together() {
    let mut plain = Vec::new();
    for (timestamp, value) in [(1u64, 10u64), (2, 20)] {
        plain.extend_from_slice(&timestamp.to_le_bytes());
        plain.extend_from_slice(&value.to_le_bytes());
    }
    let mut partition = Partition::new();
    partition
        .metrics
        .push(MetricsMeta::new("m".to_string(), 1, 1, 1, 16));
    partition
        .metrics
        .push(MetricsMeta::new("m".to_string(), 2, 2, 1, 16));
    let data = PartitionReader::decode(&plain, &partition).unwrap();
    assert_eq!(1, data.len());
    assert_eq!(
        data.series_points(0),
        &vec![
            DataPoint::new("m".to_string().into(), 1, 10),
            DataPoint::new("m".to_string().into(), 2, 20)
        ]
    );
}

#[test]
fn a_partition_keeps_names_times_and_values_but_no_tags() {
    let mut data = MetricsData::new();
    let mut tagged = DataPoint::new("m".to_string().into(), 5, 6);
    tagged.set_tags(&vec![("host", "a")]);
    data.add(tagged);
    data.add(DataPoint::new("n".to_string().into(), 1, 2));
    let (file, partition) = PartitionWriter::write_partition(&data).unwrap();
    let read = PartitionReader::read_partition(&file, &partition).unwrap();
    assert_eq!(2, read.len());
    assert_eq!("m", read.series_name(0));
    assert_eq!(
        read.series_points(0),
        &vec![DataPoint::new("m".to_string().into(), 5, 6)]
    );
    assert_eq!("n", read.series_name(1));
    assert_eq!(
        read.series_points(1),
        &vec![DataPoint::new("n".to_string().into(), 1, 2)]
    );
}

#[test]
fn a_roll_returns_the_sidecar_of_the_new_partition() {
    let mut manager = new_manager();
    let metrics = generate_metric("first");
    let expected = PartitionWriter::write_partition(&metrics).unwrap().1;
    assert_eq!(Ok(&expected), manager.roll_new_partition(&metrics));
    assert_eq!(manager.partitions, vec![expected]);
}

#[test]
fn each_failure_of_a_roll_has_its_error() {
    let mut manager = new_manager();
    manager.set_failpoint(Some(FailPoint::WriteMetaStep));
    assert_eq!(
        Err(PartitionError::WriteMetaStep),
        manager.roll_new_partition(&generate_metric("first"))
    );
    assert!(manager.take_journal().is_empty());
    assert!(!manager.dir().has_file(1, FileKind::DataTmp));

    manager.set_failpoint(None);
    manager.last_partition_id = usize::MAX;
    assert_eq!(
        Err(PartitionError::Exhausted),
        manager.roll_new_partition(&generate_metric("first"))
    );

    let mut dir = PartitionDir::new();
    dir.record("partition_1.data-tmp", None);
    dir.record("partition_1.meta", None);
    let mut manager = new_manager();
    assert_eq!(Err(PartitionError::NotFound), manager.load_meta(1).map(|p| p.start_time));
    assert_eq!(Err(PartitionError::InvalidData), dir.load_meta(1).map(|p| p.start_time));
    assert_eq!(Err(PartitionError::NotFound), dir.promote(2));
    assert_eq!(Ok(()), dir.promote(1));
    assert!(dir.has_file(1, FileKind::Data));
    assert!(!manager.try_recover(1));
}

#[test]
fn recovery_promotes_the_temporary_file_of_a_sidecar() {
    let mut dir = PartitionDir::new();
    let first = PartitionWriter::encode(&generate_metric("first")).1;
    dir.write_data(1, vec![1, 2, 3]);
    dir.write_meta(1, first);
    dir.take_journal();
    let mut manager = PartitionManager::new("partitions", dir).unwrap();
    assert!(manager.partitions.is_empty());
    assert!(manager.try_recover(1));
    assert!(manager.try_recover(1));
    assert!(!manager.try_recover(2));
    assert_eq!(manager.take_journal(), vec![DirOp::Promote { id: 1 }]);
    manager.remove_partition_if_exists(1);
    assert!(!manager.dir().has_file(1, FileKind::Data));
    assert!(!manager.dir().has_file(1, FileKind::Meta));
    assert_eq!(3, manager.take_journal().len());
    assert!(manager.list_partitions().unwrap().is_empty());
}

#[test]
fn a_missing_file_counts_as_removed() {
    assert_eq!(Ok(()), tiempodb::partition::meta::ignore_not_found(Ok(())));
    assert_eq!(Ok(()), tiempodb::partition::meta::ignore_not_found(Err(PartitionError::NotFound)));
    assert_eq!(
        Err(PartitionError::InvalidData),
        tiempodb::partition::meta::ignore_not_found(Err(PartitionError::InvalidData))
    );
    assert_eq!(
        Err(PartitionError::Codec),
        tiempodb::partition::meta::ignore_not_found(Err(PartitionError::Codec))
    );
}

#[test]
fn the_data_file_reads_as_one_stream() {
    let data = generate_metrics_batch("x");
    let (plain, _) = PartitionWriter::encode(&data);
    let (file, _) = PartitionWriter::write_partition(&data).unwrap();
    assert_eq!(plain, zstd::decode_all(&file[..]).unwrap());
}

#[test]
fn a_frame_is_put_behind_the_file_and_its_place_written_down() {
    let data = generate_metrics_batch("x");
    let (_, mut partition) = PartitionWriter::encode(&data);
    let before = PartitionWriter::encode(&data).1.metrics;
    let mut file = vec![1u8, 2, 3];
    PartitionWriter::put_frame(&mut file, &mut partition.metrics, 4, vec![9, 8]);
    assert_eq!(vec![1u8, 2, 3, 9, 8], file);
    assert_eq!(10, partition.metrics.len());
    for (k, meta) in partition.metrics.iter().enumerate() {
        if k == 4 {
            assert_eq!(3, meta.start_offset);
            assert_eq!(5, meta.end_offset);
            assert_eq!(before[k].metric_name, meta.metric_name);
            assert_eq!(before[k].size, meta.size);
            assert_eq!(before[k].uncompressed_size, meta.uncompressed_size);
            assert_eq!(before[k].start_time, meta.start_time);
            assert_eq!(before[k].end_time, meta.end_time);
        } else {
            assert_eq!(&before[k], meta);
        }
    }
    PartitionWriter::put_frame(&mut file, &mut partition.metrics, 0, Vec::new());
    assert_eq!(5, file.len());
    assert_eq!((5, 5), (partition.metrics[0].start_offset, partition.metrics[0].end_offset));
}

#[test]
fn each_frame_is_what_the_compressor_makes_of_its_section() {
    let data = generate_metrics_batch("x");
    let (plain, sections) = PartitionWriter::encode(&data);
    for level in [1, 19] {
        let (file, partition) = PartitionWriter::write_partition_at(&data, level).unwrap();
        assert_eq!(10, partition.metrics.len());
        for (meta, section) in partition.metrics.iter().zip(sections.metrics.iter()) {
            let body = &plain[section.start_offset as usize..section.end_offset as usize];
            let frame = &file[meta.start_offset as usize..meta.end_offset as usize];
            assert_eq!(zstd::encode_all(body, level).unwrap(), frame);
            assert_eq!(body, zstd::decode_all(frame).unwrap());
        }
        assert_eq!(
            PartitionReader::decode(&plain, &sections).unwrap(),
            PartitionReader::read_partition(&file, &partition).unwrap()
        );
    }
    let highest = *zstd::compression_level_range().end();
    assert_eq!(
        PartitionWriter::write_partition_at(&data, highest).unwrap(),
        PartitionWriter::write_partition(&data).unwrap()
    );
}
