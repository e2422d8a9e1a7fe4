use tiempodb::ingest::{replay_lines, Ack, Engine, IngestError, PartitionWorker};
use tiempodb::partition::{DirOp, FailPoint, PartitionDir, PartitionManager};
use tiempodb::protocol::Line;
use tiempodb::storage::SnaphotableStorage;

const WAL: &str = "wal";

fn values_of(line: &[u8]) -> Vec<Option<u64>> {
    match Line::parse(line) {
        Some(parsed) => parsed
            .fields()
            .iter()
            .map(|(_, value)| value.parse::<f64>().ok().map(f64::to_bits))
            .collect(),
        None => Vec::new(),
    }
}

fn manager() -> PartitionManager {
    PartitionManager::new("partitions", PartitionDir::new()).unwrap()
}

fn new_engine() -> (Engine, PartitionWorker) {
    Engine::new(SnaphotableStorage::new(), WAL, manager())
}

fn ingest(engine: &mut Engine, log: &mut Vec<u8>, line: &str) {
    let actions = engine
        .ingest(line, &values_of(line.as_bytes()))
        .unwrap();
    log.extend_from_slice(&actions.frame);
}

fn restore(log: &mut Vec<u8>) -> (Engine, PartitionWorker) {
    let (lines, _) = replay_lines(log.clone());
    let values: Vec<Vec<Option<u64>>> = lines.iter().map(|line| values_of(line)).collect();
    let (engine, worker) = Engine::restore_from_wal(
        SnaphotableStorage::new(),
        WAL,
        manager(),
        log.clone(),
        &values,
    );
    log.truncate(engine.wal_position() as usize);
    (engine, worker)
}

fn temperatures(engine: &Engine) -> Vec<(f64, u64)> {
    engine
        .storage()
        .load_from_snapshot("weather:temperature")
        .iter()
        .map(|m| (f64::from_bits(m.value), m.timestamp))
        .collect()
}

#[test]
fn ingest_simple_test() {
    let mut log = Vec::new();
    let (mut engine, _worker) = new_engine();
    let line_str =
        "weather,location=us-midwest,country=us temperature=0,humidity=1 1465839830100400200";
    ingest(&mut engine, &mut log, line_str);
    let line2_str =
        "weather,location=us-midwest,country=us temperature=2,humidity=3 1465839830100400201";
    ingest(&mut engine, &mut log, line2_str);

    engine.time_tick();

    assert_eq!(
        temperatures(&engine),
        vec![(0f64, 1465839830100400200), (2f64, 1465839830100400201)]
    );
}

#[test]
fn test_restore_from_wal() {
    let mut log = Vec::new();
    let (mut engine, _worker) = new_engine();
    let line_str =
        "weather,location=us-midwest,country=us temperature=0,humidity=1 1465839830100400200";
    ingest(&mut engine, &mut log, line_str);
    let line2_str =
        "weather,location=us-midwest,country=us temperature=2,humidity=3 1465839830100400201";
    ingest(&mut engine, &mut log, line2_str);

    let (mut engine, _worker) = restore(&mut log);

    engine.time_tick();

    assert_eq!(
        temperatures(&engine),
        vec![(0f64, 1465839830100400200), (2f64, 1465839830100400201)]
    );
}

#[test]
fn test_restore_from_corrupt_wall() {
    let mut log = Vec::new();
    let (mut engine, _worker) = new_engine();
    let line_str =
        "weather,location=us-midwest,country=us temperature=0,humidity=1 1465839830100400200";
    ingest(&mut engine, &mut log, line_str);
    let first_end = log.len();
    let line2_str =
        "weather,location=us-midwest,country=us temperature=2,humidity=3 1465839830100400201";
    ingest(&mut engine, &mut log, line2_str);

    let cut = log.len() - 3;
    log.truncate(cut);

    let (mut engine, _worker) = restore(&mut log);
    assert_eq!(first_end, log.len());
    assert_eq!(first_end as u64, engine.wal_position());

    engine.time_tick();

    assert_eq!(temperatures(&engine), vec![(0f64, 1465839830100400200)]);

    let line2_str = "weather,location=us-midwest,country=us temperature=4 1465839830100400202";
    ingest(&mut engine, &mut log, line2_str);

    let (mut engine, _worker) = restore(&mut log);

    engine.time_tick();

    assert_eq!(
        temperatures(&engine),
        vec![(0f64, 1465839830100400200), (4f64, 1465839830100400202)]
    );

    ingest(&mut engine, &mut log, line2_str);
}

#[test]
fn a_field_that_is_no_number_is_skipped_alone() {
    let mut log = Vec::new();
    let (mut engine, _worker) = new_engine();
    ingest(&mut engine, &mut log, "m,host=a x=1.5,y=high,z=-2e3 7");
    assert_eq!(2, engine.storage().active_set_size());
    engine.time_tick();
    let storage = engine.storage();
    let x = storage.load_from_snapshot("m:x");
    assert_eq!(1, x.len());
    assert_eq!(1.5, f64::from_bits(x[0].value));
    assert_eq!(7, x[0].timestamp);
    assert_eq!("m:x", *x[0].name);
    assert_eq!(x[0].tags, vec![("host".to_string(), "a".to_string())]);
    assert!(storage.load_from_snapshot("m:y").is_empty());
    assert_eq!(
        -2000.0,
        f64::from_bits(storage.load_from_snapshot("m:z")[0].value)
    );
}

#[test]
fn a_line_that_does_not_parse_is_logged_and_dropped() {
    let mut log = Vec::new();
    let (mut engine, _worker) = new_engine();
    ingest(&mut engine, &mut log, "no fields here");
    assert_eq!(0, engine.storage().active_set_size());
    assert_eq!(12 + 14, log.len());
    assert_eq!(26, engine.wal_position());
    let (lines, good) = replay_lines(log);
    assert_eq!(lines, vec![b"no fields here".to_vec()]);
    assert_eq!(26, good);
}

#[test]
fn blocks_are_split_into_lines() {
    let mut log = Vec::new();
    let mut wal = tiempodb::wal::Wal::new(WAL);
    for block in ["a f=1 1\nb f=2 2", "", "c f=3 3\n"] {
        log.extend_from_slice(&wal.write(block.as_bytes()).unwrap().frame);
    }
    let (lines, good) = replay_lines(log.clone());
    assert_eq!(
        lines,
        vec![
            b"a f=1 1".to_vec(),
            b"b f=2 2".to_vec(),
            b"".to_vec(),
            b"c f=3 3".to_vec(),
            b"".to_vec()
        ]
    );
    assert_eq!(log.len() as u64, good);

    let (mut engine, _worker) = restore(&mut log);
    assert_eq!(3, engine.storage().active_set_size());
    engine.time_tick();
    assert_eq!(3, engine.storage().snapshot_set_size());
}

#[test]
fn a_full_active_tier_is_frozen_and_its_segment_rolled() {
    let mut log = Vec::new();
    let (mut engine, mut worker) =
        Engine::new(SnaphotableStorage::new(), "data/wal", manager());
    for i in 0..100 {
        let line = format!("m f={i} {i}");
        let actions = engine.ingest(&line, &values_of(line.as_bytes())).unwrap();
        assert!(actions.snapshot.is_none());
        assert!(actions.roll.is_none());
        assert!(actions.drop_pending.is_none());
        log.extend_from_slice(&actions.frame);
    }
    assert_eq!(100, engine.storage().active_set_size());
    assert_eq!(log.len() as u64, engine.wal_position());
    assert!(worker.requests().try_recv().is_err());

    let actions = engine
        .ingest("m f=100 100", &values_of(b"m f=100 100"))
        .unwrap();
    assert_eq!(Some(0), actions.snapshot);
    let roll = actions.roll.expect("the segment is rolled");
    assert_eq!("data/wal.pending_0", roll.pending);
    assert_eq!(0, roll.position);
    assert!(actions.drop_pending.is_none());
    assert_eq!(0, engine.storage().active_set_size());
    assert_eq!(0, engine.wal_position());
    assert_eq!(101, engine.storage().load_from_snapshot("m:f").len());

    // A request is under way: the tier grows on.
    for i in 0..101 {
        let line = format!("m f={i} {i}");
        let actions = engine.ingest(&line, &values_of(line.as_bytes())).unwrap();
        assert!(actions.snapshot.is_none());
        assert!(actions.drop_pending.is_none());
    }
    assert_eq!(101, engine.storage().active_set_size());

    // The worker writes the partition and reports: the pending segment goes.
    assert!(worker.tick(engine.snapshot_mut()));
    assert!(worker.requests().try_recv().is_err());
    assert_eq!(0, engine.storage().snapshot_set_size());
    assert_eq!(1, worker.partition_manager().partitions.len());
    assert_eq!(
        101,
        worker.partition_manager().partitions[0].metrics[0].size
    );
    let actions = engine.ingest("m f=7 7", &values_of(b"m f=7 7")).unwrap();
    assert_eq!(Some("data/wal.pending_0".to_string()), actions.drop_pending);
    assert!(actions.snapshot.is_none());

    // The next line freezes the tier again.
    let actions = engine.ingest("m f=8 8", &values_of(b"m f=8 8")).unwrap();
    assert_eq!(Some(0), actions.snapshot);
    assert_eq!(0, engine.storage().active_set_size());

    // A failed partition frees the request and keeps the segment.
    worker.set_failpoint(Some(FailPoint::RenameStep));
    assert!(worker.tick(engine.snapshot_mut()));
    assert_eq!(1, engine.storage().snapshot_set_size());
    let actions = engine.ingest("m f=9 9", &values_of(b"m f=9 9")).unwrap();
    assert!(actions.drop_pending.is_none());
    assert!(actions.snapshot.is_none());
}

#[test]
fn a_request_that_cannot_be_sent_is_an_error() {
    let (mut engine, worker) = new_engine();
    drop(worker);
    for i in 0..100 {
        let line = format!("m f={i} {i}");
        engine.ingest(&line, &values_of(line.as_bytes())).unwrap();
    }
    assert_eq!(
        Err(IngestError::ChannelClosed),
        engine
            .ingest("m f=100 100", &values_of(b"m f=100 100"))
            .map(|actions| actions.sync)
    );
    assert_eq!(0, engine.storage().active_set_size());
    assert_eq!(101, engine.storage().load_from_snapshot("m:f").len());
}

#[test]
fn the_worker_writes_the_snapshot_and_clears_it() {
    let mut storage = SnaphotableStorage::new();
    let (_engine, mut worker) = new_engine();

    storage.add(tiempodb::storage::DataPoint::new("m:f".to_string().into(), 1, 2));
    storage.make_snapshot();
    assert_eq!(
        Ack::Committed { position: 17 },
        worker.roll_request(17, storage.snapshot_mut())
    );
    assert_eq!(0, storage.snapshot_set_size());
    assert_eq!(1, worker.partition_manager().partitions.len());
    let ops = worker.take_journal();
    assert_eq!(3, ops.len());
    assert_eq!(ops[2], DirOp::Promote { id: 1 });

    storage.add(tiempodb::storage::DataPoint::new("m:f".to_string().into(), 2, 3));
    storage.make_snapshot();
    worker.set_failpoint(Some(FailPoint::WriteMetaStep));
    assert_eq!(Ack::Failed, worker.roll_request(0, storage.snapshot_mut()));
    assert_eq!(1, storage.snapshot_set_size());
    assert_eq!(1, worker.partition_manager().partitions.len());
    assert!(worker.report(Ack::Failed));
}

#[test]
fn an_ingested_line_is_restored_after_a_restart() {
    let mut log = Vec::new();
    let (mut engine, _worker) = new_engine();
    ingest(&mut engine, &mut log, "cpu,host=a user=1,idle=99 10");
    ingest(&mut engine, &mut log, "cpu,host=a user=2,idle=98 20");
    ingest(&mut engine, &mut log, "cpu,host=b user=3 15");
    engine.time_tick();

    let (mut restored, _restored_worker) = restore(&mut log);
    assert_eq!(5, restored.storage().active_set_size());
    restored.time_tick();

    for series in ["cpu:user", "cpu:idle"] {
        let before: Vec<_> = engine
            .storage()
            .load_from_snapshot(series)
            .into_iter()
            .cloned()
            .collect();
        let after: Vec<_> = restored
            .storage()
            .load_from_snapshot(series)
            .into_iter()
            .cloned()
            .collect();
        assert!(!before.is_empty());
        assert_eq!(before, after);
    }
}

#[test]
fn a_pending_segment_is_replayed_before_the_live_one() {
    let mut wal = tiempodb::wal::Wal::new(WAL);
    let pending = wal.write(b"m f=1 1").unwrap().frame;
    let mut live = wal.write(b"m f=2 2").unwrap().frame;
    live.extend_from_slice(&[1, 2, 3]);

    let (mut engine, _worker) = new_engine();
    let values = vec![vec![Some(1f64.to_bits())]];
    assert_eq!(pending.len() as u64, engine.replay_segment(pending, &values));
    let values = vec![vec![Some(2f64.to_bits())]];
    let good = engine.replay_segment(live.clone(), &values);
    assert_eq!(live.len() as u64 - 3, good);
    engine.truncate_wal(good);
    assert_eq!(good, engine.wal_position());
    assert_eq!(2, engine.storage().active_set_size());
    engine.time_tick();
    let storage = engine.storage();
    let points = storage.load_from_snapshot("m:f");
    assert_eq!(
        points.iter().map(|p| p.timestamp).collect::<Vec<_>>(),
        vec![1, 2]
    );
}

#[test]
fn a_log_that_is_full_takes_no_line() {
    let (mut engine, _worker) = new_engine();
    engine.truncate_wal(u64::MAX - 12);
    assert_eq!(
        Err(IngestError::Wal(tiempodb::wal::WalError::TooLarge)),
        engine.ingest("m f=1 1", &values_of(b"m f=1 1")).map(|a| a.sync)
    );
    assert_eq!(0, engine.storage().active_set_size());
    assert_eq!(u64::MAX - 12, engine.wal_position());
}

#[test]
fn the_frame_of_a_line_is_what_the_log_writes() {
    let (mut engine, _worker) = new_engine();
    let actions = engine.ingest("m f=1 1", &values_of(b"m f=1 1")).unwrap();
    let mut wal = tiempodb::wal::Wal::new(WAL);
    assert_eq!(wal.write(b"m f=1 1").unwrap().frame, actions.frame);
    assert!(!actions.sync);
    assert_eq!(19, engine.wal_position());
}

#[test]
fn the_worker_serves_what_was_taken_from_the_channel() {
    let (mut engine, mut worker) = new_engine();
    let mut storage = SnaphotableStorage::new();
    storage.add(tiempodb::storage::DataPoint::new("m:f".to_string().into(), 1, 2));
    storage.make_snapshot();

    assert!(!worker.serve_request(None, storage.snapshot_mut()));
    assert_eq!(1, storage.snapshot_set_size());
    assert!(worker.partition_manager().partitions.is_empty());
    assert!(worker.requests().try_recv().is_err());

    assert!(worker.serve_request(Some(3), storage.snapshot_mut()));
    assert_eq!(0, storage.snapshot_set_size());
    assert_eq!(1, worker.partition_manager().partitions.len());

    // The report has reached the engine: it frees the segment of the request.
    let actions = engine.ingest("m f=1 1", &values_of(b"m f=1 1")).unwrap();
    assert_eq!(Some("wal.pending_3".to_string()), actions.drop_pending);
}

#[test]
fn a_line_is_framed_before_its_points_are_stored() {
    let (mut engine, _worker) = new_engine();
    let line = "m f=1 7";

    let written = engine.log_line(line).unwrap();
    assert_eq!(12 + line.len(), written.frame.len());
    assert_eq!(&written.frame[..8], &(line.len() as u64).to_le_bytes());
    assert_eq!(&written.frame[12..], line.as_bytes());
    assert!(!written.sync);
    assert_eq!((12 + line.len()) as u64, engine.wal_position());
    assert_eq!(0, engine.storage().active_set_size());

    let left = engine.store_line(line, &values_of(line.as_bytes())).unwrap();
    assert!(left.frame.is_empty());
    assert!(!left.sync);
    assert!(left.roll.is_none());
    assert!(left.snapshot.is_none());
    assert!(left.drop_pending.is_none());
    assert_eq!(1, engine.storage().active_set_size());
    assert_eq!((12 + line.len()) as u64, engine.wal_position());
}

#[test]
fn the_two_steps_do_what_ingest_does() {
    let (mut whole, _w1) = new_engine();
    let (mut parted, _w2) = new_engine();
    for i in 0..=100u64 {
        let line = format!("m f={} {}", i, i);
        let values = values_of(line.as_bytes());
        let actions = whole.ingest(&line, &values).unwrap();
        let written = parted.log_line(&line).unwrap();
        let left = parted.store_line(&line, &values).unwrap();
        assert_eq!(actions.frame, written.frame);
        assert_eq!(actions.sync, written.sync);
        assert_eq!(actions.snapshot, left.snapshot);
        assert_eq!(
            actions.roll.map(|roll| (roll.pending, roll.position)),
            left.roll.map(|roll| (roll.pending, roll.position))
        );
        assert_eq!(whole.wal_position(), parted.wal_position());
        assert_eq!(
            whole.storage().active_set_size(),
            parted.storage().active_set_size()
        );
    }
    assert_eq!(0, parted.wal_position());
    assert_eq!(101, parted.storage().load_from_snapshot("m:f").len());
}

#[test]
fn the_snapshot_keeps_its_points_until_the_partition_lies_in_the_directory() {
    let mut storage = SnaphotableStorage::new();
    let (_engine, mut worker) = new_engine();
    storage.add(tiempodb::storage::DataPoint::new("m:f".to_string().into(), 1, 2));
    storage.make_snapshot();

    assert_eq!(Ok(()), worker.write_snapshot(storage.share_snapshot()));
    assert_eq!(1, storage.snapshot_set_size());
    assert_eq!(1, worker.partition_manager().partitions.len());
    assert_eq!(3, worker.take_journal().len());

    assert_eq!(Ack::Failed, worker.conclude(9, false, storage.snapshot_mut()));
    assert_eq!(1, storage.snapshot_set_size());
    assert_eq!(1, storage.load_from_snapshot("m:f").len());

    assert_eq!(
        Ack::Committed { position: 9 },
        worker.conclude(9, true, storage.snapshot_mut())
    );
    assert_eq!(0, storage.snapshot_set_size());
}

#[test]
fn a_failed_roll_leaves_the_snapshot_to_the_next_request() {
    let mut storage = SnaphotableStorage::new();
    let (_engine, mut worker) = new_engine();
    storage.add(tiempodb::storage::DataPoint::new("m:f".to_string().into(), 1, 2));
    storage.make_snapshot();
    worker.set_failpoint(Some(FailPoint::RenameStep));
    assert_eq!(
        Err(tiempodb::partition::PartitionError::RenameStep),
        worker.write_snapshot(storage.share_snapshot())
    );
    assert_eq!(1, storage.snapshot_set_size());
    assert!(worker.partition_manager().partitions.is_empty());
}

#[test]
fn a_full_tier_is_frozen_before_its_partition_is_asked_for() {
    let (mut engine, worker) = new_engine();
    for i in 0..100u64 {
        let line = format!("m f={} {}", i, i);
        engine.log_line(&line).unwrap();
        assert!(!engine.gather_line(&line, &values_of(line.as_bytes())));
        let left = engine.ask_partition(false).unwrap();
        assert!(left.roll.is_none());
        assert!(left.snapshot.is_none());
    }
    assert_eq!(100, engine.storage().active_set_size());
    assert_eq!(0, engine.storage().snapshot_set_size());

    engine.log_line("m f=100 100").unwrap();
    assert!(engine.gather_line("m f=100 100", &values_of(b"m f=100 100")));
    assert_eq!(0, engine.storage().active_set_size());
    assert_eq!(101, engine.storage().load_from_snapshot("m:f").len());
    assert!(worker.requests().try_recv().is_err());
    assert!(engine.wal_position() > 0);

    // What was frozen can be handed on before the request goes out.
    let frozen = engine.snapshot_mut().take();
    assert_eq!(1, frozen.len());
    assert_eq!(0, engine.storage().snapshot_set_size());

    let left = engine.ask_partition(true).unwrap();
    assert_eq!(Some(0), left.snapshot);
    let roll = left.roll.expect("the segment is rolled");
    assert_eq!("wal.pending_0", roll.pending);
    assert_eq!(0, roll.position);
    assert_eq!(0, engine.wal_position());
    assert_eq!(Ok(0), worker.requests().try_recv());

    // While the request is under way, a full tier is not frozen again.
    for i in 0..=100u64 {
        let line = format!("m f={} {}", i, i);
        assert!(!engine.gather_line(&line, &values_of(line.as_bytes())));
    }
    assert_eq!(101, engine.storage().active_set_size());
}

#[test]
fn asking_fails_when_the_worker_is_gone() {
    let (mut engine, worker) = new_engine();
    drop(worker);
    assert!(engine.ask_partition(false).is_ok());
    assert_eq!(
        Err(IngestError::ChannelClosed),
        engine.ask_partition(true).map(|left| left.snapshot)
    );
    assert_eq!(0, engine.wal_position());
}

#[test]
fn the_worker_stops_once_the_engine_is_gone() {
    let (mut engine, mut worker) = new_engine();
    for i in 0..=100u64 {
        let line = format!("m f={} {}", i, i);
        engine.ingest(&line, &values_of(line.as_bytes())).unwrap();
    }
    let mut storage = SnaphotableStorage::new();
    storage.add(tiempodb::storage::DataPoint::new("m:f".to_string().into(), 1, 2));
    storage.make_snapshot();
    drop(engine);

    // The request that was sent is still served.
    assert!(worker.tick(storage.snapshot_mut()));
    assert_eq!(0, storage.snapshot_set_size());
    assert_eq!(1, worker.partition_manager().partitions.len());

    // The channel is closed and empty: nothing is done.
    assert!(!worker.tick(storage.snapshot_mut()));
    assert!(!worker.tick(storage.snapshot_mut()));
    assert_eq!(1, worker.partition_manager().partitions.len());
}

#[test]
fn a_restart_brings_back_every_line_before_a_torn_tail() {
    let mut engine = new_engine().0;
    let mut log = Vec::new();
    let mut lines = Vec::new();
    for i in 0..40u64 {
        let line = format!("m,host=a f={},g={} {}", i, i % 5, 1000 - i);
        ingest(&mut engine, &mut log, &line);
        lines.push(line);
    }
    let whole = log.len();
    ingest(&mut engine, &mut log, "m,host=a f=77,g=78 79");
    for cut in [1, 5, 12, 20, log.len() - whole - 1] {
        let mut torn = log[..log.len() - cut].to_vec();
        let (mut restored, _worker) = restore(&mut torn);
        assert_eq!(whole as u64, restored.wal_position());
        assert_eq!(80, restored.storage().active_set_size());
        restored.time_tick();
        let f = restored.storage().load_from_snapshot("m:f");
        let g = restored.storage().load_from_snapshot("m:g");
        assert_eq!(40, f.len());
        assert_eq!(40, g.len());
        for i in 0..40u64 {
            let at = f
                .iter()
                .filter(|p| p.timestamp == 1000 - i && p.value == (i as f64).to_bits())
                .count();
            assert_eq!(1, at);
            assert_eq!(961 + i, f[i as usize].timestamp);
        }
        assert!(f.iter().all(|p| p.timestamp != 79));
    }
}

#[test]
fn the_points_of_a_series_share_their_key() {
    let (mut engine, _worker) = new_engine();
    let first = engine.intern("m:f".to_string());
    let second = engine.intern("m:g".to_string());
    let again = engine.intern("m:f".to_string());
    assert_eq!("m:f", *first);
    assert_eq!("m:g", *second);
    assert!(std::sync::Arc::ptr_eq(&first, &again));
    assert!(!std::sync::Arc::ptr_eq(&first, &second));

    for i in 0..3u64 {
        let line = format!("m f={},h={} {}", i, i, i);
        engine.ingest(&line, &values_of(line.as_bytes())).unwrap();
    }
    engine.time_tick();
    let f = engine.storage().load_from_snapshot("m:f");
    let h = engine.storage().load_from_snapshot("m:h");
    assert_eq!(3, f.len());
    assert_eq!(3, h.len());
    for point in f.iter() {
        assert!(std::sync::Arc::ptr_eq(&first, &point.name));
    }
    assert!(std::sync::Arc::ptr_eq(&h[0].name, &h[2].name));
    assert!(!std::sync::Arc::ptr_eq(&h[0].name, &f[0].name));
    assert_eq!("m:h", *h[1].name);
}
