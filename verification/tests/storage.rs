use tiempodb::storage::{
    DataPoint, MemoryStorage, MetricsData, SnaphotableStorage, StorageReader, StorageSnapshot,
    StorageWriter,
};

const METRIC_NAME: &str = "ololoev";

struct Numbers(u64);

impl Numbers {
    fn next(&mut self) -> u64 {
        self.0 = self
            .0
            .wrapping_mul(6364136223846793005)
            .wrapping_add(1442695040888963407);
        self.0 >> 11
    }
}

fn data_point(numbers: &mut Numbers, metric: &str) -> DataPoint {
    let timestamp = numbers.next();
    let value = (numbers.next() as f64 / 7.0).to_bits();
    DataPoint::new(metric.to_string().into(), timestamp, value)
}

fn generate_data_points(numbers: &mut Numbers, metric_name: &str, size: usize) -> Vec<DataPoint> {
    (0..size).map(|_| data_point(numbers, metric_name)).collect()
}

fn is_ordered_by_time(points: &[&DataPoint]) -> bool {
    if points.len() <= 1 {
        return true;
    }
    for i in 1..points.len() {
        if points[i - 1].timestamp > points[i].timestamp {
            return false;
        }
    }
    true
}

fn point(name: &str, timestamp: u64, value: f64) -> DataPoint {
    DataPoint::new(name.to_string().into(), timestamp, value.to_bits())
}

fn seen(points: &[&DataPoint]) -> Vec<(u64, f64)> {
    points
        .iter()
        .map(|p| (p.timestamp, f64::from_bits(p.value)))
        .collect()
}

#[test]
fn test_non_existing_series() {
    let mut numbers = Numbers(1);
    let mut storage = MemoryStorage::new();
    let point = data_point(&mut numbers, METRIC_NAME);
    storage.add(point);
    assert!(storage.load("something_else").is_empty());
}

#[test]
fn test_loading_existing_metric() {
    let mut numbers = Numbers(2);
    let mut storage = MemoryStorage::new();
    let point = data_point(&mut numbers, METRIC_NAME);
    storage.add(point.clone());
    let loaded = storage.load(METRIC_NAME);
    assert_eq!(loaded, vec![&point]);
}

#[test]
fn snapshottable_should_return_ordered_from_both_sources() {
    let mut numbers = Numbers(3);
    let mut storage = SnaphotableStorage::new();
    storage.add_bulk(&generate_data_points(&mut numbers, METRIC_NAME, 4));
    storage.add_bulk(&generate_data_points(&mut numbers, METRIC_NAME, 3));

    storage.make_snapshot();

    let result = storage.load_from_snapshot(METRIC_NAME);

    assert_eq!(7, result.len());
    assert_eq!(true, is_ordered_by_time(&result));
}

#[test]
fn load_sorts_by_time_and_keeps_ties_in_order() {
    let mut storage = MemoryStorage::new();
    storage.add(point("m", 30, 1.0));
    storage.add(point("m", 10, 2.0));
    storage.add(point("m", 20, 3.0));
    storage.add(point("m", 10, 4.0));
    storage.add(point("other", 5, 5.0));
    assert_eq!(
        seen(&storage.load("m")),
        vec![(10, 2.0), (10, 4.0), (20, 3.0), (30, 1.0)]
    );
    assert_eq!(seen(&storage.load("other")), vec![(5, 5.0)]);
    assert_eq!(5, storage.active_set_size());
}

#[test]
fn add_bulk_appends_under_every_name() {
    let mut data = MetricsData::new();
    data.add_bulk(&[
        point("a", 1, 1.0),
        point("b", 2, 2.0),
        point("a", 3, 3.0),
        point("b", 4, 4.0),
    ]);
    assert_eq!(2, data.len());
    assert_eq!("a", data.series_name(0));
    assert_eq!("b", data.series_name(1));
    assert_eq!(seen(&data.load("a")), vec![(1, 1.0), (3, 3.0)]);
    assert_eq!(seen(&data.load("b")), vec![(2, 2.0), (4, 4.0)]);
    data.add_bulk(&[]);
    assert_eq!(2, data.len());
}

#[test]
fn snapshot_moves_every_point_once() {
    let mut storage = SnaphotableStorage::new();
    storage.add(point("a", 5, 1.0));
    storage.add(point("b", 1, 2.0));
    storage.add(point("a", 3, 3.0));
    assert_eq!(3, storage.active_set_size());
    assert_eq!(0, storage.snapshot_set_size());
    assert!(storage.load_from_snapshot("a").is_empty());

    storage.make_snapshot();
    assert_eq!(0, storage.active_set_size());
    assert_eq!(2, storage.snapshot_set_size());
    assert_eq!(
        seen(&storage.load_from_snapshot("a")),
        vec![(3, 3.0), (5, 1.0)]
    );

    storage.add(point("a", 4, 4.0));
    storage.add(point("c", 9, 5.0));
    assert_eq!(2, storage.active_set_size());
    assert_eq!(
        seen(&storage.load_from_snapshot("a")),
        vec![(3, 3.0), (5, 1.0)]
    );

    storage.make_snapshot();
    assert_eq!(0, storage.active_set_size());
    assert_eq!(3, storage.snapshot_set_size());
    assert_eq!(
        seen(&storage.load_from_snapshot("a")),
        vec![(3, 3.0), (4, 4.0), (5, 1.0)]
    );
    assert_eq!(seen(&storage.load_from_snapshot("b")), vec![(1, 2.0)]);
    assert_eq!(seen(&storage.load_from_snapshot("c")), vec![(9, 5.0)]);

    storage.make_snapshot();
    assert_eq!(
        seen(&storage.load_from_snapshot("a")),
        vec![(3, 3.0), (4, 4.0), (5, 1.0)]
    );
}

#[test]
fn merge_leaves_the_left_side_empty() {
    let mut left = MetricsData::new();
    left.add(point("a", 2, 1.0));
    left.add(point("b", 1, 2.0));
    let mut right = MetricsData::new();
    right.add(point("b", 0, 3.0));
    StorageSnapshot::merge_to_right(&mut left, &mut right);
    assert_eq!(0, left.len());
    assert_eq!(2, right.len());
    assert_eq!("b", right.series_name(0));
    assert_eq!("a", right.series_name(1));
    assert_eq!(seen(&right.load("b")), vec![(0, 3.0), (1, 2.0)]);
}

#[test]
fn clearing_the_snapshot_keeps_the_active_tier() {
    let mut storage = SnaphotableStorage::new();
    storage.add(point("a", 1, 1.0));
    storage.make_snapshot();
    storage.add(point("a", 2, 2.0));
    storage.clear_snapshot();
    assert_eq!(0, storage.snapshot_set_size());
    assert_eq!(1, storage.active_set_size());
    storage.make_snapshot();
    assert_eq!(seen(&storage.load_from_snapshot("a")), vec![(2, 2.0)]);
}

#[test]
fn tags_travel_with_the_point() {
    let mut p = point("a", 1, 1.0);
    p.set_tags(&vec![("host", "h1"), ("dc", "x")]);
    assert_eq!(
        p.tags,
        vec![
            ("host".to_string(), "h1".to_string()),
            ("dc".to_string(), "x".to_string())
        ]
    );
    let copy = p.duplicate();
    assert_eq!(copy, p);
}

fn through_writer<W: StorageWriter>(writer: &mut W) {
    writer.add(point("t", 2, 2.0));
    writer.add_bulk(&[point("t", 1, 1.0)]);
}

fn through_reader<R: StorageReader>(reader: &R) -> Vec<(u64, f64)> {
    seen(&reader.load("t"))
}

#[test]
fn the_tiers_write_and_read_through_the_traits() {
    let mut data = MetricsData::new();
    through_writer(&mut data);
    assert_eq!(through_reader(&data), vec![(1, 1.0), (2, 2.0)]);

    let mut memory = MemoryStorage::new();
    through_writer(&mut memory);
    assert_eq!(2, memory.active_set_size());

    let mut both = SnaphotableStorage::new();
    through_writer(&mut both);
    assert_eq!(2, both.active_set_size());
    assert_eq!(0, both.snapshot_set_size());
}

#[test]
fn a_snapshot_hands_out_its_series_and_keeps_none() {
    let mut storage = SnaphotableStorage::new();
    storage.add(DataPoint::new("a".to_string().into(), 2, 1));
    storage.add(DataPoint::new("a".to_string().into(), 1, 1));
    storage.add(DataPoint::new("b".to_string().into(), 1, 1));
    storage.make_snapshot();
    let mut taken = storage.snapshot_mut().take();
    assert_eq!(2, taken.len());
    assert_eq!(0, storage.snapshot_set_size());
    assert!(storage.load_from_snapshot("a").is_empty());

    let mut other = tiempodb::storage::StorageSnapshot::new();
    other.tick(&mut taken);
    assert_eq!(0, taken.len());
    assert_eq!(
        vec![1, 2],
        other.read("a").iter().map(|p| p.timestamp).collect::<Vec<u64>>()
    );
    assert_eq!(1, other.read("b").len());
}
