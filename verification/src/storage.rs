//! The in-memory store: an active tier that takes new points and a snapshot
//! tier that readers and the partition writer see. A snapshot moves all
//! active points to the snapshot tier at once.
//!
//! A point's value is held as the 64-bit pattern of an IEEE 754 double.

use vstd::prelude::*;
use std::sync::Arc;
use vstd::string::*;
use crate::text::str_eq;

verus! {

/// What a point holds.
pub struct PointView {
    pub name: Seq<char>,
    pub timestamp: u64,
    pub value: u64,
    pub tags: Seq<(Seq<char>, Seq<char>)>,
}

/// One measured value of one series.
#[derive(Clone, Debug, PartialEq)]
pub struct DataPoint {
    /// The series key, `measurement:field`: a string that the points of a
    /// series, and the series itself, hold in common.
    pub name: Arc<String>,
    /// Nanoseconds.
    pub timestamp: u64,
    /// The bits of the value, an IEEE 754 double.
    pub value: u64,
    /// The tags of the line that the point came with.
    pub tags: Vec<(String, String)>,
}

/// What owned tags hold.
pub open spec fn tag_views(tags: Seq<(String, String)>) -> Seq<(Seq<char>, Seq<char>)> {
    tags.map_values(|t: (String, String)| (t.0@, t.1@))
}

/// What borrowed tags hold.
pub open spec fn pair_views(tags: Seq<(&str, &str)>) -> Seq<(Seq<char>, Seq<char>)> {
    tags.map_values(|t: (&str, &str)| (t.0@, t.1@))
}

impl View for DataPoint {
    type V = PointView;

    open spec fn view(&self) -> PointView {
        PointView {
            name: self.name@,
            timestamp: self.timestamp,
            value: self.value,
            tags: tag_views(self.tags@),
        }
    }
}

/// What a run of points holds.
pub open spec fn views(points: Seq<DataPoint>) -> Seq<PointView> {
    points.map_values(|p: DataPoint| p@)
}

/// What a run of borrowed points holds.
pub open spec fn ref_views(points: Seq<&DataPoint>) -> Seq<PointView> {
    points.map_values(|p: &DataPoint| p@)
}

impl DataPoint {
    /// A point without tags.
    pub fn new(name: Arc<String>, timestamp: u64, value: u64) -> (point: Self)
        ensures
            point@ == (PointView { name: name@, timestamp, value, tags: Seq::empty() }),
    {
        let point = DataPoint { name, timestamp, value, tags: Vec::new() };
        assert(tag_views(point.tags@) =~= Seq::empty());
        point
    }

    /// Replaces the tags of the point by copies of `tags`.
    pub fn set_tags(&mut self, tags: &Vec<(&str, &str)>)
        ensures
            final(self)@ == (PointView {
                name: old(self)@.name,
                timestamp: old(self)@.timestamp,
                value: old(self)@.value,
                tags: pair_views(tags@),
            }),
    {
        let mut owned: Vec<(String, String)> = Vec::with_capacity(tags.len());
        let mut i: usize = 0;
        while i < tags.len()
            invariant
                i <= tags@.len(),
                owned@.len() == i,
                forall|k: int|
                    0 <= k < i ==> (#[trigger] owned@[k]).0@ == tags@[k].0@ && owned@[k].1@
                        == tags@[k].1@,
            decreases tags@.len() - i,
        {
            let key: String = String::from_str(tags[i].0);
            let value: String = String::from_str(tags[i].1);
            owned.push((key, value));
            i = i + 1;
        }
        assert(tag_views(owned@) =~= pair_views(tags@));
        self.tags = owned;
    }

    /// A copy of the point.
    pub fn duplicate(&self) -> (copy: DataPoint)
        ensures
            copy@ == self@,
    {
        let mut tags: Vec<(String, String)> = Vec::with_capacity(self.tags.len());
        let mut i: usize = 0;
        while i < self.tags.len()
            invariant
                i <= self.tags@.len(),
                tags@.len() == i,
                forall|k: int|
                    0 <= k < i ==> (#[trigger] tags@[k]).0@ == self.tags@[k].0@ && tags@[k].1@
                        == self.tags@[k].1@,
            decreases self.tags@.len() - i,
        {
            let key: String = self.tags[i].0.clone();
            let value: String = self.tags[i].1.clone();
            tags.push((key, value));
            i = i + 1;
        }
        assert(tag_views(tags@) =~= tag_views(self.tags@));
        DataPoint { name: self.name.clone(), timestamp: self.timestamp, value: self.value, tags }
    }
}

/// The place of the series `name` among `entries`, or their number when no
/// series has that name.
pub open spec fn position_of(entries: Seq<(Seq<char>, Seq<PointView>)>, name: Seq<char>) -> nat
    decreases entries.len(),
{
    if entries.len() == 0 || entries[0].0 == name {
        0
    } else {
        1 + position_of(entries.drop_first(), name)
    }
}

/// The points of the series `name`, in the order in which they are held;
/// none when there is no such series.
pub open spec fn lookup(entries: Seq<(Seq<char>, Seq<PointView>)>, name: Seq<char>) -> Seq<
    PointView,
> {
    let at = position_of(entries, name) as int;
    if at < entries.len() {
        entries[at].1
    } else {
        Seq::empty()
    }
}

/// The series after `point` was added: appended to the series of its name,
/// or alone in a new last series.
pub open spec fn insert_point(entries: Seq<(Seq<char>, Seq<PointView>)>, point: PointView) -> Seq<
    (Seq<char>, Seq<PointView>),
> {
    let at = position_of(entries, point.name) as int;
    if at < entries.len() {
        entries.update(at, (entries[at].0, entries[at].1.push(point)))
    } else {
        entries.push((point.name, seq![point]))
    }
}

/// The series after `points` were added one by one.
pub open spec fn insert_points(
    entries: Seq<(Seq<char>, Seq<PointView>)>,
    points: Seq<PointView>,
) -> Seq<(Seq<char>, Seq<PointView>)>
    decreases points.len(),
{
    if points.len() == 0 {
        entries
    } else {
        insert_point(insert_points(entries, points.drop_last()), points.last())
    }
}

/// No two series share a name, no series is empty, and every point carries
/// the name of its series.
pub open spec fn entries_wf(entries: Seq<(Seq<char>, Seq<PointView>)>) -> bool {
    &&& forall|i: int, j: int|
        0 <= i < j < entries.len() ==> (#[trigger] entries[i]).0 != (#[trigger] entries[j]).0
    &&& forall|i: int| 0 <= i < entries.len() ==> (#[trigger] entries[i]).1.len() > 0
    &&& forall|i: int, k: int|
        0 <= i < entries.len() && 0 <= k < entries[i].1.len() ==> (#[trigger] entries[i].1[k]).name
            == entries[i].0
}

/// `position_of` is within the series, no series before it has the name, and
/// the series at it has.
pub proof fn lemma_position_of(entries: Seq<(Seq<char>, Seq<PointView>)>, name: Seq<char>)
    ensures
        position_of(entries, name) <= entries.len(),
        forall|j: int| 0 <= j < position_of(entries, name) ==> (#[trigger] entries[j]).0 != name,
        position_of(entries, name) < entries.len() ==> entries[position_of(entries, name) as int].0
            == name,
    decreases entries.len(),
{
    if entries.len() == 0 || entries[0].0 == name {
    } else {
        let rest = entries.drop_first();
        lemma_position_of(rest, name);
        assert forall|j: int| 0 <= j < position_of(entries, name) implies (#[trigger] entries[j]).0
            != name by {
            if j > 0 {
                assert(entries[j] == rest[j - 1]);
            }
        }
    }
}

/// The first series that has the name stands at `position_of`.
pub proof fn lemma_position_of_is(
    entries: Seq<(Seq<char>, Seq<PointView>)>,
    name: Seq<char>,
    i: int,
)
    requires
        0 <= i <= entries.len(),
        forall|j: int| 0 <= j < i ==> (#[trigger] entries[j]).0 != name,
        i < entries.len() ==> entries[i].0 == name,
    ensures
        position_of(entries, name) == i,
    decreases entries.len(),
{
    if entries.len() == 0 || entries[0].0 == name {
        if i > 0 {
            assert(entries[0].0 != name);
        }
    } else {
        let rest = entries.drop_first();
        assert forall|j: int| 0 <= j < i - 1 implies (#[trigger] rest[j]).0 != name by {
            assert(rest[j] == entries[j + 1]);
        }
        lemma_position_of_is(rest, name, i - 1);
    }
}

/// Adding a point keeps the series well formed.
pub proof fn lemma_insert_point_wf(entries: Seq<(Seq<char>, Seq<PointView>)>, point: PointView)
    requires
        entries_wf(entries),
    ensures
        entries_wf(insert_point(entries, point)),
{
    lemma_position_of(entries, point.name);
    let at = position_of(entries, point.name) as int;
    let after = insert_point(entries, point);
    if at < entries.len() {
        assert forall|i: int, k: int|
            0 <= i < after.len() && 0 <= k < after[i].1.len() implies (#[trigger] after[i].1[k]).name
            == after[i].0 by {
            if i == at && k < entries[at].1.len() {
                assert(after[i].1[k] == entries[i].1[k]);
            } else if i != at {
                assert(after[i].1[k] == entries[i].1[k]);
            }
        }
    } else {
        assert forall|i: int, k: int|
            0 <= i < after.len() && 0 <= k < after[i].1.len() implies (#[trigger] after[i].1[k]).name
            == after[i].0 by {
            if i < entries.len() {
                assert(after[i].1[k] == entries[i].1[k]);
            }
        }
    }
}

/// Adding points one by one keeps the series well formed.
pub proof fn lemma_insert_points_wf(
    entries: Seq<(Seq<char>, Seq<PointView>)>,
    points: Seq<PointView>,
)
    requires
        entries_wf(entries),
    ensures
        entries_wf(insert_points(entries, points)),
    decreases points.len(),
{
    if points.len() > 0 {
        lemma_insert_points_wf(entries, points.drop_last());
        lemma_insert_point_wf(insert_points(entries, points.drop_last()), points.last());
    }
}

/// Adding two runs of points one after the other is adding them as one run.
pub proof fn lemma_insert_points_concat(
    entries: Seq<(Seq<char>, Seq<PointView>)>,
    first: Seq<PointView>,
    second: Seq<PointView>,
)
    ensures
        insert_points(entries, first + second) == insert_points(
            insert_points(entries, first),
            second,
        ),
    decreases second.len(),
{
    if second.len() == 0 {
        assert(first + second == first);
    } else {
        lemma_insert_points_concat(entries, first, second.drop_last());
        assert((first + second).drop_last() == first + second.drop_last());
    }
}

/// One series: its name and its points.
#[derive(Debug, PartialEq)]
pub struct MetricSeries {
    name: Arc<String>,
    points: Vec<DataPoint>,
}

/// Series by name, each with its points in the order in which they came.
#[derive(Debug, PartialEq)]
pub struct MetricsData {
    series: Vec<MetricSeries>,
}

impl MetricsData {
    /// The series in the order in which they were first written, each with
    /// its name and its points.
    pub closed spec fn entries(&self) -> Seq<(Seq<char>, Seq<PointView>)> {
        self.series@.map_values(|s: MetricSeries| (s.name@, views(s.points@)))
    }

    /// What holds of every value that the functions of the type hand out.
    pub open spec fn wf(&self) -> bool {
        entries_wf(self.entries())
    }

    /// No series.
    pub fn new() -> (data: MetricsData)
        ensures
            data.wf(),
            data.entries() == Seq::<(Seq<char>, Seq<PointView>)>::empty(),
    {
        let data = MetricsData { series: Vec::new() };
        assert(data.entries() =~= Seq::empty());
        data
    }

    /// The number of series.
    pub fn len(&self) -> (count: usize)
        ensures
            count == self.entries().len(),
    {
        self.series.len()
    }

    /// The name of the series at `index`.
    pub fn series_name(&self, index: usize) -> (name: &str)
        requires
            index < self.entries().len(),
        ensures
            name@ == self.entries()[index as int].0,
    {
        self.series[index].name.as_str()
    }

    /// The points of the series at `index`, in the order in which they came.
    pub fn series_points(&self, index: usize) -> (points: &Vec<DataPoint>)
        requires
            index < self.entries().len(),
        ensures
            views(points@) == self.entries()[index as int].1,
    {
        &self.series[index].points
    }

    fn position(&self, name: &str) -> (at: usize)
        ensures
            at == position_of(self.entries(), name@),
            at <= self.series@.len(),
    {
        let mut at: usize = 0;
        while at < self.series.len() && !str_eq(self.series[at].name.as_str(), name)
            invariant
                at <= self.series@.len(),
                forall|j: int| 0 <= j < at ==> (#[trigger] self.entries()[j]).0 != name@,
            decreases self.series@.len() - at,
        {
            at = at + 1;
        }
        proof {
            lemma_position_of_is(self.entries(), name@, at as int);
        }
        at
    }

    /// Appends `point` to the series of its name, which is made if need be.
    pub fn add(&mut self, point: DataPoint)
        requires
            old(self).wf(),
        ensures
            final(self).wf(),
            final(self).entries() == insert_point(old(self).entries(), point@),
    {
        let at: usize = self.position(point.name.as_str());
        proof {
            lemma_insert_point_wf(self.entries(), point@);
        }
        if at < self.series.len() {
            let ghost before = self.series@[at as int].points@;
            self.series[at].points.push(point);
            proof {
                assert(self.series@.len() == old(self).series@.len());
                assert(self.series@[at as int].points@ == before.push(point));
                assert(views(before.push(point)) =~= views(before).push(point@));
                assert(self.series@[at as int].name == old(self).series@[at as int].name);
                assert forall|j: int| 0 <= j < self.series@.len() && j != at implies self.series@[j]
                    == old(self).series@[j] by {}
                assert(self.entries() =~= insert_point(old(self).entries(), point@));
            }
        } else {
            let name: Arc<String> = point.name.clone();
            let mut points: Vec<DataPoint> = Vec::new();
            points.push(point);
            assert(views(points@) =~= seq![point@]);
            self.series.push(MetricSeries { name, points });
            assert(self.entries() =~= insert_point(old(self).entries(), point@));
        }
    }

    /// Appends a copy of each of `points`, one by one.
    pub fn add_bulk(&mut self, points: &[DataPoint])
        requires
            old(self).wf(),
        ensures
            final(self).wf(),
            final(self).entries() == insert_points(old(self).entries(), views(points@)),
    {
        let mut i: usize = 0;
        while i < points.len()
            invariant
                i <= points@.len(),
                self.wf(),
                self.entries() == insert_points(old(self).entries(), views(points@).take(i as int)),
            decreases points@.len() - i,
        {
            proof {
                assert(views(points@).take(i + 1).drop_last() == views(points@).take(i as int));
            }
            self.add(points[i].duplicate());
            i = i + 1;
        }
        proof {
            assert(views(points@).take(points@.len() as int) == views(points@));
        }
    }

    /// The points of the series `metric_name`, by ascending timestamp; points
    /// of one timestamp stay in the order in which they came.
    pub fn load(&self, metric_name: &str) -> (points: Vec<&DataPoint>)
        ensures
            ref_views(points@) == sorted_by_time(lookup(self.entries(), metric_name@)),
    {
        let at: usize = self.position(metric_name);
        let mut result: Vec<&DataPoint> = Vec::new();
        if at < self.series.len() {
            let data: &Vec<DataPoint> = &self.series[at].points;
            let mut i: usize = 0;
            assert(ref_views(result@) =~= sorted_by_time(views(data@).take(0)));
            while i < data.len()
                invariant
                    i <= data@.len(),
                    ref_views(result@) == sorted_by_time(views(data@).take(i as int)),
                decreases data@.len() - i,
            {
                proof {
                    assert(views(data@).take(i + 1).drop_last() == views(data@).take(i as int));
                }
                insert_ref_in_order(&mut result, &data[i]);
                i = i + 1;
            }
            proof {
                assert(views(data@).take(data@.len() as int) == views(data@));
            }
        } else {
            assert(ref_views(result@) =~= sorted_by_time(Seq::empty()));
        }
        result
    }

    /// Removes all series.
    pub fn clear(&mut self)
        ensures
            final(self).wf(),
            final(self).entries() == Seq::<(Seq<char>, Seq<PointView>)>::empty(),
    {
        self.series.clear();
        assert(self.entries() =~= Seq::empty());
    }

    /// Moves every series of `self` into `right`: behind the points that
    /// `right` holds under the same name, or as a new last series. Each
    /// series that takes points is then put in ascending order of time.
    pub fn merge_into(&mut self, right: &mut MetricsData)
        requires
            old(self).wf(),
            old(right).wf(),
        ensures
            final(self).wf(),
            final(right).wf(),
            final(self).entries() == Seq::<(Seq<char>, Seq<PointView>)>::empty(),
            final(right).entries() == merge_entries(old(right).entries(), old(self).entries()),
    {
        let ghost left = self.entries();
        let mut i: usize = 0;
        while i < self.series.len()
            invariant
                i <= self.series@.len(),
                left == old(self).entries(),
                left.len() == self.series@.len(),
                entries_wf(left),
                forall|k: int|
                    i <= k < self.series@.len() ==> (#[trigger] self.series@[k]).name@ == left[k].0
                        && views(self.series@[k].points@) == left[k].1,
                right.wf(),
                right.entries() == merge_entries(old(right).entries(), left.take(i as int)),
            decreases self.series@.len() - i,
        {
            let ghost before = right.entries();
            let ghost name = left[i as int].0;
            let ghost moved = left[i as int].1;
            proof {
                assert(left.take(i + 1).drop_last() == left.take(i as int));
                lemma_merge_series_wf(before, name, moved);
            }
            let at: usize = right.position(self.series[i].name.as_str());
            if at < right.series.len() {
                let ghost held = right.series@[at as int].points@;
                let ghost taken = self.series@[i as int].points@;
                let ghost left_before = self.series@;
                let ghost right_before = right.series@;
                right.series[at].points.append(&mut self.series[i].points);
                proof {
                    assert(right.series@[at as int].points@ == held + taken);
                    assert(views(held + taken) =~= views(held) + moved);
                    assert(self.series@.len() == left_before.len());
                    assert(self.series@[i as int].name == left_before[i as int].name);
                    assert forall|k: int| 0 <= k < self.series@.len() && k != i implies self.series@[k]
                        == left_before[k] by {}
                    assert(right.series@[at as int].name == right_before[at as int].name);
                    assert forall|j: int|
                        0 <= j < right.series@.len() && j != at implies right.series@[j]
                        == right_before[j] by {}
                }
                let ghost right_mid = right.series@;
                sort_points(&mut right.series[at].points);
                proof {
                    assert(right.series@.len() == before.len());
                    assert(right.series@[at as int].name == right_mid[at as int].name);
                    assert forall|j: int|
                        0 <= j < right.series@.len() && j != at implies right.series@[j]
                        == right_mid[j] by {}
                    assert(views(held) == before[at as int].1);
                    assert(right.entries() =~= merge_series(before, name, moved));
                }
            } else {
                let mut points: Vec<DataPoint> = Vec::new();
                let ghost taken = self.series@[i as int].points@;
                let ghost left_before = self.series@;
                points.append(&mut self.series[i].points);
                proof {
                    assert(points@ =~= taken);
                    assert(self.series@.len() == left_before.len());
                    assert(self.series@[i as int].name == left_before[i as int].name);
                    assert forall|k: int| 0 <= k < self.series@.len() && k != i implies self.series@[k]
                        == left_before[k] by {}
                }
                sort_points(&mut points);
                let name: Arc<String> = self.series[i].name.clone();
                right.series.push(MetricSeries { name, points });
                proof {
                    assert(right.entries() =~= merge_series(before, name@, moved));
                }
            }
            i = i + 1;
        }
        proof {
            assert(left.take(left.len() as int) == left);
        }
        self.clear();
    }
}


/// Where a point of time `timestamp` goes into points in ascending order of
/// time: behind the last point that is not later.
pub open spec fn slot(points: Seq<PointView>, timestamp: u64) -> nat
    decreases points.len(),
{
    if points.len() == 0 || points.last().timestamp <= timestamp {
        points.len()
    } else {
        slot(points.drop_last(), timestamp)
    }
}

/// `points` with `point` put in at its slot.
pub open spec fn insert_sorted(points: Seq<PointView>, point: PointView) -> Seq<PointView> {
    points.insert(slot(points, point.timestamp) as int, point)
}

/// `points` by ascending timestamp; points of one timestamp keep their
/// order.
pub open spec fn sorted_by_time(points: Seq<PointView>) -> Seq<PointView>
    decreases points.len(),
{
    if points.len() == 0 {
        points
    } else {
        insert_sorted(sorted_by_time(points.drop_last()), points.last())
    }
}

/// No point is earlier than a point before it.
pub open spec fn ascending(points: Seq<PointView>) -> bool {
    forall|i: int, j: int|
        0 <= i < j < points.len() ==> (#[trigger] points[i]).timestamp <= (
        #[trigger] points[j]).timestamp
}

/// The series after `points` were merged into the series `name`.
pub open spec fn merge_series(
    right: Seq<(Seq<char>, Seq<PointView>)>,
    name: Seq<char>,
    points: Seq<PointView>,
) -> Seq<(Seq<char>, Seq<PointView>)> {
    let at = position_of(right, name) as int;
    if at < right.len() {
        right.update(at, (right[at].0, sorted_by_time(right[at].1 + points)))
    } else {
        right.push((name, sorted_by_time(points)))
    }
}

/// The series after every series of `left` was merged into `right`, in the
/// order of `left`.
pub open spec fn merge_entries(
    right: Seq<(Seq<char>, Seq<PointView>)>,
    left: Seq<(Seq<char>, Seq<PointView>)>,
) -> Seq<(Seq<char>, Seq<PointView>)>
    decreases left.len(),
{
    if left.len() == 0 {
        right
    } else {
        merge_series(merge_entries(right, left.drop_last()), left.last().0, left.last().1)
    }
}

/// The slot lies behind every point that is not later and before every point
/// that is later, when the points are in ascending order.
pub proof fn lemma_slot(points: Seq<PointView>, timestamp: u64)
    ensures
        slot(points, timestamp) <= points.len(),
        forall|j: int|
            slot(points, timestamp) <= j < points.len() ==> (#[trigger] points[j]).timestamp
                > timestamp,
        slot(points, timestamp) > 0 ==> points[slot(points, timestamp) - 1].timestamp <= timestamp,
    decreases points.len(),
{
    if points.len() == 0 || points.last().timestamp <= timestamp {
    } else {
        let front = points.drop_last();
        lemma_slot(front, timestamp);
        assert forall|j: int| slot(points, timestamp) <= j < points.len() implies (
        #[trigger] points[j]).timestamp > timestamp by {
            if j < front.len() {
                assert(points[j] == front[j]);
            }
        }
    }
}

/// Sorting keeps every point, as often as it occurs, and puts the points in
/// ascending order of time.
pub proof fn lemma_sorted_by_time(points: Seq<PointView>)
    ensures
        sorted_by_time(points).len() == points.len(),
        sorted_by_time(points).to_multiset() == points.to_multiset(),
        ascending(sorted_by_time(points)),
    decreases points.len(),
{
    if points.len() == 0 {
    } else {
        let front = points.drop_last();
        let last = points.last();
        let sorted = sorted_by_time(front);
        lemma_sorted_by_time(front);
        lemma_slot(sorted, last.timestamp);
        let at = slot(sorted, last.timestamp) as int;
        let after = sorted.insert(at, last);
        vstd::seq_lib::to_multiset_insert(sorted, at, last);
        vstd::seq_lib::to_multiset_build(front, last);
        assert(front.push(last) == points);
        assert forall|i: int, j: int| 0 <= i < j < after.len() implies (
        #[trigger] after[i]).timestamp <= (#[trigger] after[j]).timestamp by {
            if i < at && j > at {
                assert(after[i] == sorted[i]);
                assert(after[j] == sorted[j - 1]);
                assert(sorted[i].timestamp <= sorted[at - 1].timestamp);
            } else if i < at && j < at {
                assert(after[i] == sorted[i] && after[j] == sorted[j]);
            } else if i > at {
                assert(after[i] == sorted[i - 1] && after[j] == sorted[j - 1]);
            } else if i < at && j == at {
                assert(after[i] == sorted[i]);
                assert(sorted[i].timestamp <= sorted[at - 1].timestamp);
            } else {
                assert(after[j] == sorted[j - 1]);
            }
        }
    }
}

/// Sorting keeps what holds of every point.
pub proof fn lemma_sorted_keeps_names(points: Seq<PointView>, name: Seq<char>)
    requires
        forall|i: int| 0 <= i < points.len() ==> (#[trigger] points[i]).name == name,
    ensures
        forall|i: int|
            0 <= i < sorted_by_time(points).len() ==> (#[trigger] sorted_by_time(points)[i]).name
                == name,
    decreases points.len(),
{
    if points.len() > 0 {
        let front = points.drop_last();
        let last = points.last();
        assert forall|i: int| 0 <= i < front.len() implies (#[trigger] front[i]).name == name by {
            assert(front[i] == points[i]);
        }
        lemma_sorted_keeps_names(front, name);
        let sorted = sorted_by_time(front);
        lemma_slot(sorted, last.timestamp);
        let at = slot(sorted, last.timestamp) as int;
        let after = sorted.insert(at, last);
        assert forall|i: int| 0 <= i < after.len() implies (#[trigger] after[i]).name == name by {
            if i < at {
                assert(after[i] == sorted[i]);
            } else if i > at {
                assert(after[i] == sorted[i - 1]);
            }
        }
    }
}

/// Merging points that carry a series' name into that series keeps the series
/// well formed.
pub proof fn lemma_merge_series_wf(
    right: Seq<(Seq<char>, Seq<PointView>)>,
    name: Seq<char>,
    points: Seq<PointView>,
)
    requires
        entries_wf(right),
        points.len() > 0,
        forall|i: int| 0 <= i < points.len() ==> (#[trigger] points[i]).name == name,
    ensures
        entries_wf(merge_series(right, name, points)),
{
    lemma_position_of(right, name);
    let at = position_of(right, name) as int;
    let after = merge_series(right, name, points);
    if at < right.len() {
        let all = right[at].1 + points;
        assert forall|i: int| 0 <= i < all.len() implies (#[trigger] all[i]).name == name by {
            if i < right[at].1.len() {
                assert(all[i] == right[at].1[i]);
            } else {
                assert(all[i] == points[i - right[at].1.len()]);
            }
        }
        lemma_sorted_keeps_names(all, name);
        lemma_sorted_by_time(all);
        assert forall|i: int, k: int|
            0 <= i < after.len() && 0 <= k < after[i].1.len() implies (#[trigger] after[i].1[k]).name
            == after[i].0 by {
            if i != at {
                assert(after[i].1[k] == right[i].1[k]);
            }
        }
    } else {
        lemma_sorted_keeps_names(points, name);
        lemma_sorted_by_time(points);
        assert forall|i: int, k: int|
            0 <= i < after.len() && 0 <= k < after[i].1.len() implies (#[trigger] after[i].1[k]).name
            == after[i].0 by {
            if i < right.len() {
                assert(after[i].1[k] == right[i].1[k]);
            }
        }
    }
}

/// Puts `point` into borrowed points that are kept in ascending order.
fn insert_ref_in_order<'a>(sorted: &mut Vec<&'a DataPoint>, point: &'a DataPoint)
    ensures
        ref_views(final(sorted)@) == insert_sorted(ref_views(old(sorted)@), point@),
{
    let ghost held = ref_views(sorted@);
    let mut at: usize = sorted.len();
    assert(held.take(at as int) == held);
    while at > 0 && sorted[at - 1].timestamp > point.timestamp
        invariant
            at <= sorted@.len(),
            sorted@ == old(sorted)@,
            held == ref_views(sorted@),
            slot(held, point.timestamp) == slot(held.take(at as int), point.timestamp),
        decreases at,
    {
        proof {
            assert(held.take(at as int).drop_last() == held.take(at - 1));
        }
        at = at - 1;
    }
    proof {
        assert(slot(held.take(at as int), point.timestamp) == at);
    }
    sorted.insert(at, point);
    assert(ref_views(sorted@) =~= held.insert(at as int, point@));
}

/// Puts the points into ascending order of time; points of one timestamp
/// keep their order.
fn sort_points(points: &mut Vec<DataPoint>)
    ensures
        views(final(points)@) == sorted_by_time(views(old(points)@)),
{
    let ghost all = views(points@);
    let mut done: usize = 0;
    assert(views(points@).take(0) =~= sorted_by_time(all.take(0)));
    while done < points.len()
        invariant
            done <= points@.len(),
            points@.len() == all.len(),
            views(points@).take(done as int) == sorted_by_time(all.take(done as int)),
            views(points@).skip(done as int) == all.skip(done as int),
        decreases points@.len() - done,
    {
        let ghost prefix = views(points@).take(done as int);
        let ghost now = views(points@);
        proof {
            assert(all.take(done + 1).drop_last() == all.take(done as int));
            assert(now[done as int] == now.skip(done as int)[0]);
            assert(all[done as int] == all.skip(done as int)[0]);
        }
        let timestamp: u64 = points[done].timestamp;
        if done > 0 && points[done - 1].timestamp > timestamp {
            let point: DataPoint = points.remove(done);
            let mut at: usize = done - 1;
            proof {
                assert(prefix.drop_last() == prefix.take(at as int));
                assert(views(points@).take(done as int) == prefix);
            }
            while at > 0 && points[at - 1].timestamp > timestamp
                invariant
                    at < done <= points@.len(),
                    views(points@).take(done as int) == prefix,
                    slot(prefix, timestamp) == slot(prefix.take(at as int), timestamp),
                decreases at,
            {
                proof {
                    assert(prefix.take(at as int).drop_last() == prefix.take(at - 1));
                    assert(prefix[at - 1] == views(points@)[at - 1]);
                }
                at = at - 1;
            }
            proof {
                if at > 0 {
                    assert(prefix[at - 1] == views(points@)[at - 1]);
                }
                assert(slot(prefix.take(at as int), timestamp) == at);
            }
            let ghost rest = views(points@);
            points.insert(at, point);
            proof {
                assert(rest =~= now.remove(done as int));
                assert(views(points@) =~= rest.insert(at as int, point@));
                assert(views(points@).take(done + 1) =~= prefix.insert(at as int, point@));
                assert(now.skip(done as int).drop_first() =~= now.skip(done + 1));
                assert(all.skip(done as int).drop_first() =~= all.skip(done + 1));
                assert(views(points@).skip(done + 1) =~= now.skip(done + 1));
            }
        } else {
            proof {
                if done > 0 {
                    assert(prefix[done - 1] == now[done - 1]);
                }
                assert(slot(prefix, timestamp) == done);
                assert(now.take(done + 1) =~= prefix.insert(done as int, now[done as int]));
                assert(now.skip(done as int).drop_first() =~= now.skip(done + 1));
                assert(all.skip(done as int).drop_first() =~= all.skip(done + 1));
            }
        }
        done = done + 1;
    }
    proof {
        assert(views(points@).take(points@.len() as int) == views(points@));
        assert(all.take(all.len() as int) == all);
    }
}


/// The number of points that the active tier has taken.
pub struct StorageStat {
    data_points_count: usize,
}

/// The active tier: the series that take new points, and a count of the
/// points taken, which stops at the largest `usize`.
pub struct MemoryStorage {
    stat: StorageStat,
    map: MetricsData,
}

/// `count` and `more` together, no further than the largest `usize`.
pub open spec fn counted(count: nat, more: nat) -> nat {
    if count + more > usize::MAX {
        usize::MAX as nat
    } else {
        count + more
    }
}

impl MemoryStorage {
    /// The series, each with its name and its points in the order in which
    /// they came.
    pub closed spec fn entries(&self) -> Seq<(Seq<char>, Seq<PointView>)> {
        self.map.entries()
    }

    /// The count of the points taken.
    pub closed spec fn count(&self) -> nat {
        self.stat.data_points_count as nat
    }

    /// What holds of every value that the functions of the type hand out.
    pub open spec fn wf(&self) -> bool {
        entries_wf(self.entries())
    }

    /// Nothing stored.
    pub fn new() -> (storage: Self)
        ensures
            storage.wf(),
            storage.entries() == Seq::<(Seq<char>, Seq<PointView>)>::empty(),
            storage.count() == 0,
    {
        MemoryStorage { map: MetricsData::new(), stat: StorageStat { data_points_count: 0 } }
    }

    /// The count of the points that the active tier has taken.
    pub fn active_set_size(&self) -> (size: usize)
        ensures
            size == self.count(),
    {
        self.stat.data_points_count
    }

    /// The points of the series `metric_name`, by ascending timestamp.
    pub fn load(&self, metric_name: &str) -> (points: Vec<&DataPoint>)
        ensures
            ref_views(points@) == sorted_by_time(lookup(self.entries(), metric_name@)),
    {
        self.map.load(metric_name)
    }

    /// Appends `point` to the series of its name and counts it.
    pub fn add(&mut self, point: DataPoint)
        requires
            old(self).wf(),
        ensures
            final(self).wf(),
            final(self).entries() == insert_point(old(self).entries(), point@),
            final(self).count() == counted(old(self).count(), 1),
    {
        self.map.add(point);
        self.stat.data_points_count = self.stat.data_points_count.saturating_add(1);
    }

    /// Appends a copy of each of `points` and counts them.
    pub fn add_bulk(&mut self, points: &[DataPoint])
        requires
            old(self).wf(),
        ensures
            final(self).wf(),
            final(self).entries() == insert_points(old(self).entries(), views(points@)),
            final(self).count() == counted(old(self).count(), points@.len()),
    {
        self.map.add_bulk(points);
        self.stat.data_points_count = self.stat.data_points_count.saturating_add(points.len());
    }

    /// Hands out all series and leaves the tier empty, with a count of 0.
    pub fn take(&mut self) -> (taken: MetricsData)
        requires
            old(self).wf(),
        ensures
            taken.wf(),
            taken.entries() == old(self).entries(),
            final(self).wf(),
            final(self).entries() == Seq::<(Seq<char>, Seq<PointView>)>::empty(),
            final(self).count() == 0,
    {
        let mut taken: MetricsData = MetricsData::new();
        core::mem::swap(&mut self.map, &mut taken);
        self.stat.data_points_count = 0;
        taken
    }
}

/// The snapshot tier: the series that readers and the partition writer see.
pub struct StorageSnapshot {
    snapshot: MetricsData,
}

impl StorageSnapshot {
    /// The series, each with its name and its points.
    pub closed spec fn entries(&self) -> Seq<(Seq<char>, Seq<PointView>)> {
        self.snapshot.entries()
    }

    /// What holds of every value that the functions of the type hand out.
    pub open spec fn wf(&self) -> bool {
        entries_wf(self.entries())
    }

    /// Nothing stored.
    pub fn new() -> (snapshot: Self)
        ensures
            snapshot.wf(),
            snapshot.entries() == Seq::<(Seq<char>, Seq<PointView>)>::empty(),
    {
        StorageSnapshot { snapshot: MetricsData::new() }
    }

    /// Merges one frozen active tier into the snapshot and leaves it empty.
    pub fn tick(&mut self, data: &mut MetricsData)
        requires
            old(self).wf(),
            old(data).wf(),
        ensures
            final(self).wf(),
            final(self).entries() == merge_entries(old(self).entries(), old(data).entries()),
            final(data).wf(),
            final(data).entries() == Seq::<(Seq<char>, Seq<PointView>)>::empty(),
    {
        StorageSnapshot::merge_to_right(data, &mut self.snapshot);
    }

    /// Moves every series of `left` into `right`; see `MetricsData::merge_into`.
    pub fn merge_to_right(left: &mut MetricsData, right: &mut MetricsData)
        requires
            old(left).wf(),
            old(right).wf(),
        ensures
            final(left).wf(),
            final(right).wf(),
            final(left).entries() == Seq::<(Seq<char>, Seq<PointView>)>::empty(),
            final(right).entries() == merge_entries(old(right).entries(), old(left).entries()),
    {
        left.merge_into(right);
    }

    /// The points of the series `metric_name`, by ascending timestamp.
    pub fn read(&self, metric_name: &str) -> (points: Vec<&DataPoint>)
        ensures
            ref_views(points@) == sorted_by_time(lookup(self.entries(), metric_name@)),
    {
        self.snapshot.load(metric_name)
    }

    /// The number of series in the snapshot.
    pub fn active_set_size(&self) -> (size: usize)
        ensures
            size == self.entries().len(),
    {
        self.snapshot.len()
    }

    /// The series of the snapshot.
    pub fn data(&self) -> (data: &MetricsData)
        ensures
            data.entries() == self.entries(),
    {
        &self.snapshot
    }

    /// Removes all series, once they are durable elsewhere.
    pub fn clear(&mut self)
        ensures
            final(self).wf(),
            final(self).entries() == Seq::<(Seq<char>, Seq<PointView>)>::empty(),
    {
        self.snapshot.clear();
    }

    /// Hands out all series, to be merged into another snapshot, and keeps
    /// none.
    pub fn take(&mut self) -> (data: MetricsData)
        ensures
            data.entries() == old(self).entries(),
            data.wf() == old(self).wf(),
            final(self).wf(),
            final(self).entries() == Seq::<(Seq<char>, Seq<PointView>)>::empty(),
    {
        let mut data: MetricsData = MetricsData::new();
        core::mem::swap(&mut self.snapshot, &mut data);
        data
    }
}

/// Both tiers. New points go to the active tier; `make_snapshot` moves them
/// to the snapshot tier.
pub struct SnaphotableStorage {
    snapshot: StorageSnapshot,
    active: MemoryStorage,
}

impl SnaphotableStorage {
    /// The series of the active tier.
    pub closed spec fn active(&self) -> Seq<(Seq<char>, Seq<PointView>)> {
        self.active.entries()
    }

    /// The series of the snapshot tier.
    pub closed spec fn snapshot(&self) -> Seq<(Seq<char>, Seq<PointView>)> {
        self.snapshot.entries()
    }

    /// The count of the points that the active tier has taken.
    pub closed spec fn active_count(&self) -> nat {
        self.active.count()
    }

    /// What holds of every value that the functions of the type hand out.
    pub open spec fn wf(&self) -> bool {
        entries_wf(self.active()) && entries_wf(self.snapshot())
    }

    /// Nothing stored.
    pub fn new() -> (storage: Self)
        ensures
            storage.wf(),
            storage.active() == Seq::<(Seq<char>, Seq<PointView>)>::empty(),
            storage.snapshot() == Seq::<(Seq<char>, Seq<PointView>)>::empty(),
            storage.active_count() == 0,
    {
        SnaphotableStorage { snapshot: StorageSnapshot::new(), active: MemoryStorage::new() }
    }

    /// Appends `point` to the active tier.
    pub fn add(&mut self, point: DataPoint)
        requires
            old(self).wf(),
        ensures
            final(self).wf(),
            final(self).active() == insert_point(old(self).active(), point@),
            final(self).snapshot() == old(self).snapshot(),
            final(self).active_count() == counted(old(self).active_count(), 1),
    {
        self.active.add(point);
    }

    /// Appends a copy of each of `points` to the active tier.
    pub fn add_bulk(&mut self, points: &[DataPoint])
        requires
            old(self).wf(),
        ensures
            final(self).wf(),
            final(self).active() == insert_points(old(self).active(), views(points@)),
            final(self).snapshot() == old(self).snapshot(),
            final(self).active_count() == counted(old(self).active_count(), points@.len()),
    {
        self.active.add_bulk(points);
    }

    /// Moves all points of the active tier into the snapshot tier. The active
    /// tier is empty afterwards, so no point is on both sides.
    pub fn make_snapshot(&mut self)
        requires
            old(self).wf(),
        ensures
            final(self).wf(),
            final(self).active() == Seq::<(Seq<char>, Seq<PointView>)>::empty(),
            final(self).active_count() == 0,
            final(self).snapshot() == merge_entries(old(self).snapshot(), old(self).active()),
    {
        let mut curr: MetricsData = self.active.take();
        self.snapshot.tick(&mut curr);
    }

    /// The series of the snapshot tier.
    pub fn share_snapshot(&self) -> (data: &MetricsData)
        ensures
            data.entries() == self.snapshot(),
    {
        self.snapshot.data()
    }

    /// The count is a `usize`.
    pub proof fn lemma_count_bound(&self)
        ensures
            self.active_count() <= usize::MAX,
    {
    }

    /// The snapshot tier, to be changed in place.
    pub fn snapshot_mut(&mut self) -> (tier: &mut StorageSnapshot)
        ensures
            tier.entries() == old(self).snapshot(),
            final(self).snapshot() == final(tier).entries(),
            final(self).active() == old(self).active(),
            final(self).active_count() == old(self).active_count(),
    {
        &mut self.snapshot
    }

    /// Empties the snapshot tier, once its points are durable in a partition.
    pub fn clear_snapshot(&mut self)
        requires
            old(self).wf(),
        ensures
            final(self).wf(),
            final(self).active() == old(self).active(),
            final(self).active_count() == old(self).active_count(),
            final(self).snapshot() == Seq::<(Seq<char>, Seq<PointView>)>::empty(),
    {
        self.snapshot.clear();
    }

    /// The points of the series `metric_name` in the snapshot tier, by
    /// ascending timestamp.
    pub fn load_from_snapshot(&self, metric_name: &str) -> (points: Vec<&DataPoint>)
        ensures
            ref_views(points@) == sorted_by_time(lookup(self.snapshot(), metric_name@)),
    {
        self.snapshot.read(metric_name)
    }

    /// The count of the points that the active tier has taken.
    pub fn active_set_size(&self) -> (size: usize)
        ensures
            size == self.active_count(),
    {
        self.active.active_set_size()
    }

    /// The number of series in the snapshot tier.
    pub fn snapshot_set_size(&self) -> (size: usize)
        ensures
            size == self.snapshot().len(),
    {
        self.snapshot.active_set_size()
    }
}

/// Every series is in ascending order of time.
pub open spec fn in_order(entries: Seq<(Seq<char>, Seq<PointView>)>) -> bool {
    forall|i: int| 0 <= i < entries.len() ==> ascending((#[trigger] entries[i]).1)
}

/// A merge keeps the order. A series that takes points is sorted, and a
/// series that takes none stays as it was; so where every series was in
/// ascending order before the merge, every series is after it. A snapshot
/// that starts empty and changes by merges alone is therefore always in
/// order.
pub proof fn lemma_merge_keeps_order(
    right: Seq<(Seq<char>, Seq<PointView>)>,
    left: Seq<(Seq<char>, Seq<PointView>)>,
)
    requires
        in_order(right),
    ensures
        in_order(merge_entries(right, left)),
    decreases left.len(),
{
    if left.len() > 0 {
        let before = merge_entries(right, left.drop_last());
        let name = left.last().0;
        let points = left.last().1;
        lemma_merge_keeps_order(right, left.drop_last());
        lemma_position_of(before, name);
        let at = position_of(before, name) as int;
        let after = merge_series(before, name, points);
        if at < before.len() {
            lemma_sorted_by_time(before[at].1 + points);
            assert forall|i: int| 0 <= i < after.len() implies ascending((#[trigger] after[i]).1) by {
                if i != at {
                    assert(after[i] == before[i]);
                }
            }
        } else {
            lemma_sorted_by_time(points);
            assert forall|i: int| 0 <= i < after.len() implies ascending((#[trigger] after[i]).1) by {
                if i < before.len() {
                    assert(after[i] == before[i]);
                }
            }
        }
    }
}

/// The points among `points` that carry `name`, in their order.
pub open spec fn named(points: Seq<PointView>, name: Seq<char>) -> Seq<PointView>
    decreases points.len(),
{
    if points.len() == 0 {
        Seq::empty()
    } else if points.last().name == name {
        named(points.drop_last(), name).push(points.last())
    } else {
        named(points.drop_last(), name)
    }
}

/// A point that is added goes behind the points of its series, and leaves
/// every other series as it is.
pub proof fn lemma_lookup_insert_point(
    entries: Seq<(Seq<char>, Seq<PointView>)>,
    point: PointView,
    key: Seq<char>,
)
    ensures
        lookup(insert_point(entries, point), key) == if key == point.name {
            lookup(entries, key).push(point)
        } else {
            lookup(entries, key)
        },
{
    lemma_position_of(entries, point.name);
    lemma_position_of(entries, key);
    let at = position_of(entries, point.name) as int;
    let found = position_of(entries, key) as int;
    let after = insert_point(entries, point);
    if at < entries.len() {
        assert forall|j: int| 0 <= j < found implies (#[trigger] after[j]).0 != key by {
            assert(after[j].0 == entries[j].0);
        }
        if found < entries.len() {
            assert(after[found].0 == key);
        }
        lemma_position_of_is(after, key, found);
    } else {
        assert forall|j: int| 0 <= j < entries.len() implies (#[trigger] after[j]) == entries[j] by {}
        if key == point.name {
            assert forall|j: int| 0 <= j < entries.len() implies (#[trigger] after[j]).0 != key by {
                assert(entries[j].0 != key);
            }
            lemma_position_of_is(after, key, entries.len() as int);
            assert(lookup(entries, key).push(point) =~= seq![point]);
        } else if found < entries.len() {
            assert forall|j: int| 0 <= j < found implies (#[trigger] after[j]).0 != key by {
                assert(entries[j].0 != key);
            }
            lemma_position_of_is(after, key, found);
        } else {
            assert forall|j: int| 0 <= j < after.len() implies (#[trigger] after[j]).0 != key by {
                if j < entries.len() {
                    assert(entries[j].0 != key);
                }
            }
            lemma_position_of_is(after, key, after.len() as int);
        }
    }
}

/// Points that are added go behind the points of their series, each in the
/// order in which it came.
pub proof fn lemma_lookup_insert_points(
    entries: Seq<(Seq<char>, Seq<PointView>)>,
    points: Seq<PointView>,
    key: Seq<char>,
)
    ensures
        lookup(insert_points(entries, points), key) == lookup(entries, key) + named(points, key),
    decreases points.len(),
{
    if points.len() == 0 {
        assert(lookup(entries, key) + named(points, key) == lookup(entries, key));
    } else {
        let front = points.drop_last();
        lemma_lookup_insert_points(entries, front, key);
        lemma_lookup_insert_point(insert_points(entries, front), points.last(), key);
        if points.last().name == key {
            assert((lookup(entries, key) + named(front, key)).push(points.last()) == lookup(
                entries,
                key,
            ) + named(front, key).push(points.last()));
        }
    }
}

/// The points of a series after a merge: those that the series held and
/// those that were merged into it, in ascending order of time. Other series
/// keep their points.
pub proof fn lemma_lookup_merge_series(
    right: Seq<(Seq<char>, Seq<PointView>)>,
    name: Seq<char>,
    points: Seq<PointView>,
    key: Seq<char>,
)
    ensures
        lookup(merge_series(right, name, points), key) == if key == name {
            sorted_by_time(lookup(right, name) + points)
        } else {
            lookup(right, key)
        },
{
    lemma_position_of(right, name);
    lemma_position_of(right, key);
    let at = position_of(right, name) as int;
    let found = position_of(right, key) as int;
    let after = merge_series(right, name, points);
    if at < right.len() {
        assert forall|j: int| 0 <= j < found implies (#[trigger] after[j]).0 != key by {
            assert(after[j].0 == right[j].0);
        }
        lemma_position_of_is(after, key, found);
    } else {
        if key == name {
            assert forall|j: int| 0 <= j < right.len() implies (#[trigger] after[j]).0 != key by {
                assert(after[j] == right[j]);
            }
            lemma_position_of_is(after, key, right.len() as int);
            assert(Seq::<PointView>::empty() + points == points);
        } else if found < right.len() {
            assert forall|j: int| 0 <= j < found implies (#[trigger] after[j]).0 != key by {
                assert(after[j] == right[j]);
            }
            lemma_position_of_is(after, key, found);
        } else {
            assert forall|j: int| 0 <= j < after.len() implies (#[trigger] after[j]).0 != key by {
                if j < right.len() {
                    assert(after[j] == right[j]);
                }
            }
            lemma_position_of_is(after, key, after.len() as int);
        }
    }
}

/// Among well-formed series, the last one alone holds the points of its name.
pub proof fn lemma_lookup_last(left: Seq<(Seq<char>, Seq<PointView>)>, key: Seq<char>)
    requires
        entries_wf(left),
        left.len() > 0,
    ensures
        entries_wf(left.drop_last()),
        key == left.last().0 ==> lookup(left, key) == left.last().1 && lookup(
            left.drop_last(),
            key,
        ) == Seq::<PointView>::empty(),
        key != left.last().0 ==> lookup(left, key) == lookup(left.drop_last(), key),
{
    let front = left.drop_last();
    let n = front.len() as int;
    assert forall|i: int| 0 <= i < n implies #[trigger] front[i] == left[i] by {}
    lemma_position_of(front, key);
    let found = position_of(front, key) as int;
    if key == left.last().0 {
        if found < n {
            assert(left[found].0 == left[n].0);
        }
        assert forall|j: int| 0 <= j < n implies (#[trigger] left[j]).0 != key by {}
        lemma_position_of_is(left, key, n);
    } else {
        assert forall|j: int| 0 <= j < found implies (#[trigger] left[j]).0 != key by {
            assert(left[j] == front[j]);
        }
        if found < n {
            lemma_position_of_is(left, key, found);
        } else {
            lemma_position_of_is(left, key, left.len() as int);
        }
    }
}

/// A snapshot loses no point and doubles none: under every name, the merged
/// snapshot tier holds each point as often as the snapshot tier and the
/// active tier held it together. The active tier is empty after the snapshot,
/// so every point is then in the snapshot tier alone.
pub proof fn lemma_snapshot_moves_points(
    snapshot: Seq<(Seq<char>, Seq<PointView>)>,
    active: Seq<(Seq<char>, Seq<PointView>)>,
    name: Seq<char>,
)
    requires
        entries_wf(snapshot),
        entries_wf(active),
    ensures
        entries_wf(merge_entries(snapshot, active)),
        lookup(merge_entries(snapshot, active), name).to_multiset() == lookup(
            snapshot,
            name,
        ).to_multiset().add(lookup(active, name).to_multiset()),
        lookup(active, name).len() > 0 ==> ascending(lookup(merge_entries(snapshot, active), name)),
    decreases active.len(),
{
    if active.len() == 0 {
        lemma_position_of(active, name);
        assert(lookup(active, name) == Seq::<PointView>::empty());
        vstd::seq_lib::lemma_multiset_commutative(lookup(snapshot, name), Seq::<PointView>::empty());
        assert(lookup(snapshot, name) + Seq::<PointView>::empty() == lookup(snapshot, name));
    } else {
        let front = active.drop_last();
        let last = active.last();
        lemma_lookup_last(active, name);
        lemma_snapshot_moves_points(snapshot, front, name);
        let merged = merge_entries(snapshot, front);
        lemma_merge_series_wf(merged, last.0, last.1);
        lemma_lookup_merge_series(merged, last.0, last.1, name);
        if name == last.0 {
            let all = lookup(merged, name) + last.1;
            lemma_sorted_by_time(all);
            vstd::seq_lib::lemma_multiset_commutative(lookup(merged, name), last.1);
            vstd::seq_lib::lemma_multiset_commutative(
                lookup(snapshot, name),
                Seq::<PointView>::empty(),
            );
            assert(lookup(snapshot, name) + Seq::<PointView>::empty() == lookup(snapshot, name));
        }
    }
}

/// What takes points.
pub trait StorageWriter {
    /// The series that `add` writes to.
    spec fn written(&self) -> Seq<(Seq<char>, Seq<PointView>)>;

    spec fn writable(&self) -> bool;

    /// Appends `point` to the series of its name.
    fn add(&mut self, point: DataPoint)
        requires
            old(self).writable(),
        ensures
            final(self).writable(),
            final(self).written() == insert_point(old(self).written(), point@),
    ;

    /// Appends a copy of each of `points`, one by one.
    fn add_bulk(&mut self, points: &[DataPoint])
        requires
            old(self).writable(),
        ensures
            final(self).writable(),
            final(self).written() == insert_points(old(self).written(), views(points@)),
    ;
}

/// What hands out the points of a series.
pub trait StorageReader {
    /// The series that `load` reads.
    spec fn readable(&self) -> Seq<(Seq<char>, Seq<PointView>)>;

    /// The points of the series `metric_name`, by ascending timestamp;
    /// points of one timestamp in the order in which they came.
    fn load(&self, metric_name: &str) -> (points: Vec<&DataPoint>)
        ensures
            ref_views(points@) == sorted_by_time(lookup(self.readable(), metric_name@)),
    ;
}

impl StorageWriter for MetricsData {
    open spec fn written(&self) -> Seq<(Seq<char>, Seq<PointView>)> {
        self.entries()
    }

    open spec fn writable(&self) -> bool {
        self.wf()
    }

    fn add(&mut self, point: DataPoint) {
        MetricsData::add(self, point)
    }

    fn add_bulk(&mut self, points: &[DataPoint]) {
        MetricsData::add_bulk(self, points)
    }
}

impl StorageReader for MetricsData {
    open spec fn readable(&self) -> Seq<(Seq<char>, Seq<PointView>)> {
        self.entries()
    }

    fn load(&self, metric_name: &str) -> (points: Vec<&DataPoint>) {
        MetricsData::load(self, metric_name)
    }
}

impl StorageWriter for MemoryStorage {
    open spec fn written(&self) -> Seq<(Seq<char>, Seq<PointView>)> {
        self.entries()
    }

    open spec fn writable(&self) -> bool {
        self.wf()
    }

    fn add(&mut self, point: DataPoint) {
        MemoryStorage::add(self, point)
    }

    fn add_bulk(&mut self, points: &[DataPoint]) {
        MemoryStorage::add_bulk(self, points)
    }
}

impl StorageWriter for SnaphotableStorage {
    open spec fn written(&self) -> Seq<(Seq<char>, Seq<PointView>)> {
        self.active()
    }

    open spec fn writable(&self) -> bool {
        self.wf()
    }

    fn add(&mut self, point: DataPoint) {
        SnaphotableStorage::add(self, point)
    }

    fn add_bulk(&mut self, points: &[DataPoint]) {
        SnaphotableStorage::add_bulk(self, points)
    }
}

} // verus!
