//! Answers to queries. A `SELECT` reads the series `<from>:<field>` of each
//! selected field from the snapshot and lines their values up by timestamp:
//! a hash map keyed by the timestamp finds the row, and the rows stand in
//! the order in which their timestamps were first met.
//! The values stay 64-bit patterns here; who writes the answer out turns
//! them into text.

use vstd::prelude::*;
use vstd::string::*;
use std::collections::HashMap;
use crate::sql::ast::{
    Condition, FieldProjection, Query, SelectQuery, ShowFieldKeysQuery, ShowMeasurementsQuery,
    ShowTagKeysQuery, ShowTagValuesQuery,
};
use crate::storage::{lookup, ref_views, sorted_by_time, DataPoint, MetricsData, PointView};
use crate::text::str_eq;

verus! {

broadcast use vstd::std_specs::hash::group_hash_axioms;

/// The answer to a request: one entry for each statement.
#[derive(Debug)]
pub struct QueryResult {
    pub results: Vec<StatementSeries>,
}

/// The tables that answer one statement.
#[derive(Debug)]
pub struct StatementSeries {
    pub statement_id: String,
    pub series: Vec<Series>,
}

/// One table of an answer: the column names and the rows under them.
#[derive(Debug)]
pub struct Series {
    pub name: String,
    pub tags: Vec<(String, String)>,
    pub columns: Vec<String>,
    pub values: Vec<Vec<String>>,
}

/// What a table of an answer holds.
pub struct SeriesView {
    pub name: Seq<char>,
    pub tags: Seq<(Seq<char>, Seq<char>)>,
    pub columns: Seq<Seq<char>>,
    pub values: Seq<Seq<Seq<char>>>,
}

impl View for Series {
    type V = SeriesView;

    open spec fn view(&self) -> SeriesView {
        SeriesView {
            name: self.name@,
            tags: text_pairs(self.tags@),
            columns: texts(self.columns@),
            values: self.values@.map_values(|row: Vec<String>| texts(row@)),
        }
    }
}

/// True when the answer has one statement, numbered 0, with the one table
/// `series`.
pub open spec fn answers(result: QueryResult, series: SeriesView) -> bool {
    &&& result.results@.len() == 1
    &&& result.results@[0].statement_id@ == "0"@
    &&& result.results@[0].series@.len() == 1
    &&& result.results@[0].series@[0]@ == series
}

/// The answer to one statement: the table of a selection, or a finished
/// answer.
#[derive(Debug)]
pub enum Answer {
    Selected(SelectTable),
    Listed(QueryResult),
}

/// One value of a row: the bits of a number, or nothing.
#[derive(Clone, Copy, Debug, PartialEq, Eq, Structural)]
pub enum Cell {
    Null,
    Number(u64),
}

/// One row of a selection: a timestamp and a cell for each selected field.
#[derive(Debug, PartialEq)]
pub struct Row {
    pub time: u64,
    pub cells: Vec<Cell>,
}

/// What a row holds.
pub struct RowView {
    pub time: u64,
    pub cells: Seq<Cell>,
}

impl View for Row {
    type V = RowView;

    open spec fn view(&self) -> RowView {
        RowView { time: self.time, cells: self.cells@ }
    }
}

/// What a run of rows holds.
pub open spec fn row_views(rows: Seq<Row>) -> Seq<RowView> {
    rows.map_values(|row: Row| row@)
}

/// The table that a `SELECT` gives: the measurement, the tags of its
/// conditions, the column names, and a row for each timestamp.
#[derive(Debug, PartialEq)]
pub struct SelectTable {
    pub name: String,
    pub tags: Vec<(String, String)>,
    pub columns: Vec<String>,
    pub rows: Vec<Row>,
}

/// The place of the row of `time`, or the number of rows when there is none.
pub open spec fn row_of(rows: Seq<RowView>, time: u64) -> nat
    decreases rows.len(),
{
    if rows.len() == 0 || rows[0].time == time {
        0
    } else {
        1 + row_of(rows.drop_first(), time)
    }
}

/// A row of `width` cells without values.
pub open spec fn blank(time: u64, width: nat) -> RowView {
    RowView { time, cells: Seq::new(width, |i: int| Cell::Null) }
}

/// The rows after `value` was put into `column` of the row of `time`, which
/// is added behind the others if it is not there.
pub open spec fn put_cell(rows: Seq<RowView>, time: u64, column: int, value: u64, width: nat) -> Seq<
    RowView,
> {
    let at = row_of(rows, time) as int;
    let row = if at < rows.len() {
        rows[at]
    } else {
        blank(time, width)
    };
    let filled = RowView { time, cells: row.cells.update(column, Cell::Number(value)) };
    if at < rows.len() {
        rows.update(at, filled)
    } else {
        rows.push(filled)
    }
}

/// The rows after the points of one series were put into `column`, in their
/// order.
pub open spec fn fill_column(rows: Seq<RowView>, points: Seq<PointView>, column: int, width: nat) -> Seq<
    RowView,
>
    decreases points.len(),
{
    if points.len() == 0 {
        rows
    } else {
        put_cell(
            fill_column(rows, points.drop_last(), column, width),
            points.last().timestamp,
            column,
            points.last().value,
            width,
        )
    }
}

/// The series key of a selected field.
pub open spec fn field_key(from: Seq<char>, field: Seq<char>) -> Seq<char> {
    from + ":"@ + field
}

/// The rows of a selection after its first `n` fields were read: for each
/// field, the points of its series by ascending timestamp.
pub open spec fn select_rows(
    entries: Seq<(Seq<char>, Seq<PointView>)>,
    from: Seq<char>,
    fields: Seq<Seq<char>>,
    n: nat,
) -> Seq<RowView>
    decreases n,
{
    if n == 0 {
        Seq::empty()
    } else {
        fill_column(
            select_rows(entries, from, fields, (n - 1) as nat),
            sorted_by_time(lookup(entries, field_key(from, fields[n - 1]))),
            n - 1,
            fields.len(),
        )
    }
}

/// The names of the selected fields.
pub open spec fn field_names(fields: Seq<FieldProjection>) -> Seq<Seq<char>> {
    fields.map_values(|f: FieldProjection| f.field_name@)
}

/// What a run of strings holds.
pub open spec fn texts(strings: Seq<String>) -> Seq<Seq<char>> {
    strings.map_values(|s: String| s@)
}

/// What a run of string pairs holds.
pub open spec fn text_pairs(pairs: Seq<(String, String)>) -> Seq<(Seq<char>, Seq<char>)> {
    pairs.map_values(|p: (String, String)| (p.0@, p.1@))
}

/// The place of the tag `key`, or the number of tags when there is none.
pub open spec fn tag_of(tags: Seq<(Seq<char>, Seq<char>)>, key: Seq<char>) -> nat
    decreases tags.len(),
{
    if tags.len() == 0 || tags[0].0 == key {
        0
    } else {
        1 + tag_of(tags.drop_first(), key)
    }
}

/// The tags of the first `n` conditions: each source with the value of the
/// last condition on it, in the order in which the sources first occur.
pub open spec fn condition_tags(conditions: Seq<Condition>, n: nat) -> Seq<(Seq<char>, Seq<char>)>
    decreases n,
{
    if n == 0 {
        Seq::empty()
    } else {
        let before = condition_tags(conditions, (n - 1) as nat);
        let source = conditions[n - 1].source@;
        let value = conditions[n - 1].value@;
        let at = tag_of(before, source) as int;
        if at < before.len() {
            before.update(at, (source, value))
        } else {
            before.push((source, value))
        }
    }
}

proof fn lemma_row_of(rows: Seq<RowView>, time: u64, i: int)
    requires
        0 <= i <= rows.len(),
        forall|j: int| 0 <= j < i ==> (#[trigger] rows[j]).time != time,
        i < rows.len() ==> rows[i].time == time,
    ensures
        row_of(rows, time) == i,
    decreases rows.len(),
{
    if rows.len() == 0 || rows[0].time == time {
        if i > 0 {
            assert(rows[0].time != time);
        }
    } else {
        let rest = rows.drop_first();
        assert forall|j: int| 0 <= j < i - 1 implies (#[trigger] rest[j]).time != time by {
            assert(rest[j] == rows[j + 1]);
        }
        lemma_row_of(rest, time, i - 1);
    }
}

proof fn lemma_tag_of(tags: Seq<(Seq<char>, Seq<char>)>, key: Seq<char>, i: int)
    requires
        0 <= i <= tags.len(),
        forall|j: int| 0 <= j < i ==> (#[trigger] tags[j]).0 != key,
        i < tags.len() ==> tags[i].0 == key,
    ensures
        tag_of(tags, key) == i,
    decreases tags.len(),
{
    if tags.len() == 0 || tags[0].0 == key {
        if i > 0 {
            assert(tags[0].0 != key);
        }
    } else {
        let rest = tags.drop_first();
        assert forall|j: int| 0 <= j < i - 1 implies (#[trigger] rest[j]).0 != key by {
            assert(rest[j] == tags[j + 1]);
        }
        lemma_tag_of(rest, key, i - 1);
    }
}

/// Every row of the table has as many cells as fields are selected.
pub open spec fn rows_wide(rows: Seq<RowView>, width: nat) -> bool {
    forall|i: int| 0 <= i < rows.len() ==> (#[trigger] rows[i]).cells.len() == width
}

/// The index knows where the row of each timestamp stands: a timestamp has
/// a place in it exactly when it has a row, and the place is that of its
/// row. So no timestamp has two rows.
pub open spec fn indexed(index: Map<u64, usize>, rows: Seq<RowView>) -> bool {
    &&& forall|time: u64| #[trigger]
        index.contains_key(time) ==> index[time] < rows.len() && rows[index[time] as int].time
            == time
    &&& forall|j: int|
        0 <= j < rows.len() ==> index.contains_key((#[trigger] rows[j]).time)
            && index[rows[j].time] == j
}

/// Puts `value` into `column` of the row of `time`, which `index` finds.
fn put(
    rows: &mut Vec<Row>,
    index: &mut HashMap<u64, usize>,
    time: u64,
    column: usize,
    value: u64,
    width: usize,
)
    requires
        column < width,
        rows_wide(row_views(old(rows)@), width as nat),
        indexed(old(index)@, row_views(old(rows)@)),
    ensures
        rows_wide(row_views(final(rows)@), width as nat),
        indexed(final(index)@, row_views(final(rows)@)),
        row_views(final(rows)@) == put_cell(
            row_views(old(rows)@),
            time,
            column as int,
            value,
            width as nat,
        ),
{
    let ghost before = row_views(rows@);
    let ghost places = index@;
    let at: usize = match index.get(&time) {
        Some(place) => *place,
        None => rows.len(),
    };
    proof {
        if places.contains_key(time) {
            assert(at == places[time]);
            assert forall|j: int| 0 <= j < at implies (#[trigger] before[j]).time != time by {
                assert(places[before[j].time] == j);
            }
        } else {
            assert forall|j: int| 0 <= j < at implies (#[trigger] before[j]).time != time by {
                assert(places.contains_key(before[j].time));
            }
        }
        lemma_row_of(before, time, at as int);
    }
    if at < rows.len() {
        let ghost held = rows@;
        rows[at].cells[column] = Cell::Number(value);
        proof {
            assert(rows@.len() == held.len());
            assert(rows@[at as int].time == held[at as int].time);
            assert(rows@[at as int].cells@ == held[at as int].cells@.update(
                column as int,
                Cell::Number(value),
            ));
            assert forall|j: int| 0 <= j < rows@.len() && j != at implies rows@[j] == held[j] by {}
            assert(row_views(rows@) =~= put_cell(before, time, column as int, value, width as nat));
            assert forall|j: int| 0 <= j < rows@.len() implies (#[trigger] row_views(rows@)[j]).time
                == before[j].time by {}
        }
    } else {
        let mut cells: Vec<Cell> = Vec::with_capacity(width);
        let mut k: usize = 0;
        while k < width
            invariant
                k <= width,
                cells@.len() == k,
                forall|j: int| 0 <= j < k ==> cells@[j] == Cell::Null,
            decreases width - k,
        {
            cells.push(Cell::Null);
            k = k + 1;
        }
        assert(cells@ =~= blank(time, width as nat).cells);
        cells[column] = Cell::Number(value);
        rows.push(Row { time, cells });
        let _ = index.insert(time, at);
        proof {
            let after = row_views(rows@);
            assert(after =~= put_cell(before, time, column as int, value, width as nat));
            assert(index@ == places.insert(time, at));
            assert forall|j: int| 0 <= j < after.len() implies index@.contains_key(
                (#[trigger] after[j]).time,
            ) && index@[after[j].time] == j by {
                if j < at {
                    assert(after[j] == before[j]);
                    assert(before[j].time != time);
                }
            }
            assert forall|t: u64| #[trigger] index@.contains_key(t) implies index@[t] < after.len()
                && after[index@[t] as int].time == t by {
                if t != time {
                    assert(places.contains_key(t));
                    assert(after[places[t] as int] == before[places[t] as int]);
                }
            }
        }
    }
}

/// A row of one word.
fn row_of_one(first: &str) -> (row: Vec<String>)
    ensures
        texts(row@) == seq![first@],
{
    let mut row: Vec<String> = Vec::new();
    row.push(String::from_str(first));
    assert(texts(row@) =~= seq![first@]);
    row
}

/// A row of two words.
fn row_of_two(first: &str, second: &str) -> (row: Vec<String>)
    ensures
        texts(row@) == seq![first@, second@],
{
    let mut row: Vec<String> = Vec::new();
    row.push(String::from_str(first));
    row.push(String::from_str(second));
    assert(texts(row@) =~= seq![first@, second@]);
    row
}

/// The answer of one statement with one table without tags.
fn single(name: &str, columns: Vec<String>, values: Vec<Vec<String>>) -> (result: QueryResult)
    ensures
        answers(
            result,
            SeriesView {
                name: name@,
                tags: Seq::empty(),
                columns: texts(columns@),
                values: values@.map_values(|row: Vec<String>| texts(row@)),
            },
        ),
{
    let series = Series { name: String::from_str(name), tags: Vec::new(), columns, values };
    assert(text_pairs(series.tags@) =~= Seq::empty());
    let mut tables: Vec<Series> = Vec::new();
    tables.push(series);
    let mut results: Vec<StatementSeries> = Vec::new();
    results.push(StatementSeries { statement_id: String::from_str("0"), series: tables });
    QueryResult { results }
}

/// Answers queries from a snapshot.
pub struct QueryEngine {}

impl QueryEngine {
    /// An engine; it holds nothing, the snapshot comes with each query.
    pub fn new() -> (engine: Self) {
        QueryEngine {  }
    }

    /// The tag keys: a fixed answer.
    pub fn tag_keys_query(&self, query: ShowTagKeysQuery) -> (result: QueryResult)
        ensures
            answers(
                result,
                SeriesView {
                    name: "logins.count"@,
                    tags: Seq::empty(),
                    columns: seq!["tagKey"@],
                    values: seq![seq!["datacenter"@], seq!["hostname"@], seq!["source"@]],
                },
            ),
    {
        let mut values: Vec<Vec<String>> = Vec::new();
        values.push(row_of_one("datacenter"));
        values.push(row_of_one("hostname"));
        values.push(row_of_one("source"));
        let result = single("logins.count", row_of_one("tagKey"), values);
        assert(result.results@[0].series@[0]@.values =~= seq![
            seq!["datacenter"@],
            seq!["hostname"@],
            seq!["source"@],
        ]);
        result
    }

    /// The tag values: a fixed answer.
    pub fn tag_values_query(&self, query: ShowTagValuesQuery) -> (result: QueryResult)
        ensures
            answers(
                result,
                SeriesView {
                    name: "logins.count"@,
                    tags: Seq::empty(),
                    columns: seq!["key"@, "value"@],
                    values: seq![seq!["datacenter"@, "america"@]],
                },
            ),
    {
        let mut values: Vec<Vec<String>> = Vec::new();
        values.push(row_of_two("datacenter", "america"));
        let result = single("logins.count", row_of_two("key", "value"), values);
        assert(result.results@[0].series@[0]@.values =~= seq![seq!["datacenter"@, "america"@]]);
        result
    }

    /// The field keys: a fixed answer.
    pub fn field_keys_query(&self, query: ShowFieldKeysQuery) -> (result: QueryResult)
        ensures
            answers(
                result,
                SeriesView {
                    name: "logins.count"@,
                    tags: Seq::empty(),
                    columns: seq!["fieldKey"@, "fieldType"@],
                    values: seq![seq!["value"@, "float"@]],
                },
            ),
    {
        let mut values: Vec<Vec<String>> = Vec::new();
        values.push(row_of_two("value", "float"));
        let result = single("logins.count", row_of_two("fieldKey", "fieldType"), values);
        assert(result.results@[0].series@[0]@.values =~= seq![seq!["value"@, "float"@]]);
        result
    }

    /// The measurements: a fixed answer.
    pub fn measurements_query(&self, query: ShowMeasurementsQuery) -> (result: QueryResult)
        ensures
            answers(
                result,
                SeriesView {
                    name: "measurements"@,
                    tags: Seq::empty(),
                    columns: seq!["name"@],
                    values: seq![
                        seq!["cpu"@],
                        seq!["logins.count"@],
                        seq!["payment.ended"@],
                        seq!["payment.started"@],
                    ],
                },
            ),
    {
        let mut values: Vec<Vec<String>> = Vec::new();
        values.push(row_of_one("cpu"));
        values.push(row_of_one("logins.count"));
        values.push(row_of_one("payment.ended"));
        values.push(row_of_one("payment.started"));
        let result = single("measurements", row_of_one("name"), values);
        assert(result.results@[0].series@[0]@.values =~= seq![
            seq!["cpu"@],
            seq!["logins.count"@],
            seq!["payment.ended"@],
            seq!["payment.started"@],
        ]);
        result
    }

    /// Answers one statement from the snapshot.
    pub fn run_query(&self, snapshot: &MetricsData, query: Query) -> (answer: Answer)
        ensures
            match query {
                Query::Select(select) => answer matches Answer::Selected(table) && {
                    &&& table.name@ == select.from@
                    &&& texts(table.columns@) == seq!["time"@] + field_names(select.fields@)
                    &&& text_pairs(table.tags@) == condition_tags(
                        select.where_constraints@,
                        select.where_constraints@.len(),
                    )
                    &&& row_views(table.rows@) == select_rows(
                        snapshot.entries(),
                        select.from@,
                        field_names(select.fields@),
                        select.fields@.len(),
                    )
                },
                _ => answer is Listed,
            },
    {
        match query {
            Query::Select(query) => Answer::Selected(self.select_query(snapshot, query)),
            Query::TagKeys(query) => Answer::Listed(self.tag_keys_query(query)),
            Query::TagValues(query) => Answer::Listed(self.tag_values_query(query)),
            Query::FieldKeys(query) => Answer::Listed(self.field_keys_query(query)),
            Query::Measurements(query) => Answer::Listed(self.measurements_query(query)),
        }
    }

    /// The table of a `SELECT`: a row for each timestamp at which one of the
    /// selected fields has a point, in the order in which the timestamps are
    /// first met; in each row the value of each field at that timestamp, the
    /// last one where a field has several. The tags are those of the
    /// conditions; the columns are `time` and the field names.
    pub fn select_query(&self, snapshot: &MetricsData, query: SelectQuery) -> (table: SelectTable)
        ensures
            table.name@ == query.from@,
            texts(table.columns@) == seq!["time"@] + field_names(query.fields@),
            text_pairs(table.tags@) == condition_tags(
                query.where_constraints@,
                query.where_constraints@.len(),
            ),
            row_views(table.rows@) == select_rows(
                snapshot.entries(),
                query.from@,
                field_names(query.fields@),
                query.fields@.len(),
            ),
    {
        let columns: usize = query.fields.len();
        let ghost names = field_names(query.fields@);
        let mut rows: Vec<Row> = Vec::new();
        let mut table: HashMap<u64, usize> = HashMap::new();
        let mut field_idx: usize = 0;
        assert(row_views(rows@) =~= Seq::empty());
        while field_idx < columns
            invariant
                field_idx <= columns == query.fields@.len(),
                names == field_names(query.fields@),
                rows_wide(row_views(rows@), columns as nat),
                indexed(table@, row_views(rows@)),
                row_views(rows@) == select_rows(
                    snapshot.entries(),
                    query.from@,
                    names,
                    field_idx as nat,
                ),
            decreases columns - field_idx,
        {
            let mut metric_name: String = query.from.clone();
            metric_name.append(":");
            metric_name.append(query.fields[field_idx].field_name.as_str());
            let points: Vec<&DataPoint> = snapshot.load(metric_name.as_str());
            let ghost series = ref_views(points@);
            let ghost start = row_views(rows@);
            let mut k: usize = 0;
            assert(series.take(0) =~= Seq::empty());
            while k < points.len()
                invariant
                    k <= points@.len(),
                    field_idx < columns,
                    series == ref_views(points@),
                    rows_wide(row_views(rows@), columns as nat),
                    indexed(table@, row_views(rows@)),
                    row_views(rows@) == fill_column(
                        start,
                        series.take(k as int),
                        field_idx as int,
                        columns as nat,
                    ),
                decreases points@.len() - k,
            {
                proof {
                    assert(series.take(k + 1).drop_last() == series.take(k as int));
                    assert(series.take(k + 1).last() == points@[k as int]@);
                }
                put(
                    &mut rows,
                    &mut table,
                    points[k].timestamp,
                    field_idx,
                    points[k].value,
                    columns,
                );
                k = k + 1;
            }
            proof {
                assert(series.take(points@.len() as int) == series);
            }
            field_idx = field_idx + 1;
        }
        let mut tags: Vec<(String, String)> = Vec::new();
        let mut c: usize = 0;
        assert(text_pairs(tags@) =~= Seq::empty());
        while c < query.where_constraints.len()
            invariant
                c <= query.where_constraints@.len(),
                text_pairs(tags@) == condition_tags(query.where_constraints@, c as nat),
            decreases query.where_constraints@.len() - c,
        {
            let source: &String = &query.where_constraints[c].source;
            let value: String = query.where_constraints[c].value.clone();
            let ghost before = text_pairs(tags@);
            let mut at: usize = 0;
            while at < tags.len() && !str_eq(tags[at].0.as_str(), source.as_str())
                invariant
                    at <= tags@.len(),
                    before == text_pairs(tags@),
                    forall|j: int| 0 <= j < at ==> (#[trigger] before[j]).0 != source@,
                decreases tags@.len() - at,
            {
                at = at + 1;
            }
            proof {
                lemma_tag_of(before, source@, at as int);
            }
            if at < tags.len() {
                tags[at] = (source.clone(), value);
                assert(text_pairs(tags@) =~= before.update(at as int, (source@, value@)));
            } else {
                tags.push((source.clone(), value));
                assert(text_pairs(tags@) =~= before.push((source@, value@)));
            }
            c = c + 1;
        }
        let mut columns_def: Vec<String> = Vec::new();
        columns_def.push(String::from_str("time"));
        let mut f: usize = 0;
        assert(texts(columns_def@) =~= seq!["time"@] + names.take(0));
        while f < columns
            invariant
                f <= columns == query.fields@.len(),
                names == field_names(query.fields@),
                texts(columns_def@) == seq!["time"@] + names.take(f as int),
            decreases columns - f,
        {
            let ghost held = columns_def@;
            columns_def.push(query.fields[f].field_name.clone());
            proof {
                assert(names[f as int] == query.fields@[f as int].field_name@);
                assert(names.take(f + 1) =~= names.take(f as int).push(names[f as int]));
                assert(texts(columns_def@) =~= texts(held).push(names[f as int]));
                assert(texts(columns_def@) =~= seq!["time"@] + names.take(f + 1));
            }
            f = f + 1;
        }
        proof {
            assert(names.take(columns as int) == names);
        }
        SelectTable { name: query.from, tags, columns: columns_def, rows }
    }
}

} // verus!
