use tiempodb::sql::ast::{OrderDirection, SelectQuery};
use tiempodb::sql::query_engine::{Answer, Cell, QueryEngine, Row, SelectTable};
use tiempodb::storage::{DataPoint, MetricsData};
use tiempodb::sql::ast::{
    ComparisonType, Condition, FieldProjection, Fill, GroupBy, Query, SelectionType,
    ShowMeasurementsQuery, Time,
};

#[test]
fn projections_name_their_reduction() {
    assert_eq!(
        FieldProjection::simple("field_a"),
        FieldProjection {
            field_name: "field_a".to_string(),
            selection_type: SelectionType::Identity
        }
    );
    assert_eq!(
        FieldProjection::max("field_b").selection_type,
        SelectionType::Max
    );
    assert_eq!(
        FieldProjection::mean("value"),
        FieldProjection {
            field_name: "value".to_string(),
            selection_type: SelectionType::Mean
        }
    );
}

#[test]
fn conditions_keep_their_parts() {
    let condition = Condition::new(
        "hostname".to_string(),
        ComparisonType::NotEq,
        "server1".to_string(),
    );
    assert_eq!(condition.source, "hostname");
    assert_eq!(condition.comparison, ComparisonType::NotEq);
    assert_eq!(condition.value, "server1");
}

#[test]
fn group_by_defaults_to_no_fill() {
    assert_eq!(
        GroupBy::default(),
        GroupBy {
            by_time: None,
            by_field: None,
            fill: Fill::NoFill
        }
    );
    assert_eq!(Fill::default(), Fill::NoFill);
}

#[test]
fn time_is_written_with_its_unit() {
    assert_eq!("5ns", Time::NanoSeconds(5).to_string());
    assert_eq!("0micros", Time::MicroSeconds(0).to_string());
    assert_eq!("12ms", Time::MilliSeconds(12).to_string());
    assert_eq!("5s", Time::Seconds(5).to_string());
    assert_eq!("1m", Time::Minutes(1).to_string());
    assert_eq!("24h", Time::Hours(24).to_string());
    assert_eq!("18446744073709551615d", Time::Days(u64::MAX).to_string());
}

#[test]
fn a_query_is_of_one_kind() {
    let query = Query::Measurements(ShowMeasurementsQuery {
        where_constraints: vec![],
        limit: 100,
    });
    if let Query::Measurements(q) = query {
        assert_eq!(q.limit, 100);
    } else {
        panic!("Should be recognised as show measurements");
    }
}


fn select(from: &str, fields: Vec<FieldProjection>, conditions: Vec<Condition>) -> SelectQuery {
    SelectQuery {
        from: from.to_string(),
        fields,
        group_by: GroupBy::default(),
        where_constraints: conditions,
        order_by_time: OrderDirection::Asc,
        limit: None,
        slimit: None,
    }
}

fn written(table: &SelectTable) -> Vec<Vec<String>> {
    table
        .rows
        .iter()
        .map(|row| {
            let mut cells = vec![row.time.to_string()];
            cells.extend(row.cells.iter().map(|cell| match cell {
                Cell::Null => "null".to_string(),
                Cell::Number(bits) => f64::from_bits(*bits).to_string(),
            }));
            cells
        })
        .collect()
}

#[test]
fn basic_select_query() {
    let mut snapshot = MetricsData::new();
    snapshot.add_bulk(&vec![
        DataPoint::new("table1:metric1".to_string().into(), 100u64, 10f64.to_bits()),
        DataPoint::new("table1:metric1".to_string().into(), 101u64, 12f64.to_bits()),
    ]);

    let engine = QueryEngine::new();

    let answer = engine.run_query(
        &snapshot,
        Query::Select(select(
            "table1",
            vec![
                FieldProjection::simple("metric1"),
                FieldProjection::simple("metric2"),
            ],
            vec![Condition::new(
                "host".to_string(),
                ComparisonType::Eq,
                "localhost".to_string(),
            )],
        )),
    );
    let metrics = match answer {
        Answer::Selected(table) => table,
        Answer::Listed(_) => panic!("a selection gives a table"),
    };

    assert_eq!(metrics.name, "table1");
    assert_eq!(metrics.columns, vec!("time", "metric1", "metric2"));
    let mut values = written(&metrics);
    values.sort_by_key(|v| v[0].parse::<u64>().unwrap());
    assert_eq!(
        values,
        vec![vec!["100", "10", "null"], vec!["101", "12", "null"]]
    );
    assert_eq!(
        metrics.tags,
        vec![("host".to_string(), "localhost".to_string())]
    );
}

#[test]
fn a_selection_lines_the_fields_up_by_time() {
    let mut snapshot = MetricsData::new();
    snapshot.add(DataPoint::new("t:a".to_string().into(), 20, 1));
    snapshot.add(DataPoint::new("t:a".to_string().into(), 10, 2));
    snapshot.add(DataPoint::new("t:b".to_string().into(), 20, 3));
    snapshot.add(DataPoint::new("t:b".to_string().into(), 30, 4));
    snapshot.add(DataPoint::new("t:b".to_string().into(), 30, 5));
    snapshot.add(DataPoint::new("other:a".to_string().into(), 10, 6));

    let table = QueryEngine::new().select_query(
        &snapshot,
        select(
            "t",
            vec![FieldProjection::mean("a"), FieldProjection::max("b")],
            vec![
                Condition::new("h".to_string(), ComparisonType::Eq, "1".to_string()),
                Condition::new("d".to_string(), ComparisonType::Like, "x".to_string()),
                Condition::new("h".to_string(), ComparisonType::Eq, "2".to_string()),
            ],
        ),
    );
    assert_eq!(
        table.rows,
        vec![
            Row {
                time: 10,
                cells: vec![Cell::Number(2), Cell::Null]
            },
            Row {
                time: 20,
                cells: vec![Cell::Number(1), Cell::Number(3)]
            },
            Row {
                time: 30,
                cells: vec![Cell::Null, Cell::Number(5)]
            },
        ]
    );
    assert_eq!(
        table.tags,
        vec![
            ("h".to_string(), "2".to_string()),
            ("d".to_string(), "x".to_string())
        ]
    );
    assert_eq!(table.columns, vec!["time", "a", "b"]);
}

#[test]
fn the_listing_statements_have_fixed_answers() {
    let engine = QueryEngine::new();
    let snapshot = MetricsData::new();
    let answer = engine.run_query(
        &snapshot,
        Query::Measurements(ShowMeasurementsQuery {
            where_constraints: vec![],
            limit: 100,
        }),
    );
    let result = match answer {
        Answer::Listed(result) => result,
        Answer::Selected(_) => panic!("a listing gives an answer"),
    };
    assert_eq!(1, result.results.len());
    assert_eq!("0", result.results[0].statement_id);
    assert_eq!(1, result.results[0].series.len());
    let series = &result.results[0].series[0];
    assert_eq!("measurements", series.name);
    assert_eq!(series.columns, vec!["name"]);
    assert_eq!(
        series.values,
        vec![
            vec!["cpu"],
            vec!["logins.count"],
            vec!["payment.ended"],
            vec!["payment.started"]
        ]
    );
    assert!(series.tags.is_empty());
}
