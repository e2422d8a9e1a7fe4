//! The syntax tree of the query statements.

use vstd::prelude::*;
use vstd::string::*;
use crate::text::{decimal, decimal_string};

verus! {

/// How the values of one field are reduced to the values that are shown.
#[derive(Debug, PartialEq)]
pub enum SelectionType {
    Bottom,
    First,
    Last,
    Max,
    Min,
    Percentile(u8),
    Count,
    Distinct,
    Integral,
    Mean,
    Median,
    Mod,
    Sum,
    Identity,
}

/// The order of the rows by time.
#[derive(Debug)]
pub enum OrderDirection {
    Asc,
    Desc,
}

/// One selected field and the reduction applied to it.
#[derive(Debug, PartialEq)]
pub struct FieldProjection {
    pub field_name: String,
    pub selection_type: SelectionType,
}

impl FieldProjection {
    /// The field as it is stored.
    pub fn simple(field_name: &str) -> (projection: Self)
        ensures
            projection.field_name@ == field_name@,
            projection.selection_type == SelectionType::Identity,
    {
        FieldProjection {
            field_name: String::from_str(field_name),
            selection_type: SelectionType::Identity,
        }
    }

    /// The largest value of the field.
    pub fn max(field_name: &str) -> (projection: Self)
        ensures
            projection.field_name@ == field_name@,
            projection.selection_type == SelectionType::Max,
    {
        FieldProjection {
            field_name: String::from_str(field_name),
            selection_type: SelectionType::Max,
        }
    }

    /// The mean of the field's values.
    pub fn mean(field_name: &str) -> (projection: Self)
        ensures
            projection.field_name@ == field_name@,
            projection.selection_type == SelectionType::Mean,
    {
        FieldProjection {
            field_name: String::from_str(field_name),
            selection_type: SelectionType::Mean,
        }
    }
}

/// How a condition compares its source with its value.
#[derive(Debug, PartialEq)]
pub enum ComparisonType {
    Eq,
    NotEq,
    Gt,
    Gte,
    Lt,
    Lte,
    Like,
    NotLike,
}

/// A span of time in one unit.
#[derive(Debug, PartialEq)]
pub enum Time {
    NanoSeconds(u64),
    MicroSeconds(u64),
    MilliSeconds(u64),
    Seconds(u64),
    Minutes(u64),
    Hours(u64),
    Days(u64),
}

impl Time {
    /// The number of units.
    pub open spec fn amount(&self) -> u64 {
        match self {
            Time::NanoSeconds(value) => *value,
            Time::MicroSeconds(value) => *value,
            Time::MilliSeconds(value) => *value,
            Time::Seconds(value) => *value,
            Time::Minutes(value) => *value,
            Time::Hours(value) => *value,
            Time::Days(value) => *value,
        }
    }

    /// The letters that name the unit.
    pub open spec fn unit(&self) -> Seq<char> {
        match self {
            Time::NanoSeconds(_) => "ns"@,
            Time::MicroSeconds(_) => "micros"@,
            Time::MilliSeconds(_) => "ms"@,
            Time::Seconds(_) => "s"@,
            Time::Minutes(_) => "m"@,
            Time::Hours(_) => "h"@,
            Time::Days(_) => "d"@,
        }
    }

    /// The span as a query writes it: the number, then the unit.
    pub fn to_string(&self) -> (text: String)
        ensures
            text@ == decimal(self.amount() as nat) + self.unit(),
    {
        match self {
            Time::NanoSeconds(value) => {
                let mut text: String = decimal_string(*value);
                text.append("ns");
                text
            },
            Time::MicroSeconds(value) => {
                let mut text: String = decimal_string(*value);
                text.append("micros");
                text
            },
            Time::MilliSeconds(value) => {
                let mut text: String = decimal_string(*value);
                text.append("ms");
                text
            },
            Time::Seconds(value) => {
                let mut text: String = decimal_string(*value);
                text.append("s");
                text
            },
            Time::Minutes(value) => {
                let mut text: String = decimal_string(*value);
                text.append("m");
                text
            },
            Time::Hours(value) => {
                let mut text: String = decimal_string(*value);
                text.append("h");
                text
            },
            Time::Days(value) => {
                let mut text: String = decimal_string(*value);
                text.append("d");
                text
            },
        }
    }
}

/// What stands in for a group without values.
#[derive(Debug, PartialEq)]
pub enum Fill {
    Linear,
    NoFill,
    Null,
    Previous,
}

impl Default for Fill {
    fn default() -> (fill: Self)
        ensures
            fill == Fill::NoFill,
    {
        Fill::NoFill
    }
}

/// The grouping of a selection: by spans of time, by a field, and the fill of empty groups.
#[derive(Debug, PartialEq)]
pub struct GroupBy {
    pub by_time: Option<Time>,
    pub by_field: Option<String>,
    pub fill: Fill,
}

impl Default for GroupBy {
    fn default() -> (group: Self)
        ensures
            group.by_time is None,
            group.by_field is None,
            group.fill == Fill::NoFill,
    {
        GroupBy { by_time: None, by_field: None, fill: Fill::NoFill }
    }
}

/// One comparison of a `WHERE` clause.
#[derive(Debug, PartialEq)]
pub struct Condition {
    pub source: String,
    pub comparison: ComparisonType,
    pub value: String,
}

impl Condition {
    /// The condition that compares `source` with `value`.
    pub fn new(source: String, comparison: ComparisonType, value: String) -> (condition: Self)
        ensures
            condition.source == source,
            condition.comparison == comparison,
            condition.value == value,
    {
        Condition { source, comparison, value }
    }
}

/// A `SELECT` statement.
#[derive(Debug)]
pub struct SelectQuery {
    pub from: String,
    pub fields: Vec<FieldProjection>,
    pub group_by: GroupBy,
    pub where_constraints: Vec<Condition>,
    pub order_by_time: OrderDirection,
    pub limit: Option<u32>,
    pub slimit: Option<u32>,
}

/// A `SHOW FIELD KEYS` statement.
#[derive(Debug, PartialEq)]
pub struct ShowFieldKeysQuery {
    pub from: String,
}

/// A `SHOW MEASUREMENTS` statement.
#[derive(Debug, PartialEq)]
pub struct ShowMeasurementsQuery {
    pub where_constraints: Vec<Condition>,
    pub limit: u32,
}

/// A `SHOW TAG KEYS` statement.
#[derive(Debug, PartialEq)]
pub struct ShowTagKeysQuery {
    pub from: String,
    pub where_constraints: Vec<Condition>,
}

/// A `SHOW TAG VALUES` statement.
#[derive(Debug, PartialEq)]
pub struct ShowTagValuesQuery {
    pub from: String,
    pub key: String,
    pub where_constraints: Vec<Condition>,
}

/// A statement of any of the kinds.
#[derive(Debug)]
pub enum Query {
    Select(SelectQuery),
    TagKeys(ShowTagKeysQuery),
    TagValues(ShowTagValuesQuery),
    FieldKeys(ShowFieldKeysQuery),
    Measurements(ShowMeasurementsQuery),
}

} // verus!
