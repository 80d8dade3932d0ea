//! Queries over datasets: a filter condition, a grouping column and an
//! aggregation.

use vstd::prelude::*;
use crate::dataset::Value;

verus! {

/// A predicate on rows.
#[derive(Debug)]
pub enum Condition {
    /// The named column holds the given value.
    Equal(String, Value),
    Not(Box<Condition>),
    And(Box<Condition>, Box<Condition>),
    Or(Box<Condition>, Box<Condition>),
}

/// An aggregation over the rows of a group, naming the column it reads.
#[derive(Debug)]
pub enum Aggregation {
    Count(String),
    Sum(String),
    Average(String),
}

/// The name of the column an aggregation reads.
pub open spec fn aggregated_column(a: Aggregation) -> Seq<char> {
    match a {
        Aggregation::Count(c) => c@,
        Aggregation::Sum(c) => c@,
        Aggregation::Average(c) => c@,
    }
}

/// The name of the column that holds an aggregation's result:
/// `Count(c)`, `Sum(c)` or `Average(c)`.
pub open spec fn result_column_name(a: Aggregation) -> Seq<char> {
    match a {
        Aggregation::Count(c) => seq!['C', 'o', 'u', 'n', 't', '('] + c@ + seq![')'],
        Aggregation::Sum(c) => seq!['S', 'u', 'm', '('] + c@ + seq![')'],
        Aggregation::Average(c) => seq!['A', 'v', 'e', 'r', 'a', 'g', 'e', '('] + c@ + seq![')'],
    }
}

impl Aggregation {
    /// The name of the column that holds this aggregation's result.
    pub fn get_result_column_name(&self) -> (name: String)
        ensures
            name@ == result_column_name(*self),
    {
        let (mut name, column) = match self {
            Aggregation::Count(c) => (String::from_str("Count("), c),
            Aggregation::Sum(c) => (String::from_str("Sum("), c),
            Aggregation::Average(c) => (String::from_str("Average("), c),
        };
        proof {
            reveal_strlit("Count(");
            reveal_strlit("Sum(");
            reveal_strlit("Average(");
            reveal_strlit(")");
        }
        name.append(column.as_str());
        name.append(")");
        proof {
            match self {
                Aggregation::Count(c) => {
                    assert(name@ =~= result_column_name(*self));
                },
                Aggregation::Sum(c) => {
                    assert(name@ =~= result_column_name(*self));
                },
                Aggregation::Average(c) => {
                    assert(name@ =~= result_column_name(*self));
                },
            }
        }
        name
    }
}

/// A query: keep the rows that satisfy `filter`, group them by the values of
/// the `group_by` column, and aggregate each group.
#[derive(Debug)]
pub struct Query {
    filter: Condition,
    group_by: String,
    aggregate: Aggregation,
}

impl Query {
    pub fn new(filter: Condition, group_by: String, aggregate: Aggregation) -> (q: Query)
        ensures
            q.filter_spec() == filter,
            q.group_by_spec() == group_by,
            q.aggregate_spec() == aggregate,
    {
        Query { filter, group_by, aggregate }
    }

    pub closed spec fn filter_spec(&self) -> Condition {
        self.filter
    }

    pub closed spec fn group_by_spec(&self) -> String {
        self.group_by
    }

    pub closed spec fn aggregate_spec(&self) -> Aggregation {
        self.aggregate
    }

    pub fn get_filter(&self) -> (c: &Condition)
        ensures
            *c == self.filter_spec(),
    {
        &self.filter
    }

    pub fn get_group_by(&self) -> (g: &String)
        ensures
            *g == self.group_by_spec(),
    {
        &self.group_by
    }

    pub fn get_aggregate(&self) -> (a: &Aggregation)
        ensures
            *a == self.aggregate_spec(),
    {
        &self.aggregate
    }
}

} // verus!
