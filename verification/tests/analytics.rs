use coursework::analytics::{
    aggregate_dataset, compute_query_on_dataset, condition_check, filter_dataset, group_by_dataset,
};
use coursework::dataset::{ColumnType, Dataset, Row, Value};
use coursework::query::{Aggregation, Condition, Query};

fn s(x: &str) -> Value {
    Value::String(x.to_string())
}

fn i(x: i32) -> Value {
    Value::Integer(x)
}

fn people() -> Dataset {
    let mut d = Dataset::new(vec![
        ("name".to_string(), ColumnType::String),
        ("city".to_string(), ColumnType::String),
        ("age".to_string(), ColumnType::Integer),
    ]);
    d.add_row(Row::new(vec![s("ann"), s("boston"), i(30)]));
    d.add_row(Row::new(vec![s("bob"), s("denver"), i(25)]));
    d.add_row(Row::new(vec![s("cat"), s("boston"), i(41)]));
    d.add_row(Row::new(vec![s("dan"), s("austin"), i(-7)]));
    d.add_row(Row::new(vec![s("eve"), s("denver"), i(2)]));
    d
}

fn names(d: &Dataset) -> Vec<Value> {
    d.rows().iter().map(|r| r.get_value(0).clone()).collect()
}

fn in_city(c: &str) -> Condition {
    Condition::Equal("city".to_string(), s(c))
}

#[test]
fn filter_keeps_matching_rows_in_order() {
    let d = people();
    let f = filter_dataset(&d, &in_city("boston"));
    assert_eq!(names(&f), vec![s("ann"), s("cat")]);
    assert_eq!(f.columns(), d.columns());
}

#[test]
fn filter_with_not_and_or() {
    let d = people();
    let not_boston = Condition::Not(Box::new(in_city("boston")));
    assert_eq!(names(&filter_dataset(&d, &not_boston)), vec![s("bob"), s("dan"), s("eve")]);
    let either = Condition::Or(Box::new(in_city("austin")), Box::new(in_city("denver")));
    assert_eq!(names(&filter_dataset(&d, &either)), vec![s("bob"), s("dan"), s("eve")]);
    let both = Condition::And(
        Box::new(in_city("denver")),
        Box::new(Condition::Equal("age".to_string(), i(2))),
    );
    assert_eq!(names(&filter_dataset(&d, &both)), vec![s("eve")]);
}

#[test]
fn filter_twice_is_filter_and() {
    let d = people();
    let a = Condition::Not(Box::new(in_city("austin")));
    let b = Condition::Or(Box::new(in_city("boston")), Box::new(Condition::Equal("age".to_string(), i(2))));
    let twice = filter_dataset(&filter_dataset(&d, &a), &b);
    let a2 = Condition::Not(Box::new(in_city("austin")));
    let b2 = Condition::Or(Box::new(in_city("boston")), Box::new(Condition::Equal("age".to_string(), i(2))));
    let once = filter_dataset(&d, &Condition::And(Box::new(a2), Box::new(b2)));
    assert_eq!(names(&twice), names(&once));
    assert_eq!(names(&once), vec![s("ann"), s("cat"), s("eve")]);
}

#[test]
fn filter_and_its_negation_split_the_rows() {
    let d = people();
    let c = in_city("denver");
    let kept = filter_dataset(&d, &c).len();
    let rest = filter_dataset(&d, &Condition::Not(Box::new(in_city("denver")))).len();
    assert_eq!(kept + rest, d.len());
    assert_eq!(kept, 2);
}

#[test]
fn filter_on_a_type_mismatch_keeps_nothing() {
    let d = people();
    let f = filter_dataset(&d, &Condition::Equal("age".to_string(), s("30")));
    assert_eq!(f.len(), 0);
}

#[test]
fn condition_check_reads_the_named_column() {
    let d = people();
    let row = &d.rows()[2];
    assert!(condition_check(row, &d, &in_city("boston")));
    assert!(!condition_check(row, &d, &in_city("denver")));
}

#[test]
fn column_index_finds_the_first_column_of_that_name() {
    let d = Dataset::new(vec![
        ("a".to_string(), ColumnType::Integer),
        ("b".to_string(), ColumnType::String),
        ("a".to_string(), ColumnType::String),
    ]);
    assert_eq!(d.column_index(&"a".to_string()), 0);
    assert_eq!(d.column_index(&"b".to_string()), 1);
    assert_eq!(*d.column_type(&"a".to_string()), ColumnType::Integer);
}

#[test]
fn group_by_keeps_first_occurrence_order() {
    let groups = group_by_dataset(people(), &"city".to_string());
    let keys: Vec<Value> = groups.iter().map(|g| g.0.clone()).collect();
    assert_eq!(keys, vec![s("boston"), s("denver"), s("austin")]);
    assert_eq!(names(&groups[0].1), vec![s("ann"), s("cat")]);
    assert_eq!(names(&groups[1].1), vec![s("bob"), s("eve")]);
    assert_eq!(names(&groups[2].1), vec![s("dan")]);
    let total: usize = groups.iter().map(|g| g.1.len()).sum();
    assert_eq!(total, 5);
}

#[test]
fn group_by_an_empty_dataset_gives_no_group() {
    let d = Dataset::new(vec![("city".to_string(), ColumnType::String)]);
    assert!(group_by_dataset(d, &"city".to_string()).is_empty());
}

#[test]
fn aggregates_count_sum_and_average() {
    let groups = group_by_dataset(people(), &"city".to_string());
    let counts = aggregate_dataset(group_by_dataset(people(), &"city".to_string()), &Aggregation::Count("age".to_string()));
    assert_eq!(counts, vec![(s("boston"), i(2)), (s("denver"), i(2)), (s("austin"), i(1))]);
    let sums = aggregate_dataset(group_by_dataset(people(), &"city".to_string()), &Aggregation::Sum("age".to_string()));
    assert_eq!(sums, vec![(s("boston"), i(71)), (s("denver"), i(27)), (s("austin"), i(-7))]);
    let averages = aggregate_dataset(groups, &Aggregation::Average("age".to_string()));
    assert_eq!(averages, vec![(s("boston"), i(35)), (s("denver"), i(13)), (s("austin"), i(-7))]);
}

#[test]
fn average_rounds_toward_zero() {
    let mut d = Dataset::new(vec![("k".to_string(), ColumnType::String), ("v".to_string(), ColumnType::Integer)]);
    d.add_row(Row::new(vec![s("x"), i(-7)]));
    d.add_row(Row::new(vec![s("x"), i(2)]));
    let avg = aggregate_dataset(group_by_dataset(d, &"k".to_string()), &Aggregation::Average("v".to_string()));
    assert_eq!(avg, vec![(s("x"), i(-2))]);
}

#[test]
fn result_column_names() {
    assert_eq!(Aggregation::Count("age".to_string()).get_result_column_name(), "Count(age)");
    assert_eq!(Aggregation::Sum("age".to_string()).get_result_column_name(), "Sum(age)");
    assert_eq!(Aggregation::Average("x".to_string()).get_result_column_name(), "Average(x)");
}

#[test]
fn query_counts_per_city() {
    let d = people();
    let q = Query::new(
        Condition::Not(Box::new(Condition::Equal("name".to_string(), s("bob")))),
        "city".to_string(),
        Aggregation::Count("name".to_string()),
    );
    let r = compute_query_on_dataset(&d, &q);
    assert_eq!(
        r.columns(),
        &vec![("city".to_string(), ColumnType::String), ("Count(name)".to_string(), ColumnType::Integer)]
    );
    let rows: Vec<(Value, Value)> =
        r.rows().iter().map(|row| (row.get_value(0).clone(), row.get_value(1).clone())).collect();
    assert_eq!(rows, vec![(s("boston"), i(2)), (s("austin"), i(1)), (s("denver"), i(1))]);
}

#[test]
fn query_counts_add_up_to_filtered_rows() {
    let d = people();
    let q = Query::new(
        Condition::Not(Box::new(in_city("austin"))),
        "city".to_string(),
        Aggregation::Count("age".to_string()),
    );
    let r = compute_query_on_dataset(&d, &q);
    let total: i32 = r
        .rows()
        .iter()
        .map(|row| match row.get_value(1) {
            Value::Integer(n) => *n,
            Value::String(_) => 0,
        })
        .sum();
    assert_eq!(total, 4);
}

#[test]
fn query_average_age_by_city() {
    let d = people();
    let q = Query::new(
        Condition::Or(Box::new(in_city("boston")), Box::new(in_city("austin"))),
        "city".to_string(),
        Aggregation::Average("age".to_string()),
    );
    let r = compute_query_on_dataset(&d, &q);
    assert_eq!(r.columns()[1].0, "Average(age)");
    assert_eq!(r.len(), 2);
    assert_eq!(*r.rows()[0].get_value(1), i(35));
    assert_eq!(*r.rows()[1].get_value(1), i(-7));
}

#[test]
fn value_equality_and_clone() {
    assert_eq!(s("a"), s("a"));
    assert_ne!(s("a"), s("b"));
    assert_ne!(s("1"), i(1));
    let r = Row::new(vec![s("a"), i(3)]);
    let c = r.clone();
    assert_eq!(c.len(), 2);
    assert_eq!(*c.get_value(1), i(3));
}

#[test]
fn filter_and_its_negation_merge_back_in_order() {
    let d = people();
    let kept = filter_dataset(&d, &in_city("boston"));
    let rest = filter_dataset(&d, &Condition::Not(Box::new(in_city("boston"))));
    let mut a = kept.rows().iter();
    let mut b = rest.rows().iter();
    let mut merged: Vec<Value> = Vec::new();
    for row in d.rows() {
        let from = if *row.get_value(1) == s("boston") { a.next() } else { b.next() };
        merged.push(from.unwrap().get_value(0).clone());
    }
    assert!(a.next().is_none() && b.next().is_none());
    assert_eq!(merged, names(&d));
}

#[test]
fn count_query_has_one_positive_count_per_distinct_value() {
    let d = people();
    let q = Query::new(
        Condition::Not(Box::new(in_city("austin"))),
        "city".to_string(),
        Aggregation::Count("age".to_string()),
    );
    let r = compute_query_on_dataset(&d, &q);
    // boston and denver remain after the filter
    assert_eq!(r.len(), 2);
    for row in r.rows() {
        match row.get_value(1) {
            Value::Integer(n) => assert!(*n >= 1),
            Value::String(_) => panic!("a count is an integer"),
        }
    }
    let empty = Query::new(in_city("paris"), "city".to_string(), Aggregation::Count("age".to_string()));
    assert_eq!(compute_query_on_dataset(&d, &empty).len(), 0);
}
