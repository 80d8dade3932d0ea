//! Query evaluation: filtering, grouping and aggregating datasets.

use vstd::prelude::*;
use crate::dataset::{
    ColumnType, Dataset, DatasetModel, Row, Value, ValueModel, column_position, columns_model,
    has_column, is_first_column, lemma_column_position,
};
use crate::query::{Aggregation, Condition, Query, aggregated_column, result_column_name};

verus! {

broadcast use vstd::seq_lib::group_seq_properties;

// ---------------------------------------------------------------------------
// Conditions
// ---------------------------------------------------------------------------

/// Every column that the condition names exists.
pub open spec fn condition_columns_exist(columns: Seq<(Seq<char>, ColumnType)>, c: Condition) -> bool
    decreases c,
{
    match c {
        Condition::Equal(name, _) => has_column(columns, name@),
        Condition::Not(inner) => condition_columns_exist(columns, *inner),
        Condition::And(l, r) => condition_columns_exist(columns, *l) && condition_columns_exist(
            columns,
            *r,
        ),
        Condition::Or(l, r) => condition_columns_exist(columns, *l) && condition_columns_exist(
            columns,
            *r,
        ),
    }
}

/// Every column that the condition names lies within a row of `n` values.
pub open spec fn condition_fits_row(columns: Seq<(Seq<char>, ColumnType)>, c: Condition, n: int) -> bool
    decreases c,
{
    match c {
        Condition::Equal(name, _) => column_position(columns, name@) < n,
        Condition::Not(inner) => condition_fits_row(columns, *inner, n),
        Condition::And(l, r) => condition_fits_row(columns, *l, n) && condition_fits_row(columns, *r, n),
        Condition::Or(l, r) => condition_fits_row(columns, *l, n) && condition_fits_row(columns, *r, n),
    }
}

/// Every row reaches the columns that the condition names.
pub open spec fn rows_reach(d: DatasetModel, c: Condition) -> bool {
    forall|i: int| 0 <= i < d.rows.len() ==> condition_fits_row(d.columns, c, #[trigger] d.rows[i].len() as int)
}

/// A row with one value per column reaches every column a condition names.
proof fn lemma_full_row_fits(columns: Seq<(Seq<char>, ColumnType)>, c: Condition)
    requires
        condition_columns_exist(columns, c),
    ensures
        condition_fits_row(columns, c, columns.len() as int),
    decreases c,
{
    match c {
        Condition::Equal(name, _) => {
            lemma_column_position(columns, name@);
        },
        Condition::Not(inner) => {
            lemma_full_row_fits(columns, *inner);
        },
        Condition::And(l, r) => {
            lemma_full_row_fits(columns, *l);
            lemma_full_row_fits(columns, *r);
        },
        Condition::Or(l, r) => {
            lemma_full_row_fits(columns, *l);
            lemma_full_row_fits(columns, *r);
        },
    }
}

/// Whether `row` satisfies `c`, a column being found by its first occurrence
/// among `columns`.
pub open spec fn satisfies(columns: Seq<(Seq<char>, ColumnType)>, row: Seq<ValueModel>, c: Condition) -> bool
    decreases c,
{
    match c {
        Condition::Equal(name, v) => row[column_position(columns, name@)] == v@,
        Condition::Not(inner) => !satisfies(columns, row, *inner),
        Condition::And(l, r) => satisfies(columns, row, *l) && satisfies(columns, row, *r),
        Condition::Or(l, r) => satisfies(columns, row, *l) || satisfies(columns, row, *r),
    }
}

/// `satisfies` as a predicate on rows.
pub open spec fn condition_holds(columns: Seq<(Seq<char>, ColumnType)>, c: Condition) -> spec_fn(
    Seq<ValueModel>,
) -> bool {
    |row: Seq<ValueModel>| satisfies(columns, row, c)
}

/// Every row holds one value per column.
pub open spec fn rows_fit(d: DatasetModel) -> bool {
    forall|i: int| 0 <= i < d.rows.len() ==> #[trigger] d.rows[i].len() == d.columns.len()
}

/// The rows of `d` that satisfy `c`, in their order.
pub open spec fn filtered(d: DatasetModel, c: Condition) -> DatasetModel {
    DatasetModel { columns: d.columns, rows: d.rows.filter(condition_holds(d.columns, c)) }
}

/// Whether `row` satisfies `condition`.
pub fn condition_check(row: &Row, dataset: &Dataset, condition: &Condition) -> (res: bool)
    requires
        condition_columns_exist(dataset@.columns, *condition),
        condition_fits_row(dataset@.columns, *condition, row@.len() as int),
    ensures
        res == satisfies(dataset@.columns, row@, *condition),
    decreases condition,
{
    match condition {
        Condition::Equal(col_name, target_val) => {
            let col_index = dataset.column_index(col_name);
            *row.get_value(col_index) == *target_val
        },
        Condition::Not(inner) => !condition_check(row, dataset, inner),
        Condition::And(left, right) => condition_check(row, dataset, left) && condition_check(
            row,
            dataset,
            right,
        ),
        Condition::Or(left, right) => condition_check(row, dataset, left) || condition_check(
            row,
            dataset,
            right,
        ),
    }
}

/// A copy of a column list.
fn clone_columns(columns: &Vec<(String, ColumnType)>) -> (res: Vec<(String, ColumnType)>)
    ensures
        columns_model(res@) == columns_model(columns@),
{
    let mut res: Vec<(String, ColumnType)> = Vec::new();
    for i in 0..columns.len()
        invariant
            res@.len() == i,
            forall|k: int| 0 <= k < i ==> #[trigger] res@[k] == columns@[k],
    {
        res.push((columns[i].0.clone(), columns[i].1));
    }
    assert(columns_model(res@) =~= columns_model(columns@));
    res
}

/// The rows of `dataset` that satisfy `filter`, in their order, under the same
/// columns.
pub fn filter_dataset(dataset: &Dataset, filter: &Condition) -> (result: Dataset)
    requires
        condition_columns_exist(dataset@.columns, *filter),
        rows_reach(dataset@, *filter),
    ensures
        result@ == filtered(dataset@, *filter),
{
    let mut result = Dataset::new(clone_columns(dataset.columns()));
    let rows = dataset.rows();
    let ghost pred = condition_holds(dataset@.columns, *filter);
    for i in 0..rows.len()
        invariant
            rows@.map_values(|x: Row| x@) == dataset@.rows,
            condition_columns_exist(dataset@.columns, *filter),
            rows_reach(dataset@, *filter),
            pred == condition_holds(dataset@.columns, *filter),
            result@.columns == dataset@.columns,
            result@.rows == dataset@.rows.take(i as int).filter(pred),
    {
        let row = &rows[i];
        assert(row@ == dataset@.rows[i as int]);
        proof {
            assert(dataset@.rows.take(i + 1) =~= dataset@.rows.take(i as int).push(row@));
            dataset@.rows.take(i as int).lemma_filter_push(row@, pred);
        }
        if condition_check(row, dataset, filter) {
            result.add_row(row.clone());
        }
    }
    assert(dataset@.rows.take(rows.len() as int) =~= dataset@.rows);
    result
}


// ---------------------------------------------------------------------------
// Grouping
// ---------------------------------------------------------------------------

/// The values that rows hold in column `ci`.
pub open spec fn column_values(rows: Seq<Seq<ValueModel>>, ci: int) -> Seq<ValueModel> {
    rows.map_values(|r: Seq<ValueModel>| r[ci])
}

/// The distinct values of `vals`, each where it first occurs.
pub open spec fn first_occurrences(vals: Seq<ValueModel>) -> Seq<ValueModel>
    decreases vals.len(),
{
    if vals.len() == 0 {
        Seq::empty()
    } else {
        let earlier = first_occurrences(vals.drop_last());
        if earlier.contains(vals.last()) {
            earlier
        } else {
            earlier.push(vals.last())
        }
    }
}

/// Rows whose value in column `ci` is `key`.
pub open spec fn key_is(ci: int, key: ValueModel) -> spec_fn(Seq<ValueModel>) -> bool {
    |r: Seq<ValueModel>| r[ci] == key
}

/// No value occurs twice.
pub open spec fn distinct(s: Seq<ValueModel>) -> bool {
    forall|i: int, j: int| 0 <= i < j < s.len() ==> s[i] != s[j]
}

/// The groups of `d` by column `ci`: one per distinct value of the column, in
/// order of first occurrence, holding the rows with that value in their order.
pub open spec fn groups_by_index(d: DatasetModel, ci: int) -> Seq<(ValueModel, DatasetModel)> {
    first_occurrences(column_values(d.rows, ci)).map_values(
        |k: ValueModel| (k, DatasetModel { columns: d.columns, rows: d.rows.filter(key_is(ci, k)) }),
    )
}

/// The groups of `d` by the column called `name`.
pub open spec fn groups_of(d: DatasetModel, name: Seq<char>) -> Seq<(ValueModel, DatasetModel)> {
    groups_by_index(d, column_position(d.columns, name))
}

/// The content of a list of groups.
pub open spec fn groups_model(g: Seq<(Value, Dataset)>) -> Seq<(ValueModel, DatasetModel)> {
    g.map_values(|e: (Value, Dataset)| (e.0@, e.1@))
}

/// A value occurs among the first occurrences exactly when it occurs, and the
/// first occurrences are distinct.
pub proof fn lemma_first_occurrences(vals: Seq<ValueModel>)
    ensures
        distinct(first_occurrences(vals)),
        forall|x: ValueModel| #[trigger] first_occurrences(vals).contains(x) <==> vals.contains(x),
    decreases vals.len(),
{
    if vals.len() > 0 {
        let init = vals.drop_last();
        lemma_first_occurrences(init);
        assert forall|x: ValueModel| #[trigger] first_occurrences(vals).contains(x) <==> vals.contains(x) by {
            if vals.contains(x) && x != vals.last() {
                let i = choose|i: int| 0 <= i < vals.len() && vals[i] == x;
                assert(init[i] == x);
            }
            if init.contains(x) {
                let i = choose|i: int| 0 <= i < init.len() && init[i] == x;
                assert(vals[i] == x);
            }
        }
    }
}

/// Rows of a dataset keep one value per column after being filtered.
proof fn lemma_filter_fits(rows: Seq<Seq<ValueModel>>, pred: spec_fn(Seq<ValueModel>) -> bool, n: nat)
    requires
        forall|i: int| 0 <= i < rows.len() ==> #[trigger] rows[i].len() == n,
    ensures
        forall|i: int| 0 <= i < rows.filter(pred).len() ==> #[trigger] rows.filter(pred)[i].len() == n,
{
    assert forall|i: int| 0 <= i < rows.filter(pred).len() implies #[trigger] rows.filter(pred)[i].len() == n by {
        rows.lemma_filter_contains_rev(pred, rows.filter(pred)[i]);
    }
}

/// Splits `dataset` into groups by the values of column `group_by_column`: one
/// group per distinct value, in order of first occurrence, each holding the rows
/// with that value, in their order, under the same columns.
pub fn group_by_dataset(dataset: Dataset, group_by_column: &String) -> (result: Vec<(Value, Dataset)>)
    requires
        has_column(dataset@.columns, group_by_column@),
        forall|i: int|
            0 <= i < dataset@.rows.len() ==> column_position(dataset@.columns, group_by_column@)
                < #[trigger] dataset@.rows[i].len(),
    ensures
        groups_model(result@) == groups_of(dataset@, group_by_column@),
{
    let col_index = dataset.column_index(group_by_column);
    let ghost ci = col_index as int;
    let ghost d = dataset@;
    let columns = clone_columns(dataset.columns());
    let rows = dataset.into_rows();
    let mut result: Vec<(Value, Dataset)> = Vec::new();
    for i in 0..rows.len()
        invariant
            rows@.map_values(|x: Row| x@) == d.rows,
            forall|r: int| 0 <= r < d.rows.len() ==> ci < #[trigger] d.rows[r].len(),
            0 <= ci < d.columns.len(),
            ci == col_index,
            columns_model(columns@) == d.columns,
            distinct(groups_model(result@).map_values(|e: (ValueModel, DatasetModel)| e.0)),
            groups_model(result@).map_values(|e: (ValueModel, DatasetModel)| e.0)
                == first_occurrences(column_values(d.rows.take(i as int), ci)),
            forall|j: int| 0 <= j < result@.len() ==> {
                &&& (#[trigger] result@[j]).1@.columns == d.columns
                &&& result@[j].1@.rows == d.rows.take(i as int).filter(key_is(ci, result@[j].0@))
            },
    {
        let row = &rows[i];
        assert(row@ == d.rows[i as int]);
        let key = row.get_value(col_index).clone();
        let ghost k = key@;
        let ghost prefix = d.rows.take(i as int);
        let ghost keys = groups_model(result@).map_values(|e: (ValueModel, DatasetModel)| e.0);
        proof {
            assert(d.rows.take(i + 1) =~= prefix.push(row@));
            assert(column_values(d.rows.take(i + 1), ci) =~= column_values(prefix, ci).push(k));
            assert(column_values(prefix, ci).push(k).drop_last() =~= column_values(prefix, ci));
            lemma_first_occurrences(column_values(prefix, ci));
        }
        let mut j: usize = 0;
        let mut found = false;
        while j < result.len()
            invariant_except_break
                forall|m: int| 0 <= m < j ==> (#[trigger] result@[m]).0@ != k,
                !found,
            invariant
                j <= result@.len(),
                k == key@,
            ensures
                found ==> j < result@.len() && result@[j as int].0@ == k,
                !found ==> forall|m: int| 0 <= m < result@.len() ==> (#[trigger] result@[m]).0@ != k,
            decreases result@.len() - j,
        {
            if result[j].0 == key {
                found = true;
                break;
            }
            j = j + 1;
        }
        let ghost old_result = result@;
        if found {
            result[j].1.add_row(row.clone());
            proof {
                assert forall|m: int| 0 <= m < result@.len() implies {
                    &&& (#[trigger] result@[m]).1@.columns == d.columns
                    &&& result@[m].1@.rows == d.rows.take(i + 1).filter(key_is(ci, result@[m].0@))
                } by {
                    prefix.lemma_filter_push(row@, key_is(ci, result@[m].0@));
                    if m != j {
                        assert(keys[m] != keys[j as int]);
                        assert(result@[m] == old_result[m]);
                    }
                }
                assert(keys[j as int] == k);
                assert(keys.contains(k));
                assert(groups_model(result@).map_values(|e: (ValueModel, DatasetModel)| e.0) =~= keys);
            }
        } else {
            let mut group = Dataset::new(clone_columns(&columns));
            group.add_row(row.clone());
            result.push((key, group));
            proof {
                assert(!keys.contains(k));
                assert(!column_values(prefix, ci).contains(k));
                assert forall|r: int| 0 <= r < prefix.len() implies !key_is(ci, k)(#[trigger] prefix[r]) by {
                    assert(column_values(prefix, ci)[r] == prefix[r][ci]);
                }
                prefix.lemma_all_neg_filter_empty(key_is(ci, k));
                assert forall|m: int| 0 <= m < result@.len() implies {
                    &&& (#[trigger] result@[m]).1@.columns == d.columns
                    &&& result@[m].1@.rows == d.rows.take(i + 1).filter(key_is(ci, result@[m].0@))
                } by {
                    prefix.lemma_filter_push(row@, key_is(ci, result@[m].0@));
                    if m < old_result.len() {
                        assert(result@[m] == old_result[m]);
                        assert(keys[m] != k);
                    } else {
                        assert(result@[m].1@.rows =~= Seq::<Seq<ValueModel>>::empty().push(row@));
                    }
                }
                assert(groups_model(result@).map_values(|e: (ValueModel, DatasetModel)| e.0) =~= keys.push(k));
            }
        }
    }
    proof {
        assert(d.rows.take(rows.len() as int) =~= d.rows);
        let keys = groups_model(result@).map_values(|e: (ValueModel, DatasetModel)| e.0);
        assert(groups_model(result@) =~= groups_of(d, group_by_column@)) by {
            lemma_column_position(d.columns, group_by_column@);
            assert(column_position(d.columns, group_by_column@) == ci);
            assert forall|m: int| 0 <= m < result@.len() implies #[trigger] groups_model(result@)[m] == groups_of(d, group_by_column@)[m] by {
                assert(keys[m] == result@[m].0@);
            }
        }
    }
    result
}


// ---------------------------------------------------------------------------
// Aggregation
// ---------------------------------------------------------------------------

/// Every row holds an integer in the column called `name`.
pub open spec fn column_is_integer(d: DatasetModel, name: Seq<char>) -> bool {
    forall|i: int|
        0 <= i < d.rows.len() ==> (#[trigger] d.rows[i])[column_position(d.columns, name)] is Integer
}

/// The integer held by a value (zero for a string).
pub open spec fn integer_of(v: ValueModel) -> i32 {
    match v {
        ValueModel::Integer(n) => n,
        ValueModel::String(_) => 0,
    }
}

/// The integers of the column called `name`, row by row.
pub open spec fn column_integers(d: DatasetModel, name: Seq<char>) -> Seq<i32> {
    d.rows.map_values(|r: Seq<ValueModel>| integer_of(r[column_position(d.columns, name)]))
}

/// The sum of a sequence of integers.
pub open spec fn sum_of(s: Seq<i32>) -> int
    decreases s.len(),
{
    if s.len() == 0 {
        0
    } else {
        sum_of(s.drop_last()) + s.last()
    }
}

/// Every running sum, from the first element on, fits in an `i32`.
pub open spec fn running_sums_fit(s: Seq<i32>) -> bool {
    forall|k: int| 0 <= k <= s.len() ==> i32::MIN <= #[trigger] sum_of(s.take(k)) <= i32::MAX
}

/// Integer division rounding toward zero, as `i32` division does.
pub open spec fn div_toward_zero(a: int, b: int) -> int {
    if a >= 0 {
        a / b
    } else {
        -((-a) / b)
    }
}

/// The inputs on which aggregating the group `d` completes: the aggregated
/// column exists, and for a sum or an average it holds integers whose running
/// sums fit in an `i32`; an average needs at least one and at most `i32::MAX`
/// rows.
pub open spec fn aggregation_defined(d: DatasetModel, a: Aggregation) -> bool {
    &&& has_column(d.columns, aggregated_column(a))
    &&& rows_fit(d)
    &&& match a {
        Aggregation::Count(_) => true,
        Aggregation::Sum(c) => column_is_integer(d, c@) && running_sums_fit(column_integers(d, c@)),
        Aggregation::Average(c) => {
            &&& column_is_integer(d, c@)
            &&& running_sums_fit(column_integers(d, c@))
            &&& 0 < d.rows.len() <= i32::MAX
        },
    }
}

/// The result of aggregating the group `d`: the number of rows (as an `i32`),
/// the sum of the column, or that sum divided by the number of rows, rounded
/// toward zero.
pub open spec fn aggregate_value(d: DatasetModel, a: Aggregation) -> ValueModel {
    match a {
        Aggregation::Count(_) => ValueModel::Integer(d.rows.len() as i32),
        Aggregation::Sum(c) => ValueModel::Integer(sum_of(column_integers(d, c@)) as i32),
        Aggregation::Average(c) => ValueModel::Integer(
            div_toward_zero(sum_of(column_integers(d, c@)), d.rows.len() as int) as i32,
        ),
    }
}

/// The integers of the column called `col_name`, row by row.
fn get_integer_values(dataset: &Dataset, col_name: &String) -> (values: Vec<i32>)
    requires
        has_column(dataset@.columns, col_name@),
        rows_fit(dataset@),
        column_is_integer(dataset@, col_name@),
    ensures
        values@ == column_integers(dataset@, col_name@),
{
    let col_index = dataset.column_index(col_name);
    let rows = dataset.rows();
    let mut values: Vec<i32> = Vec::new();
    for i in 0..rows.len()
        invariant
            rows@.map_values(|x: Row| x@) == dataset@.rows,
            rows_fit(dataset@),
            column_is_integer(dataset@, col_name@),
            col_index == column_position(dataset@.columns, col_name@),
            col_index < dataset@.columns.len(),
            values@ =~= column_integers(dataset@, col_name@).take(i as int),
    {
        assert(rows@[i as int]@ == dataset@.rows[i as int]);
        match rows[i].get_value(col_index) {
            Value::Integer(n) => values.push(*n),
            Value::String(_) => {
                assert(false);
            },
        }
    }
    values
}

/// Adds up a sequence of integers whose running sums fit.
fn sum_values(values: &Vec<i32>) -> (total: i32)
    requires
        running_sums_fit(values@),
    ensures
        total == sum_of(values@),
{
    let mut total: i32 = 0;
    for i in 0..values.len()
        invariant
            running_sums_fit(values@),
            total == sum_of(values@.take(i as int)),
    {
        proof {
            assert(values@.take(i + 1).drop_last() =~= values@.take(i as int));
            assert(i32::MIN <= sum_of(values@.take(i + 1)) <= i32::MAX);
        }
        total = total + values[i];
    }
    assert(values@.take(values@.len() as int) =~= values@);
    total
}

/// Aggregates one group.
fn aggregate_group(group: &Dataset, aggregation: &Aggregation) -> (v: Value)
    requires
        aggregation_defined(group@, *aggregation),
    ensures
        v@ == aggregate_value(group@, *aggregation),
{
    match aggregation {
        Aggregation::Count(col_name) => {
            let _col_index = group.column_index(col_name);
            Value::Integer(group.len() as i32)
        },
        Aggregation::Sum(col_name) => {
            let values = get_integer_values(group, col_name);
            let total = sum_values(&values);
            Value::Integer(total)
        },
        Aggregation::Average(col_name) => {
            let values = get_integer_values(group, col_name);
            let total = sum_values(&values);
            let avg = total / (values.len() as i32);
            Value::Integer(avg)
        },
    }
}

/// The content of aggregated groups.
pub open spec fn pairs_model(p: Seq<(Value, Value)>) -> Seq<(ValueModel, ValueModel)> {
    p.map_values(|e: (Value, Value)| (e.0@, e.1@))
}

/// Each group's key with its aggregate.
pub open spec fn aggregated(groups: Seq<(ValueModel, DatasetModel)>, a: Aggregation) -> Seq<(ValueModel, ValueModel)> {
    groups.map_values(|g: (ValueModel, DatasetModel)| (g.0, aggregate_value(g.1, a)))
}

/// Aggregates every group, keeping the groups' order and keys.
pub fn aggregate_dataset(dataset: Vec<(Value, Dataset)>, aggregation: &Aggregation) -> (result: Vec<(Value, Value)>)
    requires
        forall|j: int| 0 <= j < dataset@.len() ==> aggregation_defined((#[trigger] dataset@[j]).1@, *aggregation),
    ensures
        pairs_model(result@) == aggregated(groups_model(dataset@), *aggregation),
{
    let mut result: Vec<(Value, Value)> = Vec::new();
    for i in 0..dataset.len()
        invariant
            forall|j: int| 0 <= j < dataset@.len() ==> aggregation_defined((#[trigger] dataset@[j]).1@, *aggregation),
            result@.len() == i,
            pairs_model(result@) =~= aggregated(groups_model(dataset@), *aggregation).take(i as int),
    {
        let aggregate = aggregate_group(&dataset[i].1, aggregation);
        let key_copy = dataset[i].0.clone();
        proof {
            assert(groups_model(dataset@)[i as int] == (dataset@[i as int].0@, dataset@[i as int].1@));
        }
        result.push((key_copy, aggregate));
        proof {
            assert(result@[i as int] == (key_copy, aggregate));
            assert(pairs_model(result@)[i as int] == aggregated(groups_model(dataset@), *aggregation)[i as int]);
        }
    }
    result
}

// ---------------------------------------------------------------------------
// Whole queries
// ---------------------------------------------------------------------------

/// The inputs on which a query completes: its columns exist, every row holds
/// one value per column, and the aggregation completes on every group.
pub open spec fn query_defined(d: DatasetModel, q: Query) -> bool {
    &&& condition_columns_exist(d.columns, q.filter_spec())
    &&& rows_fit(d)
    &&& has_column(d.columns, q.group_by_spec()@)
    &&& forall|j: int|
        0 <= j < groups_of(filtered(d, q.filter_spec()), q.group_by_spec()@).len()
            ==> aggregation_defined(
            (#[trigger] groups_of(filtered(d, q.filter_spec()), q.group_by_spec()@)[j]).1,
            q.aggregate_spec(),
        )
}

/// The answer to a query: a dataset with the grouping column (with its type) and
/// the aggregate column, and one row per group of the filtered rows holding the
/// group's key and its aggregate, groups in order of first occurrence.
pub open spec fn query_result(d: DatasetModel, q: Query) -> DatasetModel {
    let name = q.group_by_spec()@;
    DatasetModel {
        columns: seq![
            (name, d.columns[column_position(d.columns, name)].1),
            (result_column_name(q.aggregate_spec()), ColumnType::Integer),
        ],
        rows: aggregated(groups_of(filtered(d, q.filter_spec()), name), q.aggregate_spec()).map_values(
            |p: (ValueModel, ValueModel)| seq![p.0, p.1],
        ),
    }
}

/// Runs a query: filters the rows, groups them, aggregates each group, and
/// returns one row per group.
pub fn compute_query_on_dataset(dataset: &Dataset, query: &Query) -> (result: Dataset)
    requires
        query_defined(dataset@, *query),
    ensures
        result@ == query_result(dataset@, *query),
{
    proof {
        lemma_full_row_fits(dataset@.columns, query.filter_spec());
        assert forall|i: int| 0 <= i < dataset@.rows.len() implies condition_fits_row(
            dataset@.columns,
            query.filter_spec(),
            #[trigger] dataset@.rows[i].len() as int,
        ) by {
            assert(dataset@.rows[i].len() == dataset@.columns.len());
        }
    }
    let filtered_rows = filter_dataset(dataset, query.get_filter());
    proof {
        lemma_filter_fits(dataset@.rows, condition_holds(dataset@.columns, query.filter_spec()), dataset@.columns.len());
        lemma_column_position(dataset@.columns, query.group_by_spec()@);
        assert forall|i: int| 0 <= i < filtered_rows@.rows.len() implies column_position(
            filtered_rows@.columns,
            query.group_by_spec()@,
        ) < #[trigger] filtered_rows@.rows[i].len() by {
            assert(filtered_rows@.rows[i].len() == dataset@.columns.len());
        }
    }
    let grouped = group_by_dataset(filtered_rows, query.get_group_by());
    proof {
        assert forall|j: int| 0 <= j < grouped@.len() implies aggregation_defined((#[trigger] grouped@[j]).1@, query.aggregate_spec()) by {
            assert(groups_model(grouped@)[j].1 == grouped@[j].1@);
        }
    }
    let aggregated_pairs = aggregate_dataset(grouped, query.get_aggregate());

    let group_by_column_name = query.get_group_by();
    let group_by_column_type = *dataset.column_type(group_by_column_name);
    let columns = vec![
        (group_by_column_name.clone(), group_by_column_type),
        (query.get_aggregate().get_result_column_name(), ColumnType::Integer),
    ];
    let mut result = Dataset::new(columns);
    let ghost expected = query_result(dataset@, *query);
    for i in 0..aggregated_pairs.len()
        invariant
            expected == query_result(dataset@, *query),
            pairs_model(aggregated_pairs@).map_values(|p: (ValueModel, ValueModel)| seq![p.0, p.1]) == expected.rows,
            result@.columns == expected.columns,
            result@.rows =~= expected.rows.take(i as int),
    {
        let grouped_value = aggregated_pairs[i].0.clone();
        let aggregation_value = aggregated_pairs[i].1.clone();
        let row = Row::new(vec![grouped_value, aggregation_value]);
        proof {
            assert(row@ =~= expected.rows[i as int]);
        }
        result.add_row(row);
    }
    proof {
        assert(expected.rows.take(aggregated_pairs@.len() as int) =~= expected.rows);
    }
    result
}


// ---------------------------------------------------------------------------
// Laws
// ---------------------------------------------------------------------------

/// Filtering twice keeps what satisfies both predicates.
proof fn lemma_filter_twice(
    s: Seq<Seq<ValueModel>>,
    p: spec_fn(Seq<ValueModel>) -> bool,
    q: spec_fn(Seq<ValueModel>) -> bool,
    pq: spec_fn(Seq<ValueModel>) -> bool,
)
    requires
        forall|x: Seq<ValueModel>| #[trigger] pq(x) == (p(x) && q(x)),
    ensures
        s.filter(p).filter(q) == s.filter(pq),
    decreases s.len(),
{
    if s.len() > 0 {
        let init = s.drop_last();
        lemma_filter_twice(init, p, q, pq);
        assert(init.push(s.last()) =~= s);
        init.lemma_filter_push(s.last(), p);
        init.lemma_filter_push(s.last(), pq);
        init.filter(p).lemma_filter_push(s.last(), q);
    }
}

/// A predicate and its negation split a sequence.
proof fn lemma_filter_split(
    s: Seq<Seq<ValueModel>>,
    p: spec_fn(Seq<ValueModel>) -> bool,
    not_p: spec_fn(Seq<ValueModel>) -> bool,
)
    requires
        forall|x: Seq<ValueModel>| #[trigger] not_p(x) == !p(x),
    ensures
        s.filter(p).len() + s.filter(not_p).len() == s.len(),
    decreases s.len(),
{
    if s.len() > 0 {
        let init = s.drop_last();
        lemma_filter_split(init, p, not_p);
        assert(init.push(s.last()) =~= s);
        init.lemma_filter_push(s.last(), p);
        init.lemma_filter_push(s.last(), not_p);
    }
}

/// Filtering by `a` and then by `b` gives the rows that satisfy `And(a, b)`.
pub proof fn law_filter_and(d: DatasetModel, a: Condition, b: Condition)
    ensures
        filtered(filtered(d, a), b) == filtered(d, Condition::And(Box::new(a), Box::new(b))),
{
    let both = Condition::And(Box::new(a), Box::new(b));
    lemma_filter_twice(
        d.rows,
        condition_holds(d.columns, a),
        condition_holds(d.columns, b),
        condition_holds(d.columns, both),
    );
}

/// Every row satisfies either `c` or `Not(c)`, never both: the two filters
/// together keep as many rows as the dataset has.
pub proof fn law_filter_not_splits(d: DatasetModel, c: Condition)
    ensures
        filtered(d, c).rows.len() + filtered(d, Condition::Not(Box::new(c))).rows.len() == d.rows.len(),
{
    lemma_filter_split(d.rows, condition_holds(d.columns, c), condition_holds(d.columns, Condition::Not(Box::new(c))));
}

/// The number of rows held by a list of groups.
pub open spec fn rows_in_groups(g: Seq<(ValueModel, DatasetModel)>) -> int
    decreases g.len(),
{
    if g.len() == 0 {
        0
    } else {
        rows_in_groups(g.drop_last()) + g.last().1.rows.len()
    }
}

/// The number of rows of `rows` whose key is one of `keys`, key by key.
spec fn rows_with_keys(keys: Seq<ValueModel>, rows: Seq<Seq<ValueModel>>, ci: int) -> int
    decreases keys.len(),
{
    if keys.len() == 0 {
        0
    } else {
        rows_with_keys(keys.drop_last(), rows, ci) + rows.filter(key_is(ci, keys.last())).len()
    }
}

/// Appending a row adds one to the count of exactly the key it holds.
proof fn lemma_rows_with_keys_push(keys: Seq<ValueModel>, rows: Seq<Seq<ValueModel>>, r: Seq<ValueModel>, ci: int)
    requires
        distinct(keys),
    ensures
        rows_with_keys(keys, rows.push(r), ci) == rows_with_keys(keys, rows, ci) + if keys.contains(r[ci]) {
            1int
        } else {
            0int
        },
    decreases keys.len(),
{
    if keys.len() > 0 {
        let init = keys.drop_last();
        assert(distinct(init));
        lemma_rows_with_keys_push(init, rows, r, ci);
        rows.lemma_filter_push(r, key_is(ci, keys.last()));
        if keys.last() == r[ci] {
            assert(keys[keys.len() - 1] == r[ci]);
            assert(!init.contains(r[ci])) by {
                if init.contains(r[ci]) {
                    let i = choose|i: int| 0 <= i < init.len() && init[i] == r[ci];
                    assert(keys[i] == keys[keys.len() - 1]);
                }
            }
        } else {
            assert(keys.contains(r[ci]) == init.contains(r[ci])) by {
                if keys.contains(r[ci]) {
                    let i = choose|i: int| 0 <= i < keys.len() && keys[i] == r[ci];
                    assert(init[i] == r[ci]);
                }
                if init.contains(r[ci]) {
                    let i = choose|i: int| 0 <= i < init.len() && init[i] == r[ci];
                    assert(keys[i] == r[ci]);
                }
            }
        }
    }
}

/// A key that no row holds selects no row.
proof fn lemma_absent_key(rows: Seq<Seq<ValueModel>>, ci: int, k: ValueModel)
    requires
        !column_values(rows, ci).contains(k),
    ensures
        rows.filter(key_is(ci, k)).len() == 0,
{
    assert forall|r: int| 0 <= r < rows.len() implies !key_is(ci, k)(#[trigger] rows[r]) by {
        assert(column_values(rows, ci)[r] == rows[r][ci]);
    }
    rows.lemma_all_neg_filter_empty(key_is(ci, k));
}

/// Every row lands in exactly one group.
proof fn lemma_rows_counted(rows: Seq<Seq<ValueModel>>, ci: int)
    ensures
        rows_with_keys(first_occurrences(column_values(rows, ci)), rows, ci) == rows.len(),
    decreases rows.len(),
{
    if rows.len() > 0 {
        let init = rows.drop_last();
        let r = rows.last();
        let k = r[ci];
        lemma_rows_counted(init, ci);
        let cv = column_values(init, ci);
        let keys = first_occurrences(cv);
        lemma_first_occurrences(cv);
        assert(init.push(r) =~= rows);
        assert(column_values(rows, ci) =~= cv.push(k));
        assert(cv.push(k).drop_last() =~= cv);
        lemma_rows_with_keys_push(keys, init, r, ci);
        if !keys.contains(k) {
            let keys2 = keys.push(k);
            assert(keys2.drop_last() =~= keys);
            lemma_absent_key(init, ci, k);
            init.lemma_filter_push(r, key_is(ci, k));
        }
    }
}

/// The groups' sizes, key by key.
proof fn lemma_groups_sizes(d: DatasetModel, ci: int, keys: Seq<ValueModel>)
    ensures
        rows_in_groups(
            keys.map_values(
                |k: ValueModel| (k, DatasetModel { columns: d.columns, rows: d.rows.filter(key_is(ci, k)) }),
            ),
        ) == rows_with_keys(keys, d.rows, ci),
    decreases keys.len(),
{
    let f = |k: ValueModel| (k, DatasetModel { columns: d.columns, rows: d.rows.filter(key_is(ci, k)) });
    if keys.len() > 0 {
        lemma_groups_sizes(d, ci, keys.drop_last());
        assert(keys.map_values(f).drop_last() =~= keys.drop_last().map_values(f));
    }
}

/// Grouping loses no row and duplicates none: the groups together hold as many
/// rows as the dataset.
pub proof fn law_groups_partition(d: DatasetModel, name: Seq<char>)
    ensures
        rows_in_groups(groups_of(d, name)) == d.rows.len(),
{
    let ci = column_position(d.columns, name);
    lemma_groups_sizes(d, ci, first_occurrences(column_values(d.rows, ci)));
    lemma_rows_counted(d.rows, ci);
}

/// The groups have distinct keys, and a value is a key exactly when some row
/// holds it in the grouping column.
pub proof fn law_group_keys(d: DatasetModel, name: Seq<char>)
    ensures
        distinct(groups_of(d, name).map_values(|g: (ValueModel, DatasetModel)| g.0)),
        forall|k: ValueModel|
            groups_of(d, name).map_values(|g: (ValueModel, DatasetModel)| g.0).contains(k)
                <==> column_values(d.rows, column_position(d.columns, name)).contains(k),
{
    let ci = column_position(d.columns, name);
    let keys = first_occurrences(column_values(d.rows, ci));
    lemma_first_occurrences(column_values(d.rows, ci));
    assert(groups_of(d, name).map_values(|g: (ValueModel, DatasetModel)| g.0) =~= keys);
}

/// The sum of the integers in column 1 of the rows.
pub open spec fn second_column_total(rows: Seq<Seq<ValueModel>>) -> int
    decreases rows.len(),
{
    if rows.len() == 0 {
        0
    } else {
        second_column_total(rows.drop_last()) + integer_of(rows.last()[1])
    }
}

proof fn lemma_count_rows_total(g: Seq<(ValueModel, DatasetModel)>, a: Aggregation)
    requires
        a is Count,
        forall|j: int| 0 <= j < g.len() ==> (#[trigger] g[j]).1.rows.len() <= i32::MAX,
    ensures
        second_column_total(aggregated(g, a).map_values(|p: (ValueModel, ValueModel)| seq![p.0, p.1]))
            == rows_in_groups(g),
    decreases g.len(),
{
    if g.len() > 0 {
        let init = g.drop_last();
        lemma_count_rows_total(init, a);
        let f = |p: (ValueModel, ValueModel)| seq![p.0, p.1];
        assert(aggregated(g, a).map_values(f).drop_last() =~= aggregated(init, a).map_values(f));
        let n = g.last().1.rows.len();
        assert(n <= i32::MAX);
        assert((n as i32) as int == n);
    }
}

/// A count query counts every row that passes the filter exactly once: its
/// counts add up to the number of filtered rows (as long as that number fits
/// in an `i32`).
pub proof fn law_counts_add_up(d: DatasetModel, q: Query)
    requires
        query_defined(d, q),
        q.aggregate_spec() is Count,
        filtered(d, q.filter_spec()).rows.len() <= i32::MAX,
    ensures
        second_column_total(query_result(d, q).rows) == filtered(d, q.filter_spec()).rows.len(),
{
    let fd = filtered(d, q.filter_spec());
    let name = q.group_by_spec()@;
    let g = groups_of(fd, name);
    let ci = column_position(fd.columns, name);
    assert forall|j: int| 0 <= j < g.len() implies (#[trigger] g[j]).1.rows.len() <= i32::MAX by {
        let k = first_occurrences(column_values(fd.rows, ci))[j];
        assert(g[j].1.rows == fd.rows.filter(key_is(ci, k)));
        fd.rows.lemma_filter_len(key_is(ci, k));
    }
    lemma_count_rows_total(g, q.aggregate_spec());
    law_groups_partition(fd, name);
}


/// The rows of `a` and `b` merged by `flags`, front to back: the next row of
/// `a` where the flag is set, the next row of `b` where it is not.
pub open spec fn merge_by(flags: Seq<bool>, a: Seq<Seq<ValueModel>>, b: Seq<Seq<ValueModel>>) -> Seq<Seq<ValueModel>>
    decreases flags.len(),
{
    if flags.len() == 0 {
        Seq::empty()
    } else if flags.last() {
        merge_by(flags.drop_last(), a.drop_last(), b).push(a.last())
    } else {
        merge_by(flags.drop_last(), a, b.drop_last()).push(b.last())
    }
}

/// The rows a predicate keeps and those its negation keeps merge back, by
/// the predicate's verdict on each row, into the sequence.
proof fn lemma_filter_merge(
    s: Seq<Seq<ValueModel>>,
    p: spec_fn(Seq<ValueModel>) -> bool,
    not_p: spec_fn(Seq<ValueModel>) -> bool,
)
    requires
        forall|x: Seq<ValueModel>| #[trigger] not_p(x) == !p(x),
    ensures
        merge_by(s.map_values(p), s.filter(p), s.filter(not_p)) == s,
    decreases s.len(),
{
    if s.len() == 0 {
        assert(s.map_values(p) =~= Seq::<bool>::empty());
        assert(s =~= Seq::<Seq<ValueModel>>::empty());
    } else {
        let init = s.drop_last();
        let x = s.last();
        lemma_filter_merge(init, p, not_p);
        assert(init.push(x) =~= s);
        init.lemma_filter_push(x, p);
        init.lemma_filter_push(x, not_p);
        assert(s.map_values(p).drop_last() =~= init.map_values(p));
        assert(s.map_values(p).last() == p(x));
        if p(x) {
            assert(s.filter(p).drop_last() =~= init.filter(p));
        } else {
            assert(s.filter(not_p).drop_last() =~= init.filter(not_p));
        }
    }
}

/// A filter and its negation split the dataset: going through the rows in
/// their order and taking the next row of the first filter's result where the
/// row satisfies `c`, and of the second's where it does not, gives back the
/// dataset's rows exactly.
pub proof fn law_filter_not_merges(d: DatasetModel, c: Condition)
    ensures
        merge_by(
            d.rows.map_values(condition_holds(d.columns, c)),
            filtered(d, c).rows,
            filtered(d, Condition::Not(Box::new(c))).rows,
        ) == d.rows,
{
    lemma_filter_merge(d.rows, condition_holds(d.columns, c), condition_holds(d.columns, Condition::Not(Box::new(c))));
}

/// A count query answers one row per distinct value of the grouping column
/// among the filtered rows, and every count is at least 1 (as long as the
/// number of filtered rows fits in an `i32`).
pub proof fn law_count_rows(d: DatasetModel, q: Query)
    requires
        query_defined(d, q),
        q.aggregate_spec() is Count,
        filtered(d, q.filter_spec()).rows.len() <= i32::MAX,
    ensures
        query_result(d, q).rows.len() == column_values(
            filtered(d, q.filter_spec()).rows,
            column_position(d.columns, q.group_by_spec()@),
        ).to_set().len(),
        forall|j: int| 0 <= j < query_result(d, q).rows.len() ==> integer_of(#[trigger] query_result(d, q).rows[j][1]) >= 1,
{
    let fd = filtered(d, q.filter_spec());
    let name = q.group_by_spec()@;
    let ci = column_position(fd.columns, name);
    let cv = column_values(fd.rows, ci);
    let keys = first_occurrences(cv);
    let g = groups_of(fd, name);
    lemma_first_occurrences(cv);
    assert(keys.no_duplicates());
    keys.unique_seq_to_set();
    assert(keys.to_set() =~= cv.to_set());
    assert forall|j: int| 0 <= j < query_result(d, q).rows.len() implies integer_of(#[trigger] query_result(d, q).rows[j][1]) >= 1 by {
        let k = keys[j];
        assert(keys.contains(k));
        let r = choose|r: int| 0 <= r < cv.len() && cv[r] == k;
        assert(fd.rows[r][ci] == k);
        fd.rows.lemma_filter_contains(key_is(ci, k), r);
        let grp = fd.rows.filter(key_is(ci, k));
        assert(grp.len() >= 1);
        fd.rows.lemma_filter_len(key_is(ci, k));
        assert(g[j].1.rows == grp);
        assert(query_result(d, q).rows[j][1] == aggregate_value(g[j].1, q.aggregate_spec()));
    }
}


/// A row survives a filter exactly when it is one of the rows and satisfies
/// the predicate.
proof fn lemma_row_filter_member(s: Seq<Seq<ValueModel>>, p: spec_fn(Seq<ValueModel>) -> bool, x: Seq<ValueModel>)
    ensures
        s.filter(p).contains(x) <==> (s.contains(x) && p(x)),
{
    if s.filter(p).contains(x) {
        s.lemma_filter_contains_rev(p, x);
        let i = choose|i: int| 0 <= i < s.filter(p).len() && s.filter(p)[i] == x;
        s.lemma_filter_pred(p, i);
    }
    if s.contains(x) && p(x) {
        let i = choose|i: int| 0 <= i < s.len() && s[i] == x;
        s.lemma_filter_contains(p, i);
    }
}

/// `Or` keeps a row exactly when either side keeps it: every row that
/// filtering by `a` or by `b` keeps, filtering by `Or(a, b)` keeps, and no
/// other; and `Or(a, a)` filters as `a` does.
pub proof fn law_filter_or(d: DatasetModel, a: Condition, b: Condition)
    ensures
        forall|r: Seq<ValueModel>|
            #[trigger] filtered(d, Condition::Or(Box::new(a), Box::new(b))).rows.contains(r) <==> (filtered(
                d,
                a,
            ).rows.contains(r) || filtered(d, b).rows.contains(r)),
        filtered(d, Condition::Or(Box::new(a), Box::new(a))) == filtered(d, a),
{
    let ab = Condition::Or(Box::new(a), Box::new(b));
    assert forall|r: Seq<ValueModel>|
        #[trigger] filtered(d, ab).rows.contains(r) <==> (filtered(d, a).rows.contains(r) || filtered(
            d,
            b,
        ).rows.contains(r)) by {
        lemma_row_filter_member(d.rows, condition_holds(d.columns, ab), r);
        lemma_row_filter_member(d.rows, condition_holds(d.columns, a), r);
        lemma_row_filter_member(d.rows, condition_holds(d.columns, b), r);
    }
    let aa = Condition::Or(Box::new(a), Box::new(a));
    assert(condition_holds(d.columns, aa) =~= condition_holds(d.columns, a));
}

/// Where `i` is the first column called `name`, that position is the one a
/// lookup by name finds.
proof fn lemma_first_column_unique(columns: Seq<(Seq<char>, ColumnType)>, name: Seq<char>, i: int)
    requires
        is_first_column(columns, name, i),
    ensures
        column_position(columns, name) == i,
{
    lemma_column_position(columns, name);
    let k = column_position(columns, name);
    if k < i {
        assert(columns[k].0 != name);
    } else if k > i {
        assert(columns[i].0 != name);
    }
}

/// A query's answer has two columns: the group-by column, with the type the
/// dataset gives its first column of that name, and the aggregate, an
/// integer column named after the aggregation.
pub proof fn law_query_columns(d: DatasetModel, q: Query, i: int)
    requires
        is_first_column(d.columns, q.group_by_spec()@, i),
    ensures
        query_result(d, q).columns == seq![
            (q.group_by_spec()@, d.columns[i].1),
            (result_column_name(q.aggregate_spec()), ColumnType::Integer),
        ],
{
    lemma_first_column_unique(d.columns, q.group_by_spec()@, i);
}

/// A sum of integers grows by each integer appended.
proof fn lemma_sum_push(s: Seq<i32>, v: i32)
    ensures
        sum_of(s.push(v)) == sum_of(s) + v,
{
    assert(s.push(v).drop_last() =~= s);
}

/// The average of a group is its sum divided by its count, rounded toward
/// zero: `Average(c)` agrees with `Sum(c)` over `Count(c)`.
pub proof fn law_average_is_sum_over_count(g: DatasetModel, c: String)
    requires
        aggregation_defined(g, Aggregation::Average(c)),
    ensures
        aggregate_value(g, Aggregation::Average(c)) == ValueModel::Integer(
            div_toward_zero(
                integer_of(aggregate_value(g, Aggregation::Sum(c))) as int,
                integer_of(aggregate_value(g, Aggregation::Count(c))) as int,
            ) as i32,
        ),
{
    let s = column_integers(g, c@);
    assert(s.take(s.len() as int) =~= s);
    assert(i32::MIN <= sum_of(s.take(s.len() as int)) <= i32::MAX);
}

/// Appending a row to a group adds one to its count and adds the row's value
/// to its sum; an empty group counts and sums to zero.
pub proof fn law_count_and_sum_grow(g: DatasetModel, r: Seq<ValueModel>, c: String)
    requires
        g.rows.len() < i32::MAX,
    ensures
        integer_of(aggregate_value(DatasetModel { columns: g.columns, rows: g.rows.push(r) }, Aggregation::Count(c)))
            == integer_of(aggregate_value(g, Aggregation::Count(c))) + 1,
        integer_of(aggregate_value(DatasetModel { columns: g.columns, rows: Seq::empty() }, Aggregation::Count(c))) == 0,
        integer_of(aggregate_value(DatasetModel { columns: g.columns, rows: Seq::empty() }, Aggregation::Sum(c))) == 0,
        i32::MIN <= sum_of(column_integers(g, c@)) + integer_of(r[column_position(g.columns, c@)]) <= i32::MAX
            ==> integer_of(aggregate_value(DatasetModel { columns: g.columns, rows: g.rows.push(r) }, Aggregation::Sum(c)))
            == sum_of(column_integers(g, c@)) + integer_of(r[column_position(g.columns, c@)]),
{
    let g2 = DatasetModel { columns: g.columns, rows: g.rows.push(r) };
    let e = DatasetModel { columns: g.columns, rows: Seq::<Seq<ValueModel>>::empty() };
    assert(column_integers(g2, c@) =~= column_integers(g, c@).push(integer_of(r[column_position(g.columns, c@)])));
    lemma_sum_push(column_integers(g, c@), integer_of(r[column_position(g.columns, c@)]));
    assert(column_integers(e, c@) =~= Seq::<i32>::empty());
}


/// `Equal(name, v)` keeps exactly the rows that hold `v` in the first column
/// called `name`, and `Not` keeps exactly the rows its condition drops.
pub proof fn law_filter_equal_and_not(d: DatasetModel, name: String, v: Value, c: Condition, i: int)
    requires
        is_first_column(d.columns, name@, i),
    ensures
        forall|r: Seq<ValueModel>|
            #[trigger] filtered(d, Condition::Equal(name, v)).rows.contains(r) <==> (d.rows.contains(r) && r[i] == v@),
        forall|r: Seq<ValueModel>|
            #[trigger] filtered(d, Condition::Not(Box::new(c))).rows.contains(r) <==> (d.rows.contains(r)
                && !filtered(d, c).rows.contains(r)),
{
    lemma_first_column_unique(d.columns, name@, i);
    assert forall|r: Seq<ValueModel>|
        #[trigger] filtered(d, Condition::Equal(name, v)).rows.contains(r) <==> (d.rows.contains(r) && r[i] == v@) by {
        lemma_row_filter_member(d.rows, condition_holds(d.columns, Condition::Equal(name, v)), r);
    }
    assert forall|r: Seq<ValueModel>|
        #[trigger] filtered(d, Condition::Not(Box::new(c))).rows.contains(r) <==> (d.rows.contains(r)
            && !filtered(d, c).rows.contains(r)) by {
        lemma_row_filter_member(d.rows, condition_holds(d.columns, Condition::Not(Box::new(c))), r);
        lemma_row_filter_member(d.rows, condition_holds(d.columns, c), r);
    }
}

} // verus!
