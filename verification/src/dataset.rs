//! Tabular data: values, rows and datasets with named, typed columns.

use vstd::prelude::*;

verus! {

/// A single cell of a dataset.
#[derive(Debug)]
pub enum Value {
    String(String),
    Integer(i32),
}

/// The mathematical content of a [`Value`].
pub enum ValueModel {
    String(Seq<char>),
    Integer(i32),
}

impl View for Value {
    type V = ValueModel;

    open spec fn view(&self) -> ValueModel {
        match self {
            Value::String(s) => ValueModel::String(s@),
            Value::Integer(n) => ValueModel::Integer(*n),
        }
    }
}

impl Clone for Value {
    fn clone(&self) -> (res: Self)
        ensures
            res@ == self@,
    {
        match self {
            Value::String(s) => Value::String(s.clone()),
            Value::Integer(n) => Value::Integer(*n),
        }
    }
}

impl PartialEq for Value {
    fn eq(&self, other: &Self) -> (res: bool) {
        match (self, other) {
            (Value::String(a), Value::String(b)) => a.eq(b),
            (Value::Integer(a), Value::Integer(b)) => *a == *b,
            _ => false,
        }
    }
}

impl vstd::std_specs::cmp::PartialEqSpecImpl for Value {
    open spec fn obeys_eq_spec() -> bool {
        true
    }

    open spec fn eq_spec(&self, other: &Self) -> bool {
        self@ == other@
    }
}


/// The type of a column.
#[derive(Clone, Copy, Debug, PartialEq, Eq, Structural)]
pub enum ColumnType {
    String,
    Integer,
}

/// One record of a dataset: a value per column.
#[derive(Debug)]
pub struct Row {
    values: Vec<Value>,
}

impl View for Row {
    type V = Seq<ValueModel>;

    closed spec fn view(&self) -> Seq<ValueModel> {
        self.values@.map_values(|v: Value| v@)
    }
}

/// Clones a vector of values, value by value.
fn clone_values(values: &Vec<Value>) -> (res: Vec<Value>)
    ensures
        res@.map_values(|v: Value| v@) == values@.map_values(|v: Value| v@),
{
    let mut res: Vec<Value> = Vec::new();
    for i in 0..values.len()
        invariant
            res@.len() == i,
            forall|k: int| 0 <= k < i ==> #[trigger] res@[k]@ == values@[k]@,
    {
        res.push(values[i].clone());
    }
    assert(res@.map_values(|v: Value| v@) =~= values@.map_values(|v: Value| v@));
    res
}

impl Row {
    /// Builds a row from its values, in column order.
    pub fn new(values: Vec<Value>) -> (row: Row)
        ensures
            row@ == values@.map_values(|v: Value| v@),
    {
        Row { values }
    }

    /// The number of values in the row.
    pub fn len(&self) -> (n: usize)
        ensures
            n == self@.len(),
    {
        self.values.len()
    }

    /// The value in column `index`.
    pub fn get_value(&self, index: usize) -> (v: &Value)
        requires
            index < self@.len(),
        ensures
            v@ == self@[index as int],
    {
        &self.values[index]
    }
}

impl Clone for Row {
    fn clone(&self) -> (res: Self)
        ensures
            res@ == self@,
    {
        Row { values: clone_values(&self.values) }
    }
}

/// The mathematical content of a [`Dataset`]: its columns (name and type) and
/// its rows, in insertion order.
#[verifier::ext_equal]
pub struct DatasetModel {
    pub columns: Seq<(Seq<char>, ColumnType)>,
    pub rows: Seq<Seq<ValueModel>>,
}

/// The columns of a dataset, each name taken by its characters.
pub open spec fn columns_model(columns: Seq<(String, ColumnType)>) -> Seq<(Seq<char>, ColumnType)> {
    columns.map_values(|c: (String, ColumnType)| (c.0@, c.1))
}

/// Whether some column is called `name`.
pub open spec fn has_column(columns: Seq<(Seq<char>, ColumnType)>, name: Seq<char>) -> bool {
    exists|i: int| 0 <= i < columns.len() && #[trigger] columns[i].0 == name
}

/// `i` is the first column called `name`.
pub open spec fn is_first_column(columns: Seq<(Seq<char>, ColumnType)>, name: Seq<char>, i: int) -> bool {
    &&& 0 <= i < columns.len()
    &&& columns[i].0 == name
    &&& forall|j: int| 0 <= j < i ==> #[trigger] columns[j].0 != name
}

/// The position of the first column called `name`.
pub open spec fn column_position(columns: Seq<(Seq<char>, ColumnType)>, name: Seq<char>) -> int {
    choose|i: int| is_first_column(columns, name, i)
}

/// Below any occurrence of `name` there is a first one.
proof fn lemma_first_below(columns: Seq<(Seq<char>, ColumnType)>, name: Seq<char>, k: int)
    requires
        0 <= k < columns.len(),
        columns[k].0 == name,
    ensures
        exists|i: int| is_first_column(columns, name, i),
    decreases k,
{
    if exists|j: int| 0 <= j < k && #[trigger] columns[j].0 == name {
        let j = choose|j: int| 0 <= j < k && #[trigger] columns[j].0 == name;
        lemma_first_below(columns, name, j);
    } else {
        assert(is_first_column(columns, name, k));
    }
}

/// A column that exists has a first occurrence, and it is the position.
pub proof fn lemma_column_position(columns: Seq<(Seq<char>, ColumnType)>, name: Seq<char>)
    requires
        has_column(columns, name),
    ensures
        is_first_column(columns, name, column_position(columns, name)),
{
    let k = choose|i: int| 0 <= i < columns.len() && #[trigger] columns[i].0 == name;
    lemma_first_below(columns, name, k);
}

/// A table of rows sharing named, typed columns.
#[derive(Debug)]
pub struct Dataset {
    columns: Vec<(String, ColumnType)>,
    rows: Vec<Row>,
}

impl View for Dataset {
    type V = DatasetModel;

    closed spec fn view(&self) -> DatasetModel {
        DatasetModel {
            columns: columns_model(self.columns@),
            rows: self.rows@.map_values(|r: Row| r@),
        }
    }
}

impl Dataset {
    /// An empty dataset with the given columns.
    pub fn new(columns: Vec<(String, ColumnType)>) -> (d: Dataset)
        ensures
            d@.columns == columns_model(columns@),
            d@.rows == Seq::<Seq<ValueModel>>::empty(),
    {
        let d = Dataset { columns, rows: Vec::new() };
        assert(d@.rows =~= Seq::<Seq<ValueModel>>::empty());
        d
    }

    /// The columns, in order.
    pub fn columns(&self) -> (c: &Vec<(String, ColumnType)>)
        ensures
            columns_model(c@) == self@.columns,
    {
        &self.columns
    }

    /// The rows, in insertion order.
    pub fn rows(&self) -> (r: &Vec<Row>)
        ensures
            r@.map_values(|x: Row| x@) == self@.rows,
    {
        &self.rows
    }

    /// The number of rows.
    pub fn len(&self) -> (n: usize)
        ensures
            n == self@.rows.len(),
    {
        self.rows.len()
    }

    /// Appends a row.
    pub fn add_row(&mut self, row: Row)
        ensures
            final(self)@.columns == old(self)@.columns,
            final(self)@.rows == old(self)@.rows.push(row@),
    {
        self.rows.push(row);
        assert(self@.rows =~= old(self)@.rows.push(row@));
    }

    /// Takes the rows out of the dataset.
    pub fn into_rows(self) -> (rows: Vec<Row>)
        ensures
            rows@.map_values(|x: Row| x@) == self@.rows,
    {
        self.rows
    }

    /// The position of the first column called `name`.
    pub fn column_index(&self, name: &String) -> (i: usize)
        requires
            has_column(self@.columns, name@),
        ensures
            i == column_position(self@.columns, name@),
            is_first_column(self@.columns, name@, i as int),
    {
        proof {
            lemma_column_position(self@.columns, name@);
        }
        let mut i: usize = 0;
        while i < self.columns.len()
            invariant
                i <= self.columns@.len(),
                has_column(self@.columns, name@),
                is_first_column(self@.columns, name@, column_position(self@.columns, name@)),
                forall|j: int| 0 <= j < i ==> #[trigger] self@.columns[j].0 != name@,
            decreases self.columns@.len() - i,
        {
            if self.columns[i].0.eq(name) {
                proof {
                    let p = column_position(self@.columns, name@);
                    assert(self@.columns[i as int].0 == name@);
                    assert(!(p < i));
                    assert(!(i < p));
                }
                return i;
            }
            i = i + 1;
        }
        proof {
            let p = column_position(self@.columns, name@);
            assert(self@.columns[p].0 == name@);
        }
        0
    }

    /// The type of the first column called `name`.
    pub fn column_type(&self, name: &String) -> (t: &ColumnType)
        requires
            has_column(self@.columns, name@),
        ensures
            *t == self@.columns[column_position(self@.columns, name@)].1,
    {
        let i = self.column_index(name);
        &self.columns[i].1
    }
}

} // verus!
