use vstd::prelude::*;

use crate::errors::DbError;

verus! {

/// A parsed statement, as handed to the engine by an external parser.
#[derive(Debug, PartialEq)]
pub enum Ast {
    Exit,
    Create(TableSchema),
    Insert(Insertion),
    Select(Selection),
}

/// The columns a selection asks for: all of them, or a list of names.
#[derive(Debug, Clone, PartialEq)]
pub enum ColumnSet {
    WildCard,
    Names(Vec<String>),
}

/// A cell value: a signed 64-bit integer, or the null marker.
/// All integers order below `Null`; two `Null`s are equal ("nulls sort last").
#[derive(Debug, Clone, Copy, PartialEq, Eq, Hash, PartialOrd, Ord, Structural)]
pub enum Value {
    Integer(i64),
    Null,
}

/// The position of a value in the total order on `Value`: an integer is its
/// own magnitude, and `Null` ranks strictly above every integer.
pub open spec fn value_rank(v: Value) -> int {
    match v {
        Value::Integer(i) => i as int,
        Value::Null => i64::MAX + 1,
    }
}

/// Strict order test on values, following `value_rank`.
pub fn value_lt(a: &Value, b: &Value) -> (r: bool)
    ensures
        r == (value_rank(*a) < value_rank(*b)),
{
    match (a, b) {
        (Value::Integer(x), Value::Integer(y)) => *x < *y,
        (Value::Integer(_), Value::Null) => true,
        (Value::Null, _) => false,
    }
}

/// True when the two column sets name the same columns.
pub open spec fn column_set_matches(a: ColumnSet, b: ColumnSet) -> bool {
    match (a, b) {
        (ColumnSet::WildCard, ColumnSet::WildCard) => true,
        (ColumnSet::Names(x), ColumnSet::Names(y)) => x@ == y@,
        _ => false,
    }
}

fn clone_strings(v: &Vec<String>) -> (r: Vec<String>)
    ensures
        r@ == v@,
{
    let mut r: Vec<String> = Vec::new();
    let mut i: usize = 0;
    while i < v.len()
        invariant
            i <= v.len(),
            r@ == v@.subrange(0, i as int),
        decreases v.len() - i,
    {
        r.push(v[i].clone());
        i = i + 1;
        proof {
            assert(r@ =~= v@.subrange(0, i as int));
        }
    }
    proof {
        assert(r@ =~= v@);
    }
    r
}

/// A projection over one table.
#[derive(Debug, Clone, PartialEq)]
pub struct Selection {
    pub table_name: String,
    pub columns: ColumnSet,
}

impl Selection {
    pub fn new(table_name: &str, columns: ColumnSet) -> (r: Selection)
        ensures
            r.table_name@ == table_name@,
            r.columns == columns,
    {
        Selection { table_name: table_name.to_owned(), columns }
    }

    /// A selection is structurally well-formed as it stands; column existence
    /// is checked later, against the schema, by the executor.
    pub fn validate(&self) -> (r: Result<(), DbError>)
        ensures
            r == Ok::<(), DbError>(()),
    {
        Ok(())
    }

    pub fn table_name(&self) -> (r: &String)
        ensures
            r@ == self.table_name@,
    {
        &self.table_name
    }

    pub fn columns(&self) -> (r: ColumnSet)
        ensures
            column_set_matches(r, self.columns),
    {
        match &self.columns {
            ColumnSet::WildCard => ColumnSet::WildCard,
            ColumnSet::Names(v) => ColumnSet::Names(clone_strings(v)),
        }
    }
}

/// One column of a table schema.
#[derive(Debug, PartialEq)]
pub struct Column {
    pub name: String,
    pub is_primary_key: bool,
}

impl Clone for Column {
    fn clone(&self) -> (r: Self)
        ensures
            r == *self,
    {
        Column { name: self.name.clone(), is_primary_key: self.is_primary_key }
    }
}

impl Column {
    pub fn new(name: &str, is_primary_key: bool) -> (r: Column)
        ensures
            r.name@ == name@,
            r.is_primary_key == is_primary_key,
    {
        Column { name: name.to_owned(), is_primary_key }
    }
}

/// True when an earlier column already uses the name of column `i`.
pub open spec fn dup_name_before(cols: Seq<Column>, i: int) -> bool {
    exists|j: int| 0 <= j < i && cols[j].name@ == cols[i].name@
}

/// True when a column before `i` is already marked as the primary key.
pub open spec fn pk_before(cols: Seq<Column>, i: int) -> bool {
    exists|j: int| 0 <= j < i && cols[j].is_primary_key
}

/// True when column `i` breaks a schema rule: a repeated name, or a second primary key.
pub open spec fn violation_at(cols: Seq<Column>, i: int) -> bool {
    dup_name_before(cols, i) || (cols[i].is_primary_key && pk_before(cols, i))
}

/// A schema is valid when column names are unique and at most one column
/// is marked as the primary key.
pub open spec fn schema_ok(cols: Seq<Column>) -> bool {
    forall|i: int| 0 <= i < cols.len() ==> !violation_at(cols, i)
}

/// True when `e` is the error for the first rule violation in the columns,
/// walked in order, with a repeated name reported ahead of a second primary
/// key on the same column.
pub open spec fn is_first_schema_error(cols: Seq<Column>, table: String, e: DbError) -> bool {
    exists|i: int|
        0 <= i < cols.len() && #[trigger] violation_at(cols, i) && (forall|j: int|
            0 <= j < i ==> !violation_at(cols, j)) && e == (if dup_name_before(cols, i) {
            DbError::DuplicateColumn(cols[i].name)
        } else {
            DbError::MultiplePrimaryKeys(table)
        })
}

/// A table definition: a name and its columns.
#[derive(Debug, PartialEq)]
pub struct TableSchema {
    pub name: String,
    pub columns: Vec<Column>,
}

impl Clone for TableSchema {
    fn clone(&self) -> (r: Self)
        ensures
            r.name == self.name,
            r.columns@ == self.columns@,
    {
        TableSchema { name: self.name.clone(), columns: self.columns.clone() }
    }
}

impl TableSchema {
    pub fn new(name: &str, columns: Vec<Column>) -> (r: TableSchema)
        ensures
            r.name@ == name@,
            r.columns == columns,
    {
        TableSchema { name: name.to_owned(), columns }
    }

    pub fn table_name(&self) -> (r: String)
        ensures
            r == self.name,
    {
        self.name.clone()
    }

    pub fn columns(&self) -> (r: Vec<Column>)
        ensures
            r@ == self.columns@,
    {
        self.columns.clone()
    }

    /// Checks the schema rules, walking the columns in order: the reported
    /// error is the first violation, with a repeated name reported ahead of
    /// a second primary key on the same column.
    pub fn validate(&self) -> (r: Result<(), DbError>)
        ensures
            r is Ok <==> schema_ok(self.columns@),
            r matches Err(e) ==> is_first_schema_error(self.columns@, self.name, e),
    {
        let n = self.columns.len();
        let mut i: usize = 0;
        let mut has_pk = false;
        while i < n
            invariant
                n == self.columns@.len(),
                i <= n,
                has_pk == pk_before(self.columns@, i as int),
                forall|j: int| 0 <= j < i ==> !violation_at(self.columns@, j),
            decreases n - i,
        {
            let mut j: usize = 0;
            while j < i
                invariant
                    i < n,
                    n == self.columns@.len(),
                    j <= i,
                    forall|l: int|
                        0 <= l < j ==> self.columns@[l].name@ != self.columns@[i as int].name@,
                    forall|l: int| 0 <= l < i ==> !violation_at(self.columns@, l),
                decreases i - j,
            {
                if self.columns[j].name == self.columns[i].name {
                    proof {
                        assert(self.columns@[j as int].name@ == self.columns@[i as int].name@);
                        assert(dup_name_before(self.columns@, i as int));
                        assert(violation_at(self.columns@, i as int));
                    }
                    let e = DbError::DuplicateColumn(self.columns[i].name.clone());
                    proof {
                        assert(0 <= i && (i as int) < self.columns@.len() && violation_at(
                            self.columns@,
                            i as int,
                        ) && (forall|jj: int| 0 <= jj < i as int ==> !violation_at(
                            self.columns@,
                            jj,
                        )) && e == (if dup_name_before(self.columns@, i as int) {
                            DbError::DuplicateColumn(self.columns@[i as int].name)
                        } else {
                            DbError::MultiplePrimaryKeys(self.name)
                        }));
                    }
                    return Err(e);
                }
                j = j + 1;
            }
            proof {
                assert(!dup_name_before(self.columns@, i as int));
            }
            if self.columns[i].is_primary_key {
                if has_pk {
                    proof {
                        assert(violation_at(self.columns@, i as int));
                    }
                    return Err(DbError::MultiplePrimaryKeys(self.name.clone()));
                }
                has_pk = true;
            }
            i = i + 1;
        }
        Ok(())
    }
}

/// A row insertion: the target table, optionally the columns named by the
/// statement, and the values to store.
#[derive(Debug, PartialEq)]
pub struct Insertion {
    pub table_name: String,
    pub column_names: Option<Vec<String>>,
    pub values: Vec<Value>,
}

impl Insertion {
    pub fn new(table_name: &str, column_names: Option<Vec<String>>, values: Vec<Value>) -> (r:
        Insertion)
        ensures
            r.table_name@ == table_name@,
            r.column_names == column_names,
            r.values == values,
    {
        Insertion { table_name: table_name.to_owned(), column_names, values }
    }

    /// True when the value count agrees with the named-column count (or no
    /// columns are named, leaving the values positional).
    pub open spec fn arity_ok(self) -> bool {
        match self.column_names {
            None => true,
            Some(ns) => ns@.len() == self.values@.len(),
        }
    }

    /// Checks the arity rule: with named columns, exactly one value per name.
    pub fn validate(&self) -> (r: Result<(), DbError>)
        ensures
            r is Ok <==> self.arity_ok(),
            r matches Err(e) ==> self.column_names matches Some(ns) && (e matches
                DbError::ArityMismatch { values, columns } && values == self.values@.len()
                && columns == ns@.len()),
    {
        match &self.column_names {
            None => Ok(()),
            Some(ns) => {
                if self.values.len() != ns.len() {
                    Err(DbError::ArityMismatch { values: self.values.len(), columns: ns.len() })
                } else {
                    Ok(())
                }
            },
        }
    }

    pub fn column_names(&self) -> (r: Option<Vec<String>>)
        ensures
            match r {
                None => self.column_names is None,
                Some(v) => self.column_names matches Some(v0) && v@ == v0@,
            },
    {
        match &self.column_names {
            None => None,
            Some(ns) => Some(clone_strings(ns)),
        }
    }

    pub fn values(&self) -> (r: Vec<Value>)
        ensures
            r@ == self.values@,
    {
        let mut r: Vec<Value> = Vec::new();
        let mut i: usize = 0;
        while i < self.values.len()
            invariant
                i <= self.values@.len(),
                r@ == self.values@.subrange(0, i as int),
            decreases self.values@.len() - i,
        {
            r.push(self.values[i]);
            i = i + 1;
            proof {
                assert(r@ =~= self.values@.subrange(0, i as int));
            }
        }
        proof {
            assert(r@ =~= self.values@);
        }
        r
    }
}

} // verus!
