use dbcore::ast::{Ast, Column, ColumnSet, Insertion, Selection, TableSchema, Value};
use dbcore::errors::DbError;
use std::cmp::Ordering;

#[test]
fn ast_nodes_compare_structurally() {
    let create = Ast::Create(TableSchema::new(
        "apples",
        vec![Column::new("slices", false)],
    ));
    assert_eq!(
        create,
        Ast::Create(TableSchema {
            name: "apples".to_string(),
            columns: vec![Column::new("slices", false)],
        })
    );
    let insert = Ast::Insert(Insertion::new(
        "apples",
        Some(vec!["slices".to_string()]),
        vec![Value::Integer(15)],
    ));
    assert_ne!(insert, Ast::Exit);
    match insert {
        Ast::Insert(ins) => assert_eq!(ins.validate(), Ok(())),
        _ => panic!("expected an insertion"),
    }
}

#[test]
fn validation_fails_if_num_values_neq_num_columns() {
    let table_name = "eggs";
    let insertion = Insertion::new(
        table_name,
        Some(vec!["count".to_string()]),
        vec![Value::Integer(32), Value::Integer(1337)],
    );
    let result = insertion.validate();
    assert_eq!(result.is_err(), true);
}

#[test]
fn validation_fails_if_there_are_duplicate_column_names() {
    let table_schema = TableSchema::new(
        "kings",
        vec![Column::new("henry", false), Column::new("henry", false)],
    );

    let result = table_schema.validate();
    assert_eq!(result.is_err(), true);
}

#[test]
fn validation_fails_if_there_are_duplicate_primary_keys() {
    let table_schema = TableSchema::new(
        "kings",
        vec![Column::new("henry", true), Column::new("james", true)],
    );

    let result = table_schema.validate();
    assert_eq!(result.is_err(), true);
}

#[test]
fn arity_mismatch_reports_both_counts() {
    let insertion = Insertion::new(
        "eggs",
        Some(vec!["count".to_string()]),
        vec![Value::Integer(32), Value::Integer(1337)],
    );
    assert_eq!(
        insertion.validate(),
        Err(DbError::ArityMismatch { values: 2, columns: 1 })
    );
}

#[test]
fn insertion_without_named_columns_validates() {
    let insertion = Insertion::new("eggs", None, vec![Value::Integer(1), Value::Null]);
    assert_eq!(insertion.validate(), Ok(()));
    assert!(insertion.column_names().is_none());
    assert_eq!(insertion.values(), vec![Value::Integer(1), Value::Null]);
}

#[test]
fn insertion_accessors_hand_back_what_was_given() {
    let insertion = Insertion::new(
        "apples",
        Some(vec!["slices".to_string()]),
        vec![Value::Integer(15)],
    );
    assert_eq!(insertion.table_name, "apples".to_string());
    assert_eq!(insertion.column_names(), Some(vec!["slices".to_string()]));
    assert_eq!(insertion.values(), vec![Value::Integer(15)]);
    assert_eq!(insertion.validate(), Ok(()));
}

#[test]
fn duplicate_column_error_names_the_column() {
    let table_schema = TableSchema::new(
        "kings",
        vec![Column::new("henry", false), Column::new("henry", false)],
    );
    assert_eq!(
        table_schema.validate(),
        Err(DbError::DuplicateColumn("henry".to_string()))
    );
}

#[test]
fn duplicate_primary_key_error_names_the_table() {
    let table_schema = TableSchema::new(
        "kings",
        vec![Column::new("henry", true), Column::new("james", true)],
    );
    assert_eq!(
        table_schema.validate(),
        Err(DbError::MultiplePrimaryKeys("kings".to_string()))
    );
}

#[test]
fn valid_schema_passes_validation() {
    let table_schema = TableSchema::new(
        "kings",
        vec![Column::new("henry", true), Column::new("james", false)],
    );
    assert_eq!(table_schema.validate(), Ok(()));
    assert_eq!(table_schema.table_name(), "kings".to_string());
    assert_eq!(table_schema.columns().len(), 2);
}

#[test]
fn error_messages_are_descriptive() {
    assert_eq!(
        DbError::DuplicateColumn("henry".to_string()).message(),
        "duplicate column name: henry"
    );
    assert_eq!(
        DbError::MultiplePrimaryKeys("kings".to_string()).message(),
        "table kings has more than one primary key"
    );
    assert_eq!(
        DbError::AlreadyExists("fruit".to_string()).message(),
        "table fruit already exists"
    );
    assert_eq!(
        DbError::NoSuchTable("bananas".to_string()).message(),
        "no such table: bananas"
    );
    assert_eq!(DbError::DuplicateKey.message(), "duplicate key");
    assert_eq!(
        DbError::ArityMismatch { values: 2, columns: 1 }.message(),
        "2 values for 1 columns"
    );
    assert_eq!(
        DbError::ArityMismatch { values: 120, columns: 305 }.message(),
        "120 values for 305 columns"
    );
}

#[test]
fn value_cmp_orders_integers_below_null() {
    assert_eq!(Value::Integer(5).cmp(&Value::Integer(10)), Ordering::Less);
    assert_eq!(Value::Null.cmp(&Value::Integer(i64::MAX)), Ordering::Greater);
    assert_eq!(Value::Null.cmp(&Value::Null), Ordering::Equal);
    assert_eq!(
        Value::Integer(7).partial_cmp(&Value::Null),
        Some(Ordering::Less)
    );
}

#[test]
fn value_ordering() {
    assert!(Value::Integer(5) < Value::Integer(10));
    assert!(Value::Integer(10) < Value::Null);
    assert!(Value::Integer(5) < Value::Null);
    assert!(Value::Integer(i64::MAX) < Value::Null);
    assert_eq!(Value::Null, Value::Null);
    assert_eq!(Value::Integer(5), Value::Integer(5));
}

#[test]
fn selection_always_validates() {
    let selection = Selection::new("apples", ColumnSet::WildCard);
    assert_eq!(selection.validate(), Ok(()));
    assert_eq!(selection.table_name(), &"apples".to_string());
    assert_eq!(selection.columns(), ColumnSet::WildCard);

    let named = Selection::new("apples", ColumnSet::Names(vec!["slices".to_string()]));
    assert_eq!(named.validate(), Ok(()));
    assert_eq!(named.columns(), ColumnSet::Names(vec!["slices".to_string()]));
}
