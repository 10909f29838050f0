use dbcore::ast::{Column, TableSchema, Value};
use dbcore::database::{Database, RecordID, StorageFactory};
use dbcore::errors::DbError;
use dbcore::table::StorageTable;

#[test]
fn test_unique_table_constraint() {
    let mut database = Database::new(StorageFactory::new());

    let table_name = "bank_accounts";
    database
        .create_table(TableSchema::new(table_name, vec![]))
        .expect("first table should be inserted");
    database
        .create_table(TableSchema::new(table_name, vec![]))
        .expect_err("table with the same name should not be inserted");
}

#[test]
fn second_create_reports_already_exists() {
    let mut database = Database::new(StorageFactory::new());
    let schema = TableSchema::new("fruit", vec![Column::new("kind", false)]);
    assert_eq!(database.create_table(schema), Ok(()));
    let again = TableSchema::new("fruit", vec![Column::new("kind", false)]);
    assert_eq!(
        database.create_table(again),
        Err(DbError::AlreadyExists("fruit".to_string()))
    );
}

#[test]
fn distinct_names_all_succeed() {
    let mut database = Database::new(StorageFactory::new());
    for name in ["a", "b", "c", "d"] {
        assert_eq!(
            database.create_table(TableSchema::new(name, vec![])),
            Ok(())
        );
    }
    for name in ["a", "b", "c", "d"] {
        assert_eq!(
            database.create_table(TableSchema::new(name, vec![])),
            Err(DbError::AlreadyExists(name.to_string()))
        );
    }
}

#[test]
fn invalid_schema_is_rejected_by_the_factory() {
    let mut database = Database::new(StorageFactory::new());
    let schema = TableSchema::new(
        "kings",
        vec![Column::new("henry", false), Column::new("henry", false)],
    );
    assert_eq!(
        database.create_table(schema),
        Err(DbError::DuplicateColumn("henry".to_string()))
    );
    let valid = TableSchema::new("kings", vec![Column::new("henry", false)]);
    assert_eq!(database.create_table(valid), Ok(()));
}

#[test]
fn end_to_end_create_and_insert() {
    let mut database = Database::new(StorageFactory::new());
    let schema = TableSchema::new("apples", vec![Column::new("slices", false)]);
    assert_eq!(database.create_table(schema), Ok(()));
    assert_eq!(
        database.insert("apples", vec![Value::Integer(15)]),
        Ok(())
    );
    assert_eq!(
        database.insert("bananas", vec![Value::Integer(15)]),
        Err(DbError::NoSuchTable("bananas".to_string()))
    );
}

#[test]
fn insert_reaches_exactly_the_addressed_table() {
    let mut database = Database::new(StorageFactory::new());
    let a = TableSchema::new("a", vec![Column::new("id", true)]);
    let b = TableSchema::new("b", vec![Column::new("id", true)]);
    assert_eq!(database.create_table(a), Ok(()));
    assert_eq!(database.create_table(b), Ok(()));
    assert_eq!(database.insert("a", vec![Value::Integer(1)]), Ok(()));
    assert_eq!(
        database.insert("a", vec![Value::Integer(1)]),
        Err(DbError::DuplicateKey)
    );
    assert_eq!(database.insert("b", vec![Value::Integer(1)]), Ok(()));
}

#[test]
fn insert_surfaces_the_tables_verdict() {
    let mut database = Database::new(StorageFactory::new());
    let schema = TableSchema::new("apples", vec![Column::new("slices", false)]);
    assert_eq!(database.create_table(schema), Ok(()));
    assert_eq!(
        database.insert("apples", vec![Value::Integer(1), Value::Integer(2)]),
        Err(DbError::ArityMismatch { values: 2, columns: 1 })
    );
    assert_eq!(database.insert("apples", vec![Value::Integer(1)]), Ok(()));
}

#[test]
fn table_insert_returns_record_ids_in_order() {
    let schema = TableSchema::new("apples", vec![Column::new("slices", false)]);
    let mut table = StorageTable::new(schema).expect("schema is valid");
    let first = table.insert_row(vec![Value::Integer(15)]).expect("fits");
    assert_eq!(first, RecordID::new(0, 0));
    let second = table.insert_row(vec![Value::Integer(16)]).expect("fits");
    assert_eq!(second, RecordID::new(0, 1));
}

#[test]
fn table_insert_checks_arity() {
    let schema = TableSchema::new("apples", vec![Column::new("slices", false)]);
    let mut table = StorageTable::new(schema).expect("schema is valid");
    assert_eq!(
        table.insert_row(vec![Value::Integer(1), Value::Integer(2)]),
        Err(DbError::ArityMismatch { values: 2, columns: 1 })
    );
}

#[test]
fn duplicate_primary_key_is_rejected() {
    let schema = TableSchema::new(
        "people",
        vec![Column::new("id", true), Column::new("age", false)],
    );
    let mut table = StorageTable::new(schema).expect("schema is valid");
    assert!(table
        .insert_row(vec![Value::Integer(1), Value::Integer(30)])
        .is_ok());
    assert_eq!(
        table.insert_row(vec![Value::Integer(1), Value::Integer(31)]),
        Err(DbError::DuplicateKey)
    );
    assert!(table
        .insert_row(vec![Value::Integer(2), Value::Integer(31)])
        .is_ok());
}

#[test]
fn record_ids_roll_over_to_the_next_page() {
    let schema = TableSchema::new("logs", vec![Column::new("seq", false)]);
    let mut table = StorageTable::new(schema).expect("schema is valid");
    let mut last = RecordID::new(0, 0);
    for k in 0..257i64 {
        last = table.insert_row(vec![Value::Integer(k)]).expect("fits");
    }
    assert_eq!(last, RecordID::new(1, 0));
}

#[test]
fn record_id_new_keeps_its_fields() {
    let r = RecordID::new(7, 3);
    assert_eq!(r.page_number, 7);
    assert_eq!(r.slot_id, 3);
}
