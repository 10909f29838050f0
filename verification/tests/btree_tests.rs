use dbcore::ast::Value;
use dbcore::btree::BPTree;
use dbcore::database::RecordID;
use dbcore::errors::DbError;

fn rid(page: u32, slot: u8) -> RecordID {
    RecordID::new(page, slot)
}

#[test]
fn round_trip_with_splits() {
    let mut tree = BPTree::new(3);
    let keys: Vec<i64> = vec![8, 3, 14, 1, 9, 12, 2, 20, 7, 5, 16, 4, 11, 18, 6, 0, 13];
    for (i, k) in keys.iter().enumerate() {
        let r = tree.insert(Value::Integer(*k), rid(0, i as u8));
        assert_eq!(r, Ok(()));
    }
    for (i, k) in keys.iter().enumerate() {
        assert_eq!(tree.lookup(&Value::Integer(*k)), Some(rid(0, i as u8)));
    }
    assert_eq!(tree.lookup(&Value::Integer(99)), None);
    assert_eq!(tree.lookup(&Value::Null), None);
}

#[test]
fn duplicate_key_is_rejected_and_value_kept() {
    let mut tree = BPTree::new(4);
    assert_eq!(tree.insert(Value::Integer(7), rid(1, 1)), Ok(()));
    assert_eq!(
        tree.insert(Value::Integer(7), rid(2, 2)),
        Err(DbError::DuplicateKey)
    );
    assert_eq!(tree.lookup(&Value::Integer(7)), Some(rid(1, 1)));
}

#[test]
fn inorder_traversal_is_strictly_increasing() {
    let mut tree = BPTree::new(3);
    let keys: Vec<i64> = vec![42, -3, 17, 0, 25, -10, 8, 99, 55, 31, 2, -7, 63];
    for (i, k) in keys.iter().enumerate() {
        assert_eq!(tree.insert(Value::Integer(*k), rid(i as u32, 0)), Ok(()));
    }
    assert_eq!(tree.insert(Value::Null, rid(200, 0)), Ok(()));
    let entries = tree.entries();
    assert_eq!(entries.len(), keys.len() + 1);
    for w in entries.windows(2) {
        assert!(w[0].key < w[1].key);
    }
    assert_eq!(entries.last().unwrap().key, Value::Null);
}

#[test]
fn null_sorts_after_every_integer() {
    let mut tree = BPTree::new(3);
    assert_eq!(tree.insert(Value::Null, rid(0, 0)), Ok(()));
    assert_eq!(tree.insert(Value::Integer(i64::MAX), rid(0, 1)), Ok(()));
    assert_eq!(tree.insert(Value::Integer(i64::MIN), rid(0, 2)), Ok(()));
    let entries = tree.entries();
    assert_eq!(entries[0].key, Value::Integer(i64::MIN));
    assert_eq!(entries[1].key, Value::Integer(i64::MAX));
    assert_eq!(entries[2].key, Value::Null);
    assert_eq!(tree.lookup(&Value::Null), Some(rid(0, 0)));
}

#[test]
fn range_is_inclusive_and_ordered() {
    let mut tree = BPTree::new(3);
    for k in 0..10i64 {
        assert_eq!(tree.insert(Value::Integer(k), rid(0, k as u8)), Ok(()));
    }
    let got = tree.range(&Value::Integer(3), &Value::Integer(7));
    let keys: Vec<Value> = got.iter().map(|e| e.key).collect();
    assert_eq!(
        keys,
        vec![
            Value::Integer(3),
            Value::Integer(4),
            Value::Integer(5),
            Value::Integer(6),
            Value::Integer(7)
        ]
    );
    let all = tree.range(&Value::Integer(i64::MIN), &Value::Null);
    assert_eq!(all.len(), 10);
    let none = tree.range(&Value::Integer(100), &Value::Integer(200));
    assert_eq!(none.len(), 0);
}

#[test]
fn many_sequential_inserts_stay_consistent() {
    let mut tree = BPTree::new(3);
    for k in 0..200i64 {
        assert_eq!(tree.insert(Value::Integer(k), rid(0, (k % 256) as u8)), Ok(()));
    }
    for k in 0..200i64 {
        assert_eq!(
            tree.lookup(&Value::Integer(k)),
            Some(rid(0, (k % 256) as u8))
        );
    }
    let entries = tree.entries();
    assert_eq!(entries.len(), 200);
    for (i, e) in entries.iter().enumerate() {
        assert_eq!(e.key, Value::Integer(i as i64));
    }
}
