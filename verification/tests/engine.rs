//! Behaviour of the in-memory store: creation, lookup, insertion,
//! validation and deletion.

use tangue::error::StoreError;
use tangue::store::Store;
use tangue::table::{Column, Row};
use tangue::value::{ColumnKind, Value};

fn col(name: &str, kind: ColumnKind) -> Column {
    Column { name: name.to_string(), kind }
}

fn row(entries: Vec<(&str, Value)>) -> Row {
    Row { entries: entries.into_iter().map(|(k, v)| (k.to_string(), v)).collect() }
}

#[test]
fn create_and_list_tables() {
    let mut store = Store::new();
    assert_eq!(store.table_count(), 0);
    assert!(store.create_table("alpha".to_string(), vec![]).is_ok());
    assert!(store
        .create_table("beta".to_string(), vec![col("n", ColumnKind::Integer)])
        .is_ok());
    let names = store.list_tables();
    assert_eq!(names, vec!["alpha".to_string(), "beta".to_string()]);
    assert_eq!(store.table_count(), 2);
}

#[test]
fn create_duplicate_fails_and_preserves_table() {
    let mut store = Store::new();
    store
        .create_table("t".to_string(), vec![col("n", ColumnKind::Integer)])
        .unwrap();
    store
        .insert_row(&"t".to_string(), row(vec![("n", Value::Integer(1))]))
        .unwrap();
    let r = store.create_table("t".to_string(), vec![col("other", ColumnKind::Text)]);
    assert_eq!(r.unwrap_err(), StoreError::TableExists);
    let summary = store.get_table(&"t".to_string()).unwrap();
    assert_eq!(summary.columns, vec![col("n", ColumnKind::Integer)]);
    assert_eq!(summary.row_count, 1);
    let rows = store.list_rows(&"t".to_string()).unwrap();
    assert_eq!(rows, vec![row(vec![("n", Value::Integer(1))])]);
}

#[test]
fn table_names_are_case_sensitive() {
    let mut store = Store::new();
    assert!(store.create_table("Users".to_string(), vec![]).is_ok());
    assert!(store.create_table("users".to_string(), vec![]).is_ok());
    assert_eq!(store.table_count(), 2);
}

#[test]
fn generated_table_id_is_hyphenated_uuid_form() {
    let mut store = Store::new();
    let summary = store.create_table("t".to_string(), vec![]).unwrap();
    assert_eq!(summary.id.len(), 36);
    let summary2 = store.get_table(&"t".to_string()).unwrap();
    assert_eq!(summary.id, summary2.id);
}

#[test]
fn insert_missing_column_fails_and_changes_nothing() {
    let mut store = Store::new();
    store
        .create_table("t".to_string(), vec![col("n", ColumnKind::Integer)])
        .unwrap();
    let r = store.insert_row(&"t".to_string(), row(vec![("other", Value::Integer(1))]));
    assert_eq!(r.unwrap_err(), StoreError::MissingColumn("n".to_string()));
    assert_eq!(store.get_table(&"t".to_string()).unwrap().row_count, 0);
    assert_eq!(store.list_rows(&"t".to_string()).unwrap(), vec![]);
}

#[test]
fn insert_type_mismatch_fails_and_changes_nothing() {
    let mut store = Store::new();
    store
        .create_table("t".to_string(), vec![col("n", ColumnKind::Integer)])
        .unwrap();
    let r = store.insert_row(&"t".to_string(), row(vec![("n", Value::Text("five".to_string()))]));
    assert_eq!(r.unwrap_err(), StoreError::TypeMismatch("n".to_string()));
    assert_eq!(store.get_table(&"t".to_string()).unwrap().row_count, 0);
}

#[test]
fn integer_column_rejects_fractional_float_but_float_column_accepts_integer() {
    let mut store = Store::new();
    store
        .create_table(
            "t".to_string(),
            vec![col("i", ColumnKind::Integer), col("f", ColumnKind::Float)],
        )
        .unwrap();
    let bits = 1.5f64.to_bits();
    let r = store.insert_row(
        &"t".to_string(),
        row(vec![("i", Value::Float(bits)), ("f", Value::Float(bits))]),
    );
    assert_eq!(r.unwrap_err(), StoreError::TypeMismatch("i".to_string()));
    let ok = store.insert_row(
        &"t".to_string(),
        row(vec![("i", Value::Integer(3)), ("f", Value::Integer(3))]),
    );
    assert_eq!(ok.unwrap(), 1);
}

#[test]
fn integer_column_accepts_whole_floats() {
    let mut store = Store::new();
    store
        .create_table("t".to_string(), vec![col("n", ColumnKind::Integer)])
        .unwrap();
    for (i, whole) in [5.0f64, -0.0, 0.0, -3.0, 9007199254740993.0, 2f64.powi(80)]
        .iter()
        .enumerate()
    {
        let count = store
            .insert_row(&"t".to_string(), row(vec![("n", Value::Float(whole.to_bits()))]))
            .unwrap();
        assert_eq!(count, i + 1);
    }
}

#[test]
fn integer_column_rejects_non_whole_floats() {
    let mut store = Store::new();
    store
        .create_table("t".to_string(), vec![col("n", ColumnKind::Integer)])
        .unwrap();
    for bad in [
        0.5f64,
        -2.25,
        f64::NAN,
        f64::INFINITY,
        f64::NEG_INFINITY,
        f64::MIN_POSITIVE / 2.0,
    ] {
        let r = store.insert_row(&"t".to_string(), row(vec![("n", Value::Float(bad.to_bits()))]));
        assert_eq!(r.unwrap_err(), StoreError::TypeMismatch("n".to_string()));
    }
    assert_eq!(store.get_table(&"t".to_string()).unwrap().row_count, 0);
}

#[test]
fn float_column_accepts_any_numeric_bits() {
    let mut store = Store::new();
    store
        .create_table("t".to_string(), vec![col("f", ColumnKind::Float)])
        .unwrap();
    let count = store
        .insert_row(
            &"t".to_string(),
            row(vec![("f", Value::Float(f64::NAN.to_bits()))]),
        )
        .unwrap();
    assert_eq!(count, 1);
}

#[test]
fn first_offending_column_in_declaration_order_reports() {
    let mut store = Store::new();
    store
        .create_table(
            "t".to_string(),
            vec![col("a", ColumnKind::Integer), col("b", ColumnKind::Text)],
        )
        .unwrap();
    let r = store.insert_row(&"t".to_string(), row(vec![]));
    assert_eq!(r.unwrap_err(), StoreError::MissingColumn("a".to_string()));
    let r2 = store.insert_row(
        &"t".to_string(),
        row(vec![("a", Value::Text("x".to_string()))]),
    );
    assert_eq!(r2.unwrap_err(), StoreError::TypeMismatch("a".to_string()));
}

#[test]
fn insert_keeps_extra_undeclared_keys_verbatim() {
    let mut store = Store::new();
    store
        .create_table("t".to_string(), vec![col("n", ColumnKind::Integer)])
        .unwrap();
    let candidate = row(vec![
        ("n", Value::Integer(5)),
        ("extra", Value::Text("kept".to_string())),
        (
            "nested",
            Value::Object(vec![("inner".to_string(), Value::Boolean(true))]),
        ),
    ]);
    assert_eq!(store.insert_row(&"t".to_string(), candidate).unwrap(), 1);
    let rows = store.list_rows(&"t".to_string()).unwrap();
    assert_eq!(
        rows,
        vec![row(vec![
            ("n", Value::Integer(5)),
            ("extra", Value::Text("kept".to_string())),
            (
                "nested",
                Value::Object(vec![("inner".to_string(), Value::Boolean(true))]),
            ),
        ])]
    );
}

#[test]
fn full_cycle_create_insert_list() {
    let mut store = Store::new();
    store
        .create_table("t".to_string(), vec![col("n", ColumnKind::Integer)])
        .unwrap();
    let count = store
        .insert_row(&"t".to_string(), row(vec![("n", Value::Integer(5))]))
        .unwrap();
    assert_eq!(count, 1);
    let rows = store.list_rows(&"t".to_string()).unwrap();
    assert_eq!(rows, vec![row(vec![("n", Value::Integer(5))])]);
    assert_eq!(store.get_table(&"t".to_string()).unwrap().row_count, 1);
}

#[test]
fn insert_into_missing_table_fails() {
    let mut store = Store::new();
    let r = store.insert_row(&"ghost".to_string(), row(vec![]));
    assert_eq!(r.unwrap_err(), StoreError::TableNotFound);
}

#[test]
fn get_and_list_rows_of_missing_table_fail() {
    let store = Store::new();
    assert_eq!(
        store.get_table(&"ghost".to_string()).unwrap_err(),
        StoreError::TableNotFound
    );
    assert_eq!(
        store.list_rows(&"ghost".to_string()).unwrap_err(),
        StoreError::TableNotFound
    );
}

#[test]
fn delete_missing_table_fails_and_leaves_store_unchanged() {
    let mut store = Store::new();
    store.create_table("keep".to_string(), vec![]).unwrap();
    let r = store.delete_table(&"ghost".to_string());
    assert_eq!(r.unwrap_err(), StoreError::TableNotFound);
    assert_eq!(store.list_tables(), vec!["keep".to_string()]);
}

#[test]
fn delete_existing_table_removes_it() {
    let mut store = Store::new();
    store.create_table("a".to_string(), vec![]).unwrap();
    store.create_table("b".to_string(), vec![]).unwrap();
    assert!(store.delete_table(&"a".to_string()).is_ok());
    assert_eq!(
        store.get_table(&"a".to_string()).unwrap_err(),
        StoreError::TableNotFound
    );
    assert_eq!(store.list_tables(), vec!["b".to_string()]);
    assert_eq!(store.table_count(), 1);
}

#[test]
fn created_names_minus_deleted_names_remain() {
    let mut store = Store::new();
    store.create_table("a".to_string(), vec![]).unwrap();
    store.create_table("b".to_string(), vec![]).unwrap();
    store.create_table("c".to_string(), vec![]).unwrap();
    store.delete_table(&"b".to_string()).unwrap();
    store.create_table("d".to_string(), vec![]).unwrap();
    store.delete_table(&"a".to_string()).unwrap();
    let names = store.list_tables();
    assert_eq!(names, vec!["c".to_string(), "d".to_string()]);
}

#[test]
fn table_with_no_columns_accepts_any_row() {
    let mut store = Store::new();
    store.create_table("t".to_string(), vec![]).unwrap();
    let count = store
        .insert_row(
            &"t".to_string(),
            row(vec![("anything", Value::Boolean(false))]),
        )
        .unwrap();
    assert_eq!(count, 1);
}

#[test]
fn row_lookup_finds_first_entry() {
    let r = row(vec![
        ("a", Value::Integer(1)),
        ("b", Value::Integer(2)),
        ("a", Value::Integer(3)),
    ]);
    assert_eq!(r.get(&"a".to_string()), Some(&Value::Integer(1)));
    assert_eq!(r.get(&"b".to_string()), Some(&Value::Integer(2)));
    assert_eq!(r.get(&"c".to_string()), None);
}
