//! Behaviour of the snapshot codec: a persisted store reloads identically,
//! and bytes that are not a full, consistent snapshot are refused.

use tangue::snapshot::{decode_store, encode_store};
use tangue::store::Store;
use tangue::table::{Column, Row};
use tangue::value::{ColumnKind, Value};

fn col(name: &str, kind: ColumnKind) -> Column {
    Column { name: name.to_string(), kind }
}

fn row(entries: Vec<(&str, Value)>) -> Row {
    Row { entries: entries.into_iter().map(|(k, v)| (k.to_string(), v)).collect() }
}

#[test]
fn empty_store_round_trips() {
    let store = Store::new();
    let bytes = encode_store(&store);
    let restored = decode_store(&bytes).unwrap();
    assert_eq!(restored.table_count(), 0);
    assert_eq!(restored, store);
}

#[test]
fn populated_store_round_trips_identically() {
    let mut store = Store::new();
    store
        .create_table(
            "people".to_string(),
            vec![
                col("name", ColumnKind::Text),
                col("age", ColumnKind::Integer),
                col("height", ColumnKind::Float),
                col("active", ColumnKind::Boolean),
                col("meta", ColumnKind::Object),
            ],
        )
        .unwrap();
    store
        .insert_row(
            &"people".to_string(),
            row(vec![
                ("name", Value::Text("héllo wörld".to_string())),
                ("age", Value::Integer(-42)),
                ("height", Value::Float(1.75f64.to_bits())),
                ("active", Value::Boolean(true)),
                (
                    "meta",
                    Value::Object(vec![
                        ("note".to_string(), Value::Text("née".to_string())),
                        (
                            "deep".to_string(),
                            Value::Object(vec![("x".to_string(), Value::Integer(7))]),
                        ),
                    ]),
                ),
                ("extra", Value::Text("undeclared".to_string())),
            ]),
        )
        .unwrap();
    store.create_table("empty".to_string(), vec![]).unwrap();
    let bytes = encode_store(&store);
    let restored = decode_store(&bytes).unwrap();
    assert_eq!(restored, store);
    let height = restored.list_rows(&"people".to_string()).unwrap()[0]
        .get(&"height".to_string())
        .cloned();
    assert_eq!(height, Some(Value::Float(1.75f64.to_bits())));
}

#[test]
fn reloaded_store_keeps_serving_operations() {
    let mut store = Store::new();
    store
        .create_table("t".to_string(), vec![col("n", ColumnKind::Integer)])
        .unwrap();
    store
        .insert_row(&"t".to_string(), row(vec![("n", Value::Integer(5))]))
        .unwrap();
    let bytes = encode_store(&store);
    let mut restored = decode_store(&bytes).unwrap();
    let count = restored
        .insert_row(&"t".to_string(), row(vec![("n", Value::Integer(6))]))
        .unwrap();
    assert_eq!(count, 2);
}

#[test]
fn garbage_bytes_are_refused() {
    assert!(decode_store(&vec![1u8, 2, 3]).is_none());
    assert!(decode_store(&vec![0xffu8; 16]).is_none());
}

#[test]
fn truncated_and_padded_snapshots_are_refused() {
    let mut store = Store::new();
    store
        .create_table("t".to_string(), vec![col("n", ColumnKind::Integer)])
        .unwrap();
    let bytes = encode_store(&store);
    let mut truncated = bytes.clone();
    truncated.pop();
    assert!(decode_store(&truncated).is_none());
    let mut padded = bytes.clone();
    padded.push(0);
    assert!(decode_store(&padded).is_none());
}

#[test]
fn snapshot_with_duplicate_table_names_is_refused() {
    let mut a = Store::new();
    a.create_table("same".to_string(), vec![]).unwrap();
    let mut b = Store::new();
    b.create_table("same".to_string(), vec![]).unwrap();
    let forged = Store {
        tables: vec![
            a.tables.into_iter().next().unwrap(),
            b.tables.into_iter().next().unwrap(),
        ],
    };
    let bytes = encode_store(&forged);
    assert!(decode_store(&bytes).is_none());
}
