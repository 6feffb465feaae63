use pluck_engine::columnar::{
    check_layout, normalize, normalize_columnar, normalize_columnar_batch, same_names,
    to_columns, to_record, to_records, TableError,
};
use pluck_engine::value::{Row, Value};

fn s(text: &str) -> String {
    text.to_string()
}

fn obj(entries: Vec<(&str, Value)>) -> Value {
    Value::Object(entries.into_iter().map(|(k, v)| (k.to_string(), v)).collect())
}

fn row(cells: Vec<(&str, Value)>) -> Row {
    cells.into_iter().map(|(k, v)| (k.to_string(), v)).collect()
}

fn column(name: &str, values: Vec<Value>) -> (String, Vec<Value>) {
    (name.to_string(), values)
}

#[test]
fn record_keeps_each_name_once_with_its_last_value() {
    let cells = row(vec![
        ("a", Value::Int(1)),
        ("b", Value::Int(2)),
        ("a", Value::Int(3)),
        ("c", Value::Int(4)),
        ("b", Value::Int(5)),
    ]);
    assert_eq!(
        to_record(&cells),
        row(vec![("a", Value::Int(3)), ("b", Value::Int(5)), ("c", Value::Int(4))])
    );
}

#[test]
fn record_of_distinct_names_is_the_row() {
    let cells = row(vec![("x", Value::Null), ("y", Value::Bool(true))]);
    assert_eq!(to_record(&cells), cells);
    assert_eq!(to_record(&row(vec![])), row(vec![]));
}

#[test]
fn records_are_made_row_by_row() {
    let rows = vec![
        row(vec![("a", Value::Int(1)), ("a", Value::Int(2))]),
        row(vec![("b", Value::Int(3))]),
    ];
    assert_eq!(
        to_records(&rows),
        vec![row(vec![("a", Value::Int(2))]), row(vec![("b", Value::Int(3))])]
    );
}

#[test]
fn columns_follow_the_first_row() {
    let rows = vec![
        row(vec![("a", Value::Int(1)), ("b", Value::Str(s("x")))]),
        row(vec![("a", Value::Int(2)), ("b", Value::Str(s("y")))]),
        row(vec![("a", Value::Null), ("b", Value::Str(s("z")))]),
    ];
    assert_eq!(
        to_columns(&rows),
        Ok(vec![
            column("a", vec![Value::Int(1), Value::Int(2), Value::Null]),
            column("b", vec![Value::Str(s("x")), Value::Str(s("y")), Value::Str(s("z"))]),
        ])
    );
}

#[test]
fn columns_keep_the_last_of_a_repeated_name() {
    let rows = vec![
        row(vec![("a", Value::Int(1)), ("b", Value::Int(2)), ("a", Value::Int(3))]),
        row(vec![("a", Value::Int(4)), ("b", Value::Int(5)), ("a", Value::Int(6))]),
    ];
    assert_eq!(
        to_columns(&rows),
        Ok(vec![
            column("a", vec![Value::Int(3), Value::Int(6)]),
            column("b", vec![Value::Int(2), Value::Int(5)]),
        ])
    );
}

#[test]
fn no_rows_give_no_columns() {
    assert_eq!(to_columns(&vec![]), Ok(vec![]));
    assert_eq!(to_records(&vec![]), Vec::<Row>::new());
}

#[test]
fn rows_without_columns_give_no_columns() {
    assert_eq!(to_columns(&vec![row(vec![]), row(vec![])]), Ok(vec![]));
}

#[test]
fn shorter_row_is_a_layout_mismatch() {
    let rows = vec![
        row(vec![("a", Value::Int(1)), ("b", Value::Int(2))]),
        row(vec![("a", Value::Int(3)), ("b", Value::Int(4))]),
        row(vec![("a", Value::Int(5))]),
    ];
    assert_eq!(to_columns(&rows), Err(TableError::LayoutMismatch { row: 2 }));
    assert_eq!(check_layout(&rows), Err(TableError::LayoutMismatch { row: 2 }));
}

#[test]
fn longer_row_is_a_layout_mismatch() {
    let rows = vec![
        row(vec![("a", Value::Int(1))]),
        row(vec![("a", Value::Int(3)), ("b", Value::Int(4))]),
    ];
    assert_eq!(to_columns(&rows), Err(TableError::LayoutMismatch { row: 1 }));
}

#[test]
fn renamed_or_reordered_columns_are_a_layout_mismatch() {
    let renamed = vec![
        row(vec![("a", Value::Int(1)), ("b", Value::Int(2))]),
        row(vec![("a", Value::Int(3)), ("c", Value::Int(4))]),
    ];
    assert_eq!(to_columns(&renamed), Err(TableError::LayoutMismatch { row: 1 }));
    let reordered = vec![
        row(vec![("a", Value::Int(1)), ("b", Value::Int(2))]),
        row(vec![("a", Value::Int(1)), ("b", Value::Int(2))]),
        row(vec![("b", Value::Int(3)), ("a", Value::Int(4))]),
        row(vec![("c", Value::Int(3))]),
    ];
    assert_eq!(to_columns(&reordered), Err(TableError::LayoutMismatch { row: 2 }));
}

#[test]
fn layout_check_accepts_one_layout() {
    let rows = vec![
        row(vec![("a", Value::Int(1)), ("b", Value::Int(2))]),
        row(vec![("a", Value::Null), ("b", Value::Str(s("x")))]),
    ];
    assert_eq!(check_layout(&rows), Ok(()));
    assert_eq!(check_layout(&vec![]), Ok(()));
    assert!(same_names(&rows[0], &rows[1]));
    assert!(!same_names(&rows[0], &row(vec![("a", Value::Int(1))])));
    assert!(!same_names(&rows[0], &row(vec![("b", Value::Int(1)), ("a", Value::Int(1))])));
}

#[test]
fn records_and_columns_describe_one_table() {
    let value = obj(vec![
        ("id", Value::Int(7)),
        (
            "items",
            Value::List(vec![
                obj(vec![("name", Value::Str(s("x"))), ("n", Value::Int(1))]),
                obj(vec![("name", Value::Str(s("y"))), ("n", Value::Int(2))]),
                obj(vec![("name", Value::Null), ("n", Value::Int(3))]),
            ]),
        ),
    ]);
    let records = normalize(&value, ".", "?", None);
    let columns = normalize_columnar(&value, ".", "?", None).unwrap();
    assert_eq!(records.len(), 3);
    for (r, record) in records.iter().enumerate() {
        assert_eq!(record.len(), columns.len());
        for (k, (name, cell)) in record.iter().enumerate() {
            assert_eq!(name, &columns[k].0);
            assert_eq!(cell, &columns[k].1[r]);
        }
    }
    assert_eq!(
        columns,
        vec![
            column("id", vec![Value::Int(7), Value::Int(7), Value::Int(7)]),
            column("items.name", vec![Value::Str(s("x")), Value::Str(s("y")), Value::Null]),
            column("items.n", vec![Value::Int(1), Value::Int(2), Value::Int(3)]),
        ]
    );
}

#[test]
fn normalize_gives_records() {
    let value = obj(vec![
        ("a.b", Value::Int(1)),
        ("a", obj(vec![("b", Value::Int(2))])),
        ("c", Value::List(vec![Value::Int(3), Value::Int(4)])),
    ]);
    assert_eq!(
        normalize(&value, ".", "?", None),
        vec![
            row(vec![("a.b", Value::Int(2)), ("c", Value::Int(3))]),
            row(vec![("a.b", Value::Int(2)), ("c", Value::Int(4))]),
        ]
    );
}

#[test]
fn normalize_uses_separator_fallback_and_selection() {
    let value = obj(vec![("a", obj(vec![("b", Value::Int(1)), ("c", Value::Int(2))]))]);
    assert_eq!(
        normalize(&value, "_", "?", Some(vec![vec![s("a"), s("c")]])),
        vec![row(vec![("a_c", Value::Int(2))])]
    );
    assert_eq!(
        normalize(&Value::Str(s("x")), ".", "value", None),
        vec![row(vec![("value", Value::Str(s("x")))])]
    );
}

#[test]
fn columnar_reports_unlike_array_elements() {
    let value = obj(vec![(
        "a",
        Value::List(vec![obj(vec![("x", Value::Int(1))]), obj(vec![("y", Value::Int(2))])]),
    )]);
    assert_eq!(
        normalize_columnar(&value, ".", "?", None),
        Err(TableError::LayoutMismatch { row: 1 })
    );
}

#[test]
fn columnar_batch_merges_like_trees() {
    let objects = vec![
        obj(vec![("a", Value::Int(1)), ("b", Value::List(vec![Value::Int(2), Value::Int(3)]))]),
        obj(vec![("a", Value::Int(4)), ("b", Value::Int(5))]),
    ];
    assert_eq!(
        normalize_columnar_batch(&objects, ".", "?", None),
        Ok(vec![
            column("a", vec![Value::Int(1), Value::Int(1), Value::Int(4)]),
            column("b", vec![Value::Int(2), Value::Int(3), Value::Int(5)]),
        ])
    );
    assert_eq!(normalize_columnar_batch(&vec![], ".", "?", None), Ok(vec![]));
}

#[test]
fn columnar_batch_reports_the_first_unlike_row() {
    let objects = vec![
        obj(vec![("a", Value::List(vec![Value::Int(1), Value::Int(2)]))]),
        obj(vec![("a", Value::Int(3))]),
        obj(vec![("b", Value::Int(4))]),
        obj(vec![("c", Value::Int(5))]),
    ];
    assert_eq!(
        normalize_columnar_batch(&objects, ".", "?", None),
        Err(TableError::LayoutMismatch { row: 3 })
    );
}
