use pluck_engine::columnar::TableError;
use pluck_engine::numeric::{int_to_float_bits, int_to_text, magnitude};
use pluck_engine::typed::{
    build_column_array, detect_column_type, normalize_arrow_batch, rows_to_record_batch,
    ColumnType, TextCell, TypedBatch, TypedColumn,
};
use pluck_engine::value::{Row, Value};

fn s(text: &str) -> String {
    text.to_string()
}

fn obj(entries: Vec<(&str, Value)>) -> Value {
    Value::Object(entries.into_iter().map(|(k, v)| (k.to_string(), v)).collect())
}

fn float(x: f64) -> Value {
    Value::Float(x.to_bits())
}

/// A table of one column named `c`.
fn one_column(cells: Vec<Value>) -> Vec<Row> {
    cells.into_iter().map(|cell| vec![(s("c"), cell)]).collect()
}

fn text(t: &str) -> Option<TextCell> {
    Some(TextCell::Text(t.to_string()))
}

#[test]
fn one_kind_is_detected_as_that_kind() {
    let bools = one_column(vec![Value::Bool(true), Value::Null, Value::Bool(false)]);
    assert_eq!(detect_column_type(&bools, 0), ColumnType::Bool);
    let ints = one_column(vec![Value::Int(1), Value::Int(-2)]);
    assert_eq!(detect_column_type(&ints, 0), ColumnType::Int);
    let floats = one_column(vec![Value::Null, float(0.5)]);
    assert_eq!(detect_column_type(&floats, 0), ColumnType::Float);
    let texts = one_column(vec![Value::Str(s("a")), Value::Str(s(""))]);
    assert_eq!(detect_column_type(&texts, 0), ColumnType::Text);
}

#[test]
fn integers_and_floats_promote_to_float() {
    let rows = one_column(vec![Value::Int(1), float(2.5), Value::Null]);
    assert_eq!(detect_column_type(&rows, 0), ColumnType::Float);
    assert_eq!(
        build_column_array(&rows, 0, ColumnType::Float),
        TypedColumn::Float(vec![Some(1.0f64.to_bits()), Some(2.5f64.to_bits()), None])
    );
}

#[test]
fn all_null_and_empty_columns_are_null() {
    assert_eq!(
        detect_column_type(&one_column(vec![Value::Null, Value::Null]), 0),
        ColumnType::Null
    );
    assert_eq!(detect_column_type(&vec![], 0), ColumnType::Null);
    assert_eq!(detect_column_type(&vec![], 5), ColumnType::Null);
}

#[test]
fn other_mixtures_are_text() {
    let mixtures = vec![
        vec![Value::Bool(true), Value::Int(1)],
        vec![Value::Bool(true), float(1.0)],
        vec![Value::Bool(true), Value::Str(s("x"))],
        vec![Value::Int(1), Value::Str(s("x"))],
        vec![float(1.0), Value::Str(s("x"))],
        vec![Value::Bool(true), Value::Int(1), float(1.0)],
        vec![Value::Int(1), float(1.0), Value::Str(s("x"))],
        vec![Value::Bool(false), Value::Int(1), float(1.0), Value::Str(s("x")), Value::Null],
    ];
    for cells in mixtures {
        assert_eq!(detect_column_type(&one_column(cells), 0), ColumnType::Text);
    }
}

#[test]
fn lists_and_objects_count_as_text() {
    assert_eq!(
        detect_column_type(&one_column(vec![Value::List(vec![])]), 0),
        ColumnType::Text
    );
    assert_eq!(
        detect_column_type(&one_column(vec![obj(vec![]), Value::Null]), 0),
        ColumnType::Text
    );
    assert_eq!(
        detect_column_type(&one_column(vec![Value::Int(1), Value::List(vec![])]), 0),
        ColumnType::Text
    );
}

#[test]
fn detection_looks_at_the_given_column_only() {
    let rows: Vec<Row> = vec![
        vec![(s("a"), Value::Int(1)), (s("b"), Value::Str(s("x")))],
        vec![(s("a"), Value::Int(2)), (s("b"), Value::Null)],
    ];
    assert_eq!(detect_column_type(&rows, 0), ColumnType::Int);
    assert_eq!(detect_column_type(&rows, 1), ColumnType::Text);
}

#[test]
fn detected_type_ignores_row_order() {
    let cells = vec![Value::Int(1), Value::Null, float(2.5), Value::Int(3)];
    let orders: Vec<Vec<usize>> = vec![
        vec![0, 1, 2, 3],
        vec![3, 2, 1, 0],
        vec![1, 0, 3, 2],
        vec![2, 3, 0, 1],
        vec![1, 2, 3, 0],
    ];
    for order in orders {
        let permuted: Vec<Value> = order.iter().map(|&i| cells[i].clone()).collect();
        assert_eq!(detect_column_type(&one_column(permuted), 0), ColumnType::Float);
    }
    let mixed = vec![Value::Bool(true), Value::Int(1), Value::Null];
    let reversed: Vec<Value> = mixed.iter().rev().map(|cell| cell.clone()).collect();
    assert_eq!(
        detect_column_type(&one_column(mixed), 0),
        detect_column_type(&one_column(reversed), 0)
    );
}

#[test]
fn bool_column_keeps_booleans_only() {
    let rows = one_column(vec![Value::Bool(true), Value::Null, Value::Int(1), Value::Bool(false)]);
    assert_eq!(
        build_column_array(&rows, 0, ColumnType::Bool),
        TypedColumn::Bool(vec![Some(true), None, None, Some(false)])
    );
}

#[test]
fn int_column_keeps_integers_only() {
    let rows = one_column(vec![
        Value::Int(i64::MIN),
        float(1.0),
        Value::Null,
        Value::Str(s("3")),
        Value::Int(i64::MAX),
    ]);
    assert_eq!(
        build_column_array(&rows, 0, ColumnType::Int),
        TypedColumn::Int(vec![Some(i64::MIN), None, None, None, Some(i64::MAX)])
    );
}

#[test]
fn float_column_converts_integers() {
    let rows = one_column(vec![
        float(-0.0),
        Value::Int(-3),
        Value::Bool(true),
        Value::Str(s("1.5")),
        Value::Int(0),
        float(f64::INFINITY),
    ]);
    assert_eq!(
        build_column_array(&rows, 0, ColumnType::Float),
        TypedColumn::Float(vec![
            Some((-0.0f64).to_bits()),
            Some((-3.0f64).to_bits()),
            None,
            None,
            Some(0.0f64.to_bits()),
            Some(f64::INFINITY.to_bits()),
        ])
    );
}

#[test]
fn text_column_renders_scalars() {
    let rows = one_column(vec![
        Value::Str(s("plain")),
        Value::Int(-42),
        Value::Bool(true),
        Value::Bool(false),
        float(2.5),
        Value::Null,
        Value::List(vec![Value::Int(1)]),
        obj(vec![("k", Value::Int(1))]),
        Value::Int(0),
    ]);
    assert_eq!(
        build_column_array(&rows, 0, ColumnType::Text),
        TypedColumn::Text(vec![
            text("plain"),
            text("-42"),
            text("True"),
            text("False"),
            Some(TextCell::Float(2.5f64.to_bits())),
            None,
            None,
            None,
            text("0"),
        ])
    );
}

#[test]
fn null_and_unknown_columns_hold_their_length() {
    let rows = one_column(vec![Value::Int(1), Value::Null, Value::Str(s("x"))]);
    assert_eq!(build_column_array(&rows, 0, ColumnType::Null), TypedColumn::Null(3));
    assert_eq!(build_column_array(&rows, 0, ColumnType::Unknown), TypedColumn::Null(3));
    assert_eq!(build_column_array(&vec![], 0, ColumnType::Int), TypedColumn::Int(vec![]));
}

#[test]
fn integers_render_in_canonical_decimal_form() {
    let samples: Vec<i64> = vec![
        0,
        1,
        -1,
        9,
        10,
        -10,
        99,
        100,
        101,
        12345678901234,
        -9876543210,
        i64::MAX,
        i64::MIN,
        i64::MIN + 1,
        1_000_000_000_000_000_000,
    ];
    for i in samples {
        assert_eq!(int_to_text(i), i.to_string());
    }
    assert_eq!(int_to_text(-9223372036854775808), "-9223372036854775808");
    assert_eq!(int_to_text(7), "7");
}

#[test]
fn magnitude_is_the_absolute_value() {
    assert_eq!(magnitude(0), 0);
    assert_eq!(magnitude(5), 5);
    assert_eq!(magnitude(-5), 5);
    assert_eq!(magnitude(i64::MAX), 9223372036854775807);
    assert_eq!(magnitude(i64::MIN), 9223372036854775808);
}

#[test]
fn integers_convert_to_the_nearest_float() {
    assert_eq!(int_to_float_bits(0), 0);
    assert_eq!(int_to_float_bits(1), 0x3FF0_0000_0000_0000);
    assert_eq!(int_to_float_bits(-1), 0xBFF0_0000_0000_0000);
    assert_eq!(int_to_float_bits(2), 0x4000_0000_0000_0000);
    assert_eq!(int_to_float_bits(3), 0x4008_0000_0000_0000);
    let two53: i64 = 1 << 53;
    let mut samples: Vec<i64> = vec![
        4,
        5,
        7,
        1023,
        1024,
        -1025,
        two53 - 1,
        two53,
        two53 + 1,
        two53 + 2,
        two53 + 3,
        two53 + 4,
        two53 + 5,
        two53 + 6,
        -(two53 + 1),
        -(two53 + 3),
        (1 << 54) + 2,
        (1 << 54) + 6,
        (1 << 54) + 3,
        (1 << 62) + (1 << 9),
        (1 << 62) + (1 << 9) + 1,
        (1 << 62) + 3 * (1 << 9),
        i64::MAX,
        i64::MAX - 1,
        i64::MAX - 511,
        i64::MAX - 512,
        i64::MAX - 513,
        i64::MIN,
        i64::MIN + 1,
        i64::MIN + 512,
        123456789012345678,
        -987654321098765432,
    ];
    let mut x: i64 = 1;
    for _ in 0..62 {
        samples.push(x);
        samples.push(x + 1);
        samples.push(x - 1);
        samples.push(-x);
        samples.push(3 * (x / 2) + 1);
        x *= 2;
    }
    // A fixed pseudo-random walk over the whole range.
    let mut state: u64 = 0x9E37_79B9_7F4A_7C15;
    for _ in 0..2000 {
        state = state
            .wrapping_mul(6364136223846793005)
            .wrapping_add(1442695040888963407);
        samples.push(state as i64);
        samples.push((state >> 7) as i64);
        samples.push(-((state >> 11) as i64));
    }
    for i in samples {
        assert_eq!(int_to_float_bits(i), (i as f64).to_bits(), "for {}", i);
    }
}

#[test]
fn batch_has_one_typed_column_per_column_of_the_first_row() {
    let rows: Vec<Row> = vec![
        vec![
            (s("id"), Value::Int(1)),
            (s("score"), Value::Int(2)),
            (s("tag"), Value::Bool(true)),
            (s("none"), Value::Null),
        ],
        vec![
            (s("id"), Value::Int(2)),
            (s("score"), float(0.5)),
            (s("tag"), Value::Str(s("x"))),
            (s("none"), Value::Null),
        ],
    ];
    let batch = rows_to_record_batch(&rows).unwrap();
    assert_eq!(
        batch,
        TypedBatch {
            schema: vec![
                (s("id"), ColumnType::Int),
                (s("score"), ColumnType::Float),
                (s("tag"), ColumnType::Text),
                (s("none"), ColumnType::Null),
            ],
            columns: vec![
                TypedColumn::Int(vec![Some(1), Some(2)]),
                TypedColumn::Float(vec![Some(2.0f64.to_bits()), Some(0.5f64.to_bits())]),
                TypedColumn::Text(vec![text("True"), text("x")]),
                TypedColumn::Null(2),
            ],
            num_rows: 2,
        }
    );
}

#[test]
fn batch_of_no_rows_has_an_empty_schema() {
    assert_eq!(
        rows_to_record_batch(&vec![]),
        Ok(TypedBatch { schema: vec![], columns: vec![], num_rows: 0 })
    );
    assert_eq!(
        normalize_arrow_batch(&vec![], ".", "?", None),
        Ok(TypedBatch { schema: vec![], columns: vec![], num_rows: 0 })
    );
}

#[test]
fn batch_keeps_repeated_names_as_columns_of_their_own() {
    let rows: Vec<Row> = vec![vec![(s("a"), Value::Int(1)), (s("a"), Value::Str(s("x")))]];
    assert_eq!(
        rows_to_record_batch(&rows),
        Ok(TypedBatch {
            schema: vec![(s("a"), ColumnType::Int), (s("a"), ColumnType::Text)],
            columns: vec![TypedColumn::Int(vec![Some(1)]), TypedColumn::Text(vec![text("x")])],
            num_rows: 1,
        })
    );
}

#[test]
fn batch_without_columns_keeps_its_row_count() {
    let rows: Vec<Row> = vec![vec![], vec![], vec![]];
    assert_eq!(
        rows_to_record_batch(&rows),
        Ok(TypedBatch { schema: vec![], columns: vec![], num_rows: 3 })
    );
}

#[test]
fn batch_reports_a_layout_mismatch() {
    let rows: Vec<Row> = vec![
        vec![(s("a"), Value::Int(1)), (s("b"), Value::Int(2))],
        vec![(s("a"), Value::Int(1))],
    ];
    assert_eq!(rows_to_record_batch(&rows), Err(TableError::LayoutMismatch { row: 1 }));
}

#[test]
fn arrow_batch_flattens_and_types_a_batch() {
    let objects = vec![
        obj(vec![
            ("name", Value::Str(s("a"))),
            ("v", Value::List(vec![Value::Int(1), Value::Int(2)])),
        ]),
        obj(vec![("name", Value::Str(s("b"))), ("v", float(1.5))]),
        obj(vec![("name", Value::Null), ("v", Value::Null)]),
    ];
    assert_eq!(
        normalize_arrow_batch(&objects, ".", "?", None),
        Ok(TypedBatch {
            schema: vec![(s("name"), ColumnType::Text), (s("v"), ColumnType::Float)],
            columns: vec![
                TypedColumn::Text(vec![text("a"), text("a"), text("b"), None]),
                TypedColumn::Float(vec![
                    Some(1.0f64.to_bits()),
                    Some(2.0f64.to_bits()),
                    Some(1.5f64.to_bits()),
                    None,
                ]),
            ],
            num_rows: 4,
        })
    );
}

#[test]
fn arrow_batch_applies_the_selection() {
    let objects = vec![
        obj(vec![("a", Value::Int(1)), ("b", Value::Bool(true))]),
        obj(vec![("a", Value::Int(2)), ("b", Value::Bool(false))]),
    ];
    assert_eq!(
        normalize_arrow_batch(&objects, ".", "?", Some(vec![vec![s("b")]])),
        Ok(TypedBatch {
            schema: vec![(s("b"), ColumnType::Bool)],
            columns: vec![TypedColumn::Bool(vec![Some(true), Some(false)])],
            num_rows: 2,
        })
    );
}

#[test]
fn arrow_batch_reports_unlike_trees() {
    let objects = vec![obj(vec![("a", Value::Int(1))]), obj(vec![("b", Value::Int(2))])];
    assert_eq!(
        normalize_arrow_batch(&objects, ".", "?", None),
        Err(TableError::LayoutMismatch { row: 1 })
    );
}
