use pluck_engine::flatten::{
    cross_join, normalize_batch, normalize_value, prepare, should_include,
};
use pluck_engine::path::{cached_name, generate_name, NameCache};
use pluck_engine::value::{Row, Value};

fn s(text: &str) -> String {
    text.to_string()
}

fn path(segments: &[&str]) -> Vec<String> {
    segments.iter().map(|segment| segment.to_string()).collect()
}

fn obj(entries: Vec<(&str, Value)>) -> Value {
    Value::Object(entries.into_iter().map(|(k, v)| (k.to_string(), v)).collect())
}

fn row(cells: Vec<(&str, Value)>) -> Row {
    cells.into_iter().map(|(k, v)| (k.to_string(), v)).collect()
}

fn flatten(value: &Value, selection: Option<Vec<Vec<String>>>) -> Vec<Row> {
    let opts = prepare(".", "?", selection);
    let mut stack = Vec::new();
    let mut cache = NameCache::new();
    let rows = normalize_value(value, &opts, &mut stack, &mut cache);
    assert!(stack.is_empty());
    rows
}

#[test]
fn array_of_objects_multiplies_rows() {
    let value = obj(vec![
        (
            "a",
            Value::List(vec![
                obj(vec![("x", Value::Int(1))]),
                obj(vec![("x", Value::Int(2))]),
            ]),
        ),
        ("b", Value::Int(5)),
    ]);
    assert_eq!(
        flatten(&value, None),
        vec![
            row(vec![("a.x", Value::Int(1)), ("b", Value::Int(5))]),
            row(vec![("a.x", Value::Int(2)), ("b", Value::Int(5))]),
        ]
    );
}

#[test]
fn empty_array_contributes_nothing() {
    let value = obj(vec![("a", Value::List(vec![])), ("b", Value::Int(5))]);
    assert_eq!(flatten(&value, None), vec![row(vec![("b", Value::Int(5))])]);
}

#[test]
fn array_of_nulls_contributes_nothing() {
    let value = obj(vec![
        ("a", Value::List(vec![Value::Null, Value::Null])),
        ("b", Value::Int(5)),
    ]);
    assert_eq!(flatten(&value, None), vec![row(vec![("b", Value::Int(5))])]);
}

#[test]
fn null_array_elements_are_dropped() {
    let with_null = obj(vec![(
        "a",
        Value::List(vec![Value::Null, obj(vec![("x", Value::Int(1))])]),
    )]);
    let without = obj(vec![("a", Value::List(vec![obj(vec![("x", Value::Int(1))])]))]);
    assert_eq!(flatten(&with_null, None), flatten(&without, None));
    assert_eq!(flatten(&with_null, None), vec![row(vec![("a.x", Value::Int(1))])]);
}

#[test]
fn selection_restricts_columns_to_exact_paths() {
    let value = obj(vec![("a", Value::Int(1)), ("b", Value::Int(2))]);
    let rows = flatten(&value, Some(vec![path(&["b"])]));
    assert_eq!(rows, vec![row(vec![("b", Value::Int(2))])]);
}

#[test]
fn selection_matches_no_prefix() {
    let value = obj(vec![("a", obj(vec![("b", Value::Int(1)), ("c", Value::Int(2))]))]);
    assert_eq!(flatten(&value, Some(vec![path(&["a"])])), vec![row(vec![])]);
    assert_eq!(flatten(&value, Some(vec![path(&["b"])])), vec![row(vec![])]);
    assert_eq!(
        flatten(&value, Some(vec![path(&["a", "c"])])),
        vec![row(vec![("a.c", Value::Int(2))])]
    );
}

#[test]
fn empty_selection_emits_no_column() {
    let value = obj(vec![("a", Value::Int(1))]);
    assert_eq!(flatten(&value, Some(vec![])), vec![row(vec![])]);
}

#[test]
fn bare_scalar_takes_the_fallback_name() {
    let opts = prepare(".", "value", None);
    let mut stack = Vec::new();
    let mut cache = NameCache::new();
    let rows = normalize_value(&Value::Int(7), &opts, &mut stack, &mut cache);
    assert_eq!(rows, vec![row(vec![("value", Value::Int(7))])]);
}

#[test]
fn bare_null_gives_one_null_column() {
    assert_eq!(flatten(&Value::Null, None), vec![row(vec![("?", Value::Null)])]);
}

#[test]
fn bare_scalar_outside_the_selection_gives_an_empty_row() {
    assert_eq!(
        flatten(&Value::Int(7), Some(vec![path(&["a"])])),
        vec![row(vec![])]
    );
    assert_eq!(
        flatten(&Value::Int(7), Some(vec![path(&[])])),
        vec![row(vec![("?", Value::Int(7))])]
    );
}

#[test]
fn empty_object_gives_one_row_without_columns() {
    assert_eq!(flatten(&obj(vec![]), None), vec![row(vec![])]);
}

#[test]
fn nested_objects_join_their_keys() {
    let value = obj(vec![(
        "launch",
        obj(vec![
            ("rocket", obj(vec![("name", Value::Str(s("Falcon")))])),
            ("ok", Value::Bool(true)),
            ("mass", Value::Float(1.5f64.to_bits())),
            ("site", Value::Null),
        ]),
    )]);
    assert_eq!(
        flatten(&value, None),
        vec![row(vec![
            ("launch.rocket.name", Value::Str(s("Falcon"))),
            ("launch.ok", Value::Bool(true)),
            ("launch.mass", Value::Float(1.5f64.to_bits())),
            ("launch.site", Value::Null),
        ])]
    );
}

#[test]
fn two_arrays_cross_join_in_order() {
    let value = obj(vec![
        ("a", Value::List(vec![Value::Int(1), Value::Int(2)])),
        (
            "b",
            Value::List(vec![Value::Str(s("x")), Value::Str(s("y")), Value::Str(s("z"))]),
        ),
    ]);
    let rows = flatten(&value, None);
    let expected: Vec<Row> = vec![
        row(vec![("a", Value::Int(1)), ("b", Value::Str(s("x")))]),
        row(vec![("a", Value::Int(1)), ("b", Value::Str(s("y")))]),
        row(vec![("a", Value::Int(1)), ("b", Value::Str(s("z")))]),
        row(vec![("a", Value::Int(2)), ("b", Value::Str(s("x")))]),
        row(vec![("a", Value::Int(2)), ("b", Value::Str(s("y")))]),
        row(vec![("a", Value::Int(2)), ("b", Value::Str(s("z")))]),
    ];
    assert_eq!(rows, expected);
}

#[test]
fn columns_before_an_array_are_copied_into_every_row() {
    let value = obj(vec![
        ("id", Value::Int(9)),
        ("tags", Value::List(vec![Value::Str(s("a")), Value::Str(s("b"))])),
        ("after", Value::Bool(false)),
    ]);
    assert_eq!(
        flatten(&value, None),
        vec![
            row(vec![
                ("id", Value::Int(9)),
                ("tags", Value::Str(s("a"))),
                ("after", Value::Bool(false)),
            ]),
            row(vec![
                ("id", Value::Int(9)),
                ("tags", Value::Str(s("b"))),
                ("after", Value::Bool(false)),
            ]),
        ]
    );
}

#[test]
fn top_level_array_gives_one_row_per_element() {
    let value = Value::List(vec![
        obj(vec![("a", Value::Int(1))]),
        Value::Null,
        obj(vec![("a", Value::Int(2))]),
    ]);
    assert_eq!(
        flatten(&value, None),
        vec![row(vec![("a", Value::Int(1))]), row(vec![("a", Value::Int(2))])]
    );
}

#[test]
fn array_elements_add_no_path_segment() {
    let value = obj(vec![(
        "a",
        Value::List(vec![Value::List(vec![Value::Int(1), Value::Int(2)]), Value::Int(3)]),
    )]);
    assert_eq!(
        flatten(&value, None),
        vec![
            row(vec![("a", Value::Int(1))]),
            row(vec![("a", Value::Int(2))]),
            row(vec![("a", Value::Int(3))]),
        ]
    );
}

#[test]
fn unlike_array_elements_give_unlike_rows() {
    let value = obj(vec![(
        "a",
        Value::List(vec![obj(vec![("x", Value::Int(1))]), obj(vec![("y", Value::Int(2))])]),
    )]);
    assert_eq!(
        flatten(&value, None),
        vec![row(vec![("a.x", Value::Int(1))]), row(vec![("a.y", Value::Int(2))])]
    );
}

#[test]
fn nested_arrays_multiply_within_their_element() {
    let value = obj(vec![
        ("id", Value::Int(1)),
        (
            "items",
            Value::List(vec![
                obj(vec![
                    ("sku", Value::Str(s("a"))),
                    ("tags", Value::List(vec![Value::Str(s("x")), Value::Str(s("y"))])),
                ]),
                obj(vec![("sku", Value::Str(s("b"))), ("tags", Value::List(vec![]))]),
            ]),
        ),
        ("meta", obj(vec![("k", Value::Null)])),
    ]);
    assert_eq!(
        flatten(&value, None),
        vec![
            row(vec![
                ("id", Value::Int(1)),
                ("items.sku", Value::Str(s("a"))),
                ("items.tags", Value::Str(s("x"))),
                ("meta.k", Value::Null),
            ]),
            row(vec![
                ("id", Value::Int(1)),
                ("items.sku", Value::Str(s("a"))),
                ("items.tags", Value::Str(s("y"))),
                ("meta.k", Value::Null),
            ]),
            row(vec![
                ("id", Value::Int(1)),
                ("items.sku", Value::Str(s("b"))),
                ("meta.k", Value::Null),
            ]),
        ]
    );
}

#[test]
fn row_count_is_the_product_over_arrays() {
    let three = Value::List(vec![Value::Int(1), Value::Int(2), Value::Int(3)]);
    let nested = Value::List(vec![
        obj(vec![("k", Value::List(vec![Value::Int(1), Value::Int(2)]))]),
        obj(vec![("k", Value::List(vec![]))]),
        Value::Null,
    ]);
    let value = obj(vec![
        ("a", three),
        ("b", nested),
        ("c", Value::List(vec![])),
        ("d", obj(vec![("e", Value::List(vec![Value::Int(0), Value::Int(0)]))])),
    ]);
    // a: 3 rows; b: 2 + 1 rows; c: none, counts as 1; d.e: 2 rows.
    assert_eq!(flatten(&value, None).len(), 3 * 3 * 1 * 2);
}

#[test]
fn cross_join_pairs_every_row_with_every_other() {
    let mut rows = vec![row(vec![("a", Value::Int(1))]), row(vec![("a", Value::Int(2))])];
    let other = vec![
        row(vec![("b", Value::Int(10))]),
        row(vec![("b", Value::Int(20)), ("c", Value::Null)]),
    ];
    cross_join(&mut rows, &other);
    assert_eq!(
        rows,
        vec![
            row(vec![("a", Value::Int(1)), ("b", Value::Int(10))]),
            row(vec![("a", Value::Int(1)), ("b", Value::Int(20)), ("c", Value::Null)]),
            row(vec![("a", Value::Int(2)), ("b", Value::Int(10))]),
            row(vec![("a", Value::Int(2)), ("b", Value::Int(20)), ("c", Value::Null)]),
        ]
    );
}

#[test]
fn cross_join_with_no_rows_gives_no_rows() {
    let mut rows = vec![row(vec![("a", Value::Int(1))])];
    cross_join(&mut rows, &vec![]);
    assert_eq!(rows, Vec::<Row>::new());
    let mut none: Vec<Row> = vec![];
    cross_join(&mut none, &vec![row(vec![("b", Value::Int(1))])]);
    assert_eq!(none, Vec::<Row>::new());
}

#[test]
fn names_join_segments_with_the_separator() {
    assert_eq!(generate_name(&path(&["a", "b", "c"]), ".", &s("?")), "a.b.c");
    assert_eq!(generate_name(&path(&["a", "b"]), "__", &s("?")), "a__b");
    assert_eq!(generate_name(&path(&["only"]), ".", &s("?")), "only");
    assert_eq!(generate_name(&path(&["a", "", "b"]), ".", &s("?")), "a..b");
    assert_eq!(generate_name(&path(&["a", "b"]), "", &s("?")), "ab");
}

#[test]
fn empty_names_fall_back() {
    assert_eq!(generate_name(&path(&[]), ".", &s("value")), "value");
    assert_eq!(generate_name(&path(&[""]), ".", &s("value")), "value");
    assert_eq!(generate_name(&path(&["", ""]), "", &s("value")), "value");
    assert_eq!(generate_name(&path(&["", ""]), ".", &s("value")), ".");
}

#[test]
fn cached_names_agree_with_generated_names() {
    let mut cache = NameCache::new();
    let fallback = s("?");
    let paths = vec![path(&["a", "b"]), path(&[]), path(&["a"]), path(&["a", "b"]), path(&[""])];
    for p in paths.iter() {
        let first = cached_name(p, &s("/"), &fallback, &mut cache);
        let again = cached_name(p, &s("/"), &fallback, &mut cache);
        assert_eq!(first, generate_name(p, "/", &fallback));
        assert_eq!(again, first);
    }
}

#[test]
fn one_cache_serves_many_trees() {
    let opts = prepare(".", "?", None);
    let mut stack = Vec::new();
    let mut cache = NameCache::new();
    let first = obj(vec![("a", obj(vec![("b", Value::Int(1))]))]);
    let second = obj(vec![("a", obj(vec![("b", Value::Int(2)), ("c", Value::Int(3))]))]);
    assert_eq!(
        normalize_value(&first, &opts, &mut stack, &mut cache),
        vec![row(vec![("a.b", Value::Int(1))])]
    );
    assert_eq!(
        normalize_value(&second, &opts, &mut stack, &mut cache),
        vec![row(vec![("a.b", Value::Int(2)), ("a.c", Value::Int(3))])]
    );
}

#[test]
fn one_cache_serves_changing_options() {
    let mut stack = Vec::new();
    let mut cache = NameCache::new();
    let tree = obj(vec![("a", obj(vec![("b", Value::Int(1))])), ("", Value::Int(2))]);
    let dotted = prepare(".", "?", None);
    let dashed = prepare("-", "none", None);
    assert_eq!(
        normalize_value(&tree, &dotted, &mut stack, &mut cache),
        vec![row(vec![("a.b", Value::Int(1)), ("?", Value::Int(2))])]
    );
    assert_eq!(
        normalize_value(&tree, &dashed, &mut stack, &mut cache),
        vec![row(vec![("a-b", Value::Int(1)), ("none", Value::Int(2))])]
    );
    assert_eq!(
        normalize_value(&tree, &dotted, &mut stack, &mut cache),
        vec![row(vec![("a.b", Value::Int(1)), ("?", Value::Int(2))])]
    );
}

#[test]
fn normalization_starts_from_the_path_on_the_stack() {
    let opts = prepare(".", "?", None);
    let mut stack = path(&["root"]);
    let mut cache = NameCache::new();
    let rows = normalize_value(&obj(vec![("a", Value::Int(1))]), &opts, &mut stack, &mut cache);
    assert_eq!(rows, vec![row(vec![("root.a", Value::Int(1))])]);
    assert_eq!(stack, path(&["root"]));
}

#[test]
fn should_include_asks_for_the_exact_path() {
    assert!(should_include(&path(&["a"]), &None));
    let selection = Some(vec![path(&["a", "b"]), path(&[])]);
    assert!(should_include(&path(&["a", "b"]), &selection));
    assert!(should_include(&path(&[]), &selection));
    assert!(!should_include(&path(&["a"]), &selection));
    assert!(!should_include(&path(&["a", "b", "c"]), &selection));
    assert!(!should_include(&path(&["b", "a"]), &selection));
}

#[test]
fn batch_concatenates_the_rows_of_its_trees() {
    let opts = prepare(".", "?", None);
    let objects = vec![
        obj(vec![("a", Value::Int(1))]),
        obj(vec![("a", Value::List(vec![Value::Int(2), Value::Int(3)]))]),
        obj(vec![]),
    ];
    assert_eq!(
        normalize_batch(&objects, &opts),
        vec![
            row(vec![("a", Value::Int(1))]),
            row(vec![("a", Value::Int(2))]),
            row(vec![("a", Value::Int(3))]),
            row(vec![]),
        ]
    );
    assert_eq!(normalize_batch(&vec![], &opts), Vec::<Row>::new());
}

#[test]
fn duplicate_keys_keep_their_order() {
    let value = Value::Object(vec![
        (s("a"), Value::Int(1)),
        (s("a"), Value::Int(2)),
    ]);
    assert_eq!(
        flatten(&value, None),
        vec![row(vec![("a", Value::Int(1)), ("a", Value::Int(2))])]
    );
}

#[test]
fn clone_copies_the_whole_tree() {
    let value = obj(vec![
        ("a", Value::List(vec![Value::Int(1), Value::Null, Value::Str(s("x"))])),
        ("b", obj(vec![("c", Value::Float(2.5f64.to_bits())), ("d", Value::Bool(true))])),
    ]);
    assert_eq!(value.clone(), value);
    assert!(Value::Int(1).is_scalar());
    assert!(Value::Str(s("")).is_scalar());
    assert!(!Value::Null.is_scalar());
    assert!(!Value::List(vec![]).is_scalar());
    assert!(!obj(vec![]).is_scalar());
}
