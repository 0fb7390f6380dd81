use toml_const::normalize::NormalizationError;
use toml_const::parse::parse_table;
use toml_const::schema::TomlValue;

fn table(entries: Vec<(&str, TomlValue)>) -> TomlValue {
    TomlValue::Table(entries.into_iter().map(|(k, v)| (k.to_string(), v)).collect())
}

fn datetime(date: bool, time: bool, offset: bool) -> TomlValue {
    TomlValue::Datetime { date, time, offset }
}

const MANIFEST: &str = r#"
[package]
name = "toml_const_macros"
version = "1.2.0"
edition = "2021"
keywords = ["toml", "const", "macro"]

[lib]
proc-macro = true

[dependencies]
proc-macro2 = "1.0"
quote = "1.0"
syn = { version = "2.0", features = ["full"] }
toml = { version = "0.8", features = ["preserve_order"] }

[[example]]
name = "first"
path = "examples/first.rs"

[[example]]
name = "second"
required-features = ["parse"]
"#;

const UNIFORM: &str = r#"
[identical_values]
first = { name = "a", score = 1 }
second = { name = "b", score = 2 }
third = { name = "c", score = 3 }

[different_values]
first = { name = "a", score = 1 }
second = { name = "b", score = "two" }

[[rows]]
id = 1

[[rows]]
id = 2
label = "two"
"#;

#[test]
fn test_parse_toml_toml_value() {
    let parsed = parse_table(MANIFEST).expect("must parse");
    let toml_val = TomlValue::from_table(&parsed);

    println!("schema: {:#?}", toml_val);

    let normalized = match toml_val.normalize() {
        Ok(n) => n,
        Err(e) => panic!("{:?}", e),
    };
    println!("normalized: {:#?}", normalized);

    let mut og_value = toml_const::value::Item::Table(parsed.clone());
    normalized.normalize_toml(&mut og_value);
    let norm_table = match &og_value {
        toml_const::value::Item::Table(t) => t,
        other => panic!("expected a table, got {:?}", other),
    };

    println!("norm table: {:#?}", norm_table);

    println!("definition: {:?}", normalized.definition("TOP_LEVEL_TABLE"));
}

#[test]
fn test_normalize_error_value_mismatch() {
    let toml = r#"
        [[array]]
        key1 = "value1"
        key2 = 42

        [[array]]
        key1 = "value2"
        key2 = "invalid value"
        "#;

    let parsed = parse_table(toml).expect("must parse");
    let toml_val = TomlValue::from_table(&parsed);
    match toml_val.normalize() {
        Ok(n) => {
            panic!("Normalization should have failed, but succeeded: {:#?}", n);
        }
        Err(e) => match e {
            NormalizationError::ValueMismatch { path, value_types } => {
                assert!(path == ["key2".to_string(), "array".to_string()]);
                assert!(matches!(value_types.0, TomlValue::Integer));
                assert!(matches!(value_types.1, TomlValue::String));
            }
        },
    };

    let toml = r#"
        [[array]]
        [[array.table]]
        key2 = "false"
        key1 = "value1"
        [[array.table.inner]]
        item = "name"

        [[array]]
        [[array.table]]
        key1 = "value1"
        [[array.table.inner]]
        item = false
        "#;

    let parsed = parse_table(toml).expect("must parse");
    let toml_val = TomlValue::from_table(&parsed);
    match toml_val.normalize() {
        Ok(n) => {
            panic!("Normalization should have failed, but succeeded: {:#?}", n);
        }
        Err(e) => match e {
            NormalizationError::ValueMismatch { path, value_types } => {
                assert!(
                    path == [
                        "item".to_string(),
                        "inner".to_string(),
                        "table".to_string(),
                        "array".to_string()
                    ]
                );
                assert!(matches!(value_types.0, TomlValue::String));
                assert!(matches!(value_types.1, TomlValue::Boolean));
            }
        },
    };
}

#[test]
fn test_show_tablemap_normalize() {
    let parsed = parse_table(UNIFORM).expect("must parse");

    let toml_val = TomlValue::from_table(&parsed);
    let normalized = toml_val.normalize().expect("must normalize");

    let reduced = normalized.reduce();
    println!("reduced: {:#?}", reduced);
}

#[test]
fn array_of_tables_is_unified_key_by_key() {
    let parsed = parse_table(UNIFORM).expect("must parse");
    let normalized = TomlValue::from_table(&parsed).normalize().expect("must normalize");
    let rows = match &normalized {
        TomlValue::Table(entries) => entries.iter().find(|(k, _)| k == "rows").map(|(_, v)| v.clone()),
        other => panic!("expected a table, got {:?}", other),
    };
    let expected = TomlValue::Array(vec![table(vec![
        ("id", TomlValue::Integer),
        ("label", TomlValue::String),
    ])]);
    assert!(rows.expect("rows is a key").same_as(&expected));
}

fn count_long_arrays(v: &TomlValue) -> usize {
    match v {
        TomlValue::Array(items) => {
            (if items.len() > 1 { 1 } else { 0 }) + items.iter().map(count_long_arrays).sum::<usize>()
        }
        TomlValue::Table(entries) => entries.iter().map(|(_, v)| count_long_arrays(v)).sum(),
        TomlValue::TableMap { value_type, .. } => count_long_arrays(value_type),
        _ => 0,
    }
}

#[test]
fn after_normalize_no_array_has_two_elements() {
    let parsed = parse_table(MANIFEST).expect("must parse");
    let schema = TomlValue::from_table(&parsed);
    assert!(count_long_arrays(&schema) > 0);
    let normalized = schema.normalize().expect("must normalize");
    assert_eq!(count_long_arrays(&normalized), 0);

    let nested = TomlValue::Array(vec![
        TomlValue::Array(vec![TomlValue::Integer, TomlValue::Integer]),
        TomlValue::Array(vec![]),
        TomlValue::Array(vec![TomlValue::Integer]),
    ]);
    let normalized = nested.normalize().expect("must normalize");
    let expected = TomlValue::Array(vec![TomlValue::Array(vec![TomlValue::Integer])]);
    assert!(normalized.same_as(&expected));
}

#[test]
fn empty_array_stays_empty() {
    let normalized = TomlValue::Array(vec![]).normalize().expect("must normalize");
    assert!(matches!(normalized, TomlValue::Array(ref items) if items.is_empty()));
}

#[test]
fn union_of_scalars() {
    assert!(matches!(TomlValue::String.union(&TomlValue::String), Ok(TomlValue::String)));
    assert!(matches!(TomlValue::Integer.union(&TomlValue::Integer), Ok(TomlValue::Integer)));
    assert!(matches!(TomlValue::Float.union(&TomlValue::Float), Ok(TomlValue::Float)));
    assert!(matches!(TomlValue::Boolean.union(&TomlValue::Boolean), Ok(TomlValue::Boolean)));
    match TomlValue::Integer.union(&TomlValue::String) {
        Err(NormalizationError::ValueMismatch { path, value_types }) => {
            assert!(path.is_empty());
            assert!(matches!(value_types.0, TomlValue::Integer));
            assert!(matches!(value_types.1, TomlValue::String));
        }
        other => panic!("expected a mismatch, got {:?}", other),
    }
}

#[test]
fn union_of_datetimes_is_the_or_of_their_components() {
    let unified = datetime(true, false, false).union(&datetime(false, true, false)).unwrap();
    assert!(unified.same_as(&datetime(true, true, false)));
    let unified = datetime(true, false, false).union(&datetime(true, true, true)).unwrap();
    assert!(unified.same_as(&datetime(true, true, true)));
}

#[test]
fn union_of_arrays() {
    let empty = TomlValue::Array(vec![]);
    let ints = TomlValue::Array(vec![TomlValue::Integer]);
    assert!(empty.union(&empty).unwrap().same_as(&empty));
    assert!(empty.union(&ints).unwrap().same_as(&ints));
    assert!(ints.union(&empty).unwrap().same_as(&ints));
    assert!(ints.union(&ints).unwrap().same_as(&ints));
    let strs = TomlValue::Array(vec![TomlValue::String]);
    assert!(ints.union(&strs).is_err());
}

#[test]
fn union_of_tables_keeps_the_keys_of_both() {
    let a = table(vec![("x", TomlValue::Integer), ("y", TomlValue::String)]);
    let b = table(vec![("z", TomlValue::Boolean), ("y", TomlValue::String)]);
    let unified = a.union(&b).unwrap();
    match &unified {
        TomlValue::Table(entries) => {
            let keys: Vec<&str> = entries.iter().map(|(k, _)| k.as_str()).collect();
            assert_eq!(keys, vec!["x", "y", "z"]);
        }
        other => panic!("expected a table, got {:?}", other),
    }
}

#[test]
fn union_commutes_where_it_succeeds() {
    let a = table(vec![
        ("x", TomlValue::Integer),
        ("t", table(vec![("p", datetime(true, false, false))])),
        ("l", TomlValue::Array(vec![])),
    ]);
    let b = table(vec![
        ("l", TomlValue::Array(vec![TomlValue::Float])),
        ("t", table(vec![("q", TomlValue::String), ("p", datetime(false, true, false))])),
        ("y", TomlValue::Boolean),
    ]);
    let ab = a.union(&b).unwrap();
    let ba = b.union(&a).unwrap();
    assert!(ab.same_as(&ba));
    assert!(ba.same_as(&ab));

    let c = table(vec![("x", TomlValue::String)]);
    assert!(a.union(&c).is_err());
    assert!(c.union(&a).is_err());
}

#[test]
fn union_reports_the_key_of_the_mismatch() {
    let a = table(vec![("t", table(vec![("p", TomlValue::Integer)]))]);
    let b = table(vec![("t", table(vec![("p", TomlValue::Boolean)]))]);
    match a.union(&b) {
        Err(NormalizationError::ValueMismatch { path, value_types }) => {
            assert_eq!(path, vec!["p", "t"]);
            assert!(matches!(value_types.0, TomlValue::Integer));
            assert!(matches!(value_types.1, TomlValue::Boolean));
        }
        other => panic!("expected a mismatch, got {:?}", other),
    }
}

#[test]
fn datetime_promotion() {
    let shape = |d, t, o| TomlValue::resolve_date_time_offset(d, t, o);
    assert!(shape(false, false, true).same_as(&datetime(true, true, true)));
    assert!(shape(true, false, true).same_as(&datetime(true, true, true)));
    assert!(shape(true, true, true).same_as(&datetime(true, true, true)));
    assert!(shape(true, true, false).same_as(&datetime(true, true, false)));
    assert!(shape(true, false, false).same_as(&datetime(true, false, false)));
    assert!(shape(false, true, false).same_as(&datetime(false, true, false)));
}

#[test]
fn offset_in_one_element_promotes_the_whole_array() {
    let parsed = parse_table("times = [1979-05-27, 07:32:00, 1979-05-27T07:32:00Z]\n").unwrap();
    let normalized = TomlValue::from_table(&parsed).normalize().expect("must normalize");
    let expected = table(vec![("times", TomlValue::Array(vec![datetime(true, true, true)]))]);
    assert!(normalized.same_as(&expected));

    let parsed = parse_table("times = [1979-05-27, 07:32:00]\n").unwrap();
    let normalized = TomlValue::from_table(&parsed).normalize().expect("must normalize");
    let expected = table(vec![("times", TomlValue::Array(vec![datetime(true, true, false)]))]);
    assert!(normalized.same_as(&expected));
}

#[test]
fn propagate_adds_the_key_to_the_path() {
    let err = NormalizationError::ValueMismatch {
        path: vec!["inner".to_string()],
        value_types: Box::new((TomlValue::Integer, TomlValue::String)),
    };
    match err.propagate("outer") {
        NormalizationError::ValueMismatch { path, .. } => assert_eq!(path, vec!["inner", "outer"]),
    }
}
