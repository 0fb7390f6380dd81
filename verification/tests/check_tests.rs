use toml_const::check::{
    check, check_unauthorized_keys, compare_table_schema, propagate_check_error, CheckError,
};
use toml_const::parse::parse_table;
use toml_const::schema::TomlValue;

fn schema_of(text: &str) -> Vec<(String, TomlValue)> {
    let table = parse_table(text).expect("must parse");
    match TomlValue::from_table(&table) {
        TomlValue::Table(entries) => entries,
        other => panic!("a table has the schema of a table, got {:?}", other),
    }
}

#[test]
fn test_check_unauthorized_keys() {
    let toml_str = r#"
            [a]
            key1 = "value1"
            key2 = 42
            key3 = true

            [[b]]
            key1 = "value1"

            [[b]]
            key1 = "value2"

            [c]
            subtable.item = "value3"
            subtable.otheritem = "value4"
        "#;

    let table = parse_table(toml_str).unwrap();
    assert!(check_unauthorized_keys(&table).is_ok());

    // Check with an empty key
    let toml_str_with_empty_key = r#"
            [a]
            "" = "value1"
            key2 = 42
            key3 = true

            [[b]]
            key1 = "value1"

            [[b]]
            key1 = "value2"

            [c]
            subtable.item = "value3"
            subtable.otheritem = "value4"
        "#;

    let table_with_empty_key = parse_table(toml_str_with_empty_key).unwrap();
    let res = check_unauthorized_keys(&table_with_empty_key);
    assert!(res.is_err());
}

#[test]
fn empty_key_in_a_table_of_an_array_is_found() {
    let table = parse_table("[[b]]\nkey1 = 1\n\n[[b]]\n\"\" = 2\n").unwrap();
    assert!(check_unauthorized_keys(&table).is_err());
}

#[test]
fn empty_key_in_an_array_of_an_array_is_not_looked_for() {
    let table = parse_table("b = [[{ \"\" = 2 }]]\n").unwrap();
    assert!(check_unauthorized_keys(&table).is_ok());
}

#[test]
fn test_check_matching_schema() {
    let toml_a = r#"
            [a]
            key1 = "value1"
            key2 = 42
            key3 = true

            [[b]]
            key1 = "value1"

            [[b]]
            key1 = "value2"

            [c]
            subtable.item = "value3"
            subtable.otheritem = "value4"
        "#;

    let toml_b = r#"
            [a]
            key1 = "value2"
            key2 = 24
            key3 = false

            [[b]]
            key1 = "value3"

            [c]
            subtable.item = "value3"
            subtable.otheritem = "value4"
        "#;

    let table_a = schema_of(toml_a);
    let table_b = schema_of(toml_b);

    assert!(compare_table_schema(&table_a, &table_b).is_ok());
}

/// Return an error pointing to the key that does not have the correct data type
#[test]
fn test_key_type_mismatch() {
    let toml_a = r#"
            [a]
            a_inner.key1 = "value1"
            key2 = 42
        "#;

    let toml_b = r#"
            [a]
            a_inner.key1 = true
            key2 = 24
        "#;

    let table_a = schema_of(toml_a);
    let table_b = schema_of(toml_b);

    let res = compare_table_schema(&table_a, &table_b);
    assert!(res.is_err());

    if let CheckError::ValueMismatch(items) = res.clone().unwrap_err() {
        assert_eq!(items, vec!["key1", "a_inner", "a"]);
    } else {
        panic!("Expected ValueMismatch error, got {:?}", res);
    }
}

/// Return an error showing one or two keys that
#[test]
fn test_key_mismatch() {
    let toml_a = r#"
            [a]
            key1 = "value1"
            key2 = 42
        "#;

    let toml_b = r#"
            [a]
            key1 = "value2"
            key3 = 24
        "#;

    let table_a = schema_of(toml_a);
    let table_b = schema_of(toml_b);

    let res = compare_table_schema(&table_a, &table_b);
    println!("{:?}", res);
    assert!(res.is_err());

    if let CheckError::KeyMismatch { a_diff, b_diff, .. } = res.clone().unwrap_err() {
        assert_eq!(a_diff, Some("key2".to_string()));
        assert_eq!(b_diff, Some("key3".to_string()));
    } else {
        panic!("Expected KeyMismatch error, got {:?}", res);
    }
}

#[test]
fn key_mismatch_carries_the_path_of_the_table() {
    let table_a = schema_of("[a]\nkey1 = \"v\"\nkey2 = 1\n");
    let table_b = schema_of("[a]\nkey1 = \"v\"\nkey3 = 1\n");
    match compare_table_schema(&table_a, &table_b) {
        Err(CheckError::KeyMismatch { path, a_diff, b_diff }) => {
            assert_eq!(path, vec!["a"]);
            assert_eq!(a_diff.as_deref(), Some("key2"));
            assert_eq!(b_diff.as_deref(), Some("key3"));
        }
        other => panic!("Expected KeyMismatch error, got {:?}", other),
    }
}

#[test]
fn key_only_on_one_side_is_named_alone() {
    let table_a = schema_of("x = 1\n");
    let table_b = schema_of("x = 1\ny = 2\nz = 3\n");
    match compare_table_schema(&table_a, &table_b) {
        Err(CheckError::KeyMismatch { path, a_diff, b_diff }) => {
            assert!(path.is_empty());
            assert_eq!(a_diff, None);
            assert_eq!(b_diff.as_deref(), Some("y"));
        }
        other => panic!("Expected KeyMismatch error, got {:?}", other),
    }
}

#[test]
fn arrays_are_compared_by_their_first_elements() {
    let table_a = schema_of("list = [1, 2, 3]\n");
    let table_b = schema_of("list = [\"one\"]\n");
    match compare_table_schema(&table_a, &table_b) {
        Err(CheckError::ValueMismatch(path)) => assert_eq!(path, vec!["list"]),
        other => panic!("Expected ValueMismatch error, got {:?}", other),
    }
    let table_c = schema_of("list = []\n");
    assert!(compare_table_schema(&table_a, &table_c).is_ok());
}

#[test]
fn datetimes_of_different_shapes_agree() {
    let table_a = schema_of("at = 1979-05-27T07:32:00Z\n");
    let table_b = schema_of("at = 07:32:00\n");
    assert!(compare_table_schema(&table_a, &table_b).is_ok());
}

#[test]
fn check_finds_the_inconsistent_array() {
    let consistent = schema_of("[a]\nlist = [1, 2]\n");
    assert!(check(&consistent).is_ok());

    let table = schema_of("[a]\nfine = [1, 2]\nlist = [1, \"two\"]\n");
    match check(&table) {
        Err(CheckError::ValueMismatch(path)) => assert_eq!(path, vec!["list", "a"]),
        other => panic!("Expected ValueMismatch error, got {:?}", other),
    }
}

#[test]
fn check_looks_into_the_tables_of_an_array() {
    let table = schema_of("[[b]]\nkey1 = 1\n\n[[b]]\nkey2 = 1\n");
    match check(&table) {
        Err(CheckError::KeyMismatch { path, a_diff, b_diff }) => {
            assert_eq!(path, vec!["b"]);
            assert_eq!(a_diff.as_deref(), Some("key1"));
            assert_eq!(b_diff.as_deref(), Some("key2"));
        }
        other => panic!("Expected KeyMismatch error, got {:?}", other),
    }
}

#[test]
fn propagate_adds_the_key_at_the_end() {
    let err = CheckError::ValueMismatch(vec!["inner".to_string()]);
    match propagate_check_error("outer", err) {
        CheckError::ValueMismatch(path) => assert_eq!(path, vec!["inner", "outer"]),
        other => panic!("Expected ValueMismatch error, got {:?}", other),
    }
    let err = CheckError::KeyMismatch { path: vec![], a_diff: Some("k".to_string()), b_diff: None };
    match propagate_check_error("outer", err) {
        CheckError::KeyMismatch { path, a_diff, b_diff } => {
            assert_eq!(path, vec!["outer"]);
            assert_eq!(a_diff.as_deref(), Some("k"));
            assert_eq!(b_diff, None);
        }
        other => panic!("Expected KeyMismatch error, got {:?}", other),
    }
}

#[test]
fn an_array_that_fails_its_own_check_keeps_its_key() {
    let table_a = schema_of("a = [1, \"x\"]\n");
    let table_b = schema_of("a = [1]\n");
    match compare_table_schema(&table_a, &table_b) {
        Err(CheckError::ValueMismatch(path)) => assert_eq!(path, vec!["a"]),
        other => panic!("Expected ValueMismatch error, got {:?}", other),
    }
    match compare_table_schema(&table_b, &table_a) {
        Err(CheckError::ValueMismatch(path)) => assert_eq!(path, vec!["a"]),
        other => panic!("Expected ValueMismatch error, got {:?}", other),
    }
    let nested_a = schema_of("[t]\na = [{ k = 1 }, { k = \"x\" }]\n");
    let nested_b = schema_of("[t]\na = [{ k = 1 }]\n");
    match compare_table_schema(&nested_a, &nested_b) {
        Err(CheckError::ValueMismatch(path)) => assert_eq!(path, vec!["k", "a", "t"]),
        other => panic!("Expected ValueMismatch error, got {:?}", other),
    }
}

#[test]
fn every_two_elements_of_an_array_must_agree() {
    let arrays = TomlValue::Array(vec![
        TomlValue::Array(vec![]),
        TomlValue::Array(vec![TomlValue::Integer]),
        TomlValue::Array(vec![TomlValue::String]),
    ]);
    let elements = match arrays {
        TomlValue::Array(elements) => elements,
        other => panic!("expected an array, got {:?}", other),
    };
    match toml_const::check::check_array_schema(&elements) {
        Err(CheckError::ValueMismatch(path)) => assert!(path.is_empty()),
        other => panic!("Expected ValueMismatch error, got {:?}", other),
    }
    let table = schema_of("l = [[], [1], [\"x\"]]\n");
    match check(&table) {
        Err(CheckError::ValueMismatch(path)) => assert_eq!(path, vec!["l"]),
        other => panic!("Expected ValueMismatch error, got {:?}", other),
    }
    let fine = vec![
        TomlValue::Array(vec![]),
        TomlValue::Array(vec![TomlValue::Integer]),
        TomlValue::Array(vec![TomlValue::Integer, TomlValue::Integer]),
    ];
    assert!(toml_const::check::check_array_schema(&fine).is_ok());
    assert!(toml_const::check::check_array_schema(&vec![]).is_ok());
    assert!(toml_const::check::check_array_schema(&vec![TomlValue::Integer]).is_ok());
}

#[test]
fn the_first_pair_that_disagrees_is_reported() {
    // the second and the third table disagree in a key, the first and the fourth in a kind
    let table = schema_of(
        "l = [{ a = 1, b = 1 }, { a = 1, b = 1 }, { a = 1, c = 1 }, { a = \"x\", b = 1 }]\n",
    );
    match check(&table) {
        Err(CheckError::KeyMismatch { path, a_diff, b_diff }) => {
            assert_eq!(path, vec!["l"]);
            assert_eq!(a_diff.as_deref(), Some("b"));
            assert_eq!(b_diff.as_deref(), Some("c"));
        }
        other => panic!("Expected KeyMismatch error, got {:?}", other),
    }
}
