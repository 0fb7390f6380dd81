use std::path::PathBuf;
use toml_const::check::CheckError;
use toml_const::message::join_path;
use toml_const::normalize::NormalizationError;
use toml_const::paths::{path_as_text, pathbuf_to_str};
use toml_const::schema::TomlValue;

fn path(keys: &[&str]) -> Vec<String> {
    keys.iter().map(|k| k.to_string()).collect()
}

#[test]
fn path_is_written_from_the_root() {
    assert_eq!(join_path(&path(&["key1", "a_inner", "a"])), "a::a_inner::key1");
    assert_eq!(join_path(&path(&["only"])), "only");
    assert_eq!(join_path(&path(&[])), "");
}

#[test]
fn check_error_messages() {
    let err = CheckError::ValueMismatch(path(&["key1", "a_inner", "a"]));
    assert_eq!(err.to_string(), "type mismatch for key: a::a_inner::key1");
    let err = CheckError::KeyMismatch {
        path: path(&["a"]),
        a_diff: Some("key2".to_string()),
        b_diff: Some("key3".to_string()),
    };
    assert_eq!(err.to_string(), "a has at least 2 keys that differ: key2, key3");
    let err = CheckError::KeyMismatch { path: path(&["t", "a"]), a_diff: None, b_diff: Some("k".to_string()) };
    assert_eq!(err.to_string(), "a::t contains at least one additional key: k");
    let err = CheckError::KeyMismatch { path: path(&["t", "a"]), a_diff: Some("k".to_string()), b_diff: None };
    assert_eq!(err.to_string(), "a::t contains at least one additional key: k");
}

#[test]
fn normalization_error_message() {
    let err = NormalizationError::ValueMismatch {
        path: path(&["key2", "array"]),
        value_types: Box::new((TomlValue::Integer, TomlValue::String)),
    };
    assert_eq!(err.to_string(), "Value mismatch at array::key2 - found: Integer and String");
}

#[test]
fn schemas_written_out() {
    assert_eq!(TomlValue::Float.describe(), "Float");
    assert_eq!(TomlValue::Boolean.describe(), "Boolean");
    let dt = TomlValue::Datetime { date: true, time: false, offset: false };
    assert_eq!(dt.describe(), "Datetime { date: true, time: false, offset: false }");
    let array = TomlValue::Array(vec![TomlValue::Integer, TomlValue::String]);
    assert_eq!(array.describe(), "Array([Integer, String])");
    assert_eq!(TomlValue::Array(vec![]).describe(), "Array([])");
    let table = TomlValue::Table(vec![
        ("a".to_string(), TomlValue::Integer),
        ("b".to_string(), TomlValue::Array(vec![TomlValue::Float])),
    ]);
    assert_eq!(table.describe(), "Table({\"a\": Integer, \"b\": Array([Float])})");
    let map = TomlValue::TableMap {
        keys: vec!["x".to_string(), "y".to_string()],
        value_type: Box::new(TomlValue::Table(vec![])),
    };
    assert_eq!(map.describe(), "TableMap { keys: [\"x\", \"y\"], value_type: Table({}) }");
}

#[test]
fn paths_as_text() {
    let p = PathBuf::from("some/dir/file.toml");
    assert_eq!(path_as_text(&p), Some("some/dir/file.toml"));
    assert_eq!(pathbuf_to_str(&p), "some/dir/file.toml");
}
