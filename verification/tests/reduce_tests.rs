use toml_const::parse::parse_table;
use toml_const::schema::TomlValue;

fn table(entries: Vec<(&str, TomlValue)>) -> TomlValue {
    TomlValue::Table(entries.into_iter().map(|(k, v)| (k.to_string(), v)).collect())
}

fn entry() -> TomlValue {
    table(vec![("name", TomlValue::String), ("score", TomlValue::Integer)])
}

#[test]
fn table_map_detection() {
    let registry = table(vec![("first", entry()), ("second", entry()), ("third", entry())]);
    match registry.reduce() {
        TomlValue::TableMap { keys, value_type } => {
            assert_eq!(keys, vec!["first", "second", "third"]);
            assert!(value_type.same_as(&entry()));
            assert!(matches!(*value_type, TomlValue::Table(_)));
        }
        other => panic!("expected a table map, got {:?}", other),
    }

    let mixed = table(vec![
        ("first", entry()),
        ("second", table(vec![("name", TomlValue::String), ("score", TomlValue::String)])),
        ("third", entry()),
    ]);
    match mixed.reduce() {
        TomlValue::Table(entries) => {
            let keys: Vec<&str> = entries.iter().map(|(k, _)| k.as_str()).collect();
            assert_eq!(keys, vec!["first", "second", "third"]);
        }
        other => panic!("expected a table, got {:?}", other),
    }
}

#[test]
fn tables_that_differ_in_key_order_only_are_the_same() {
    let registry = table(vec![
        ("first", table(vec![("name", TomlValue::String), ("score", TomlValue::Integer)])),
        ("second", table(vec![("score", TomlValue::Integer), ("name", TomlValue::String)])),
    ]);
    assert!(matches!(registry.reduce(), TomlValue::TableMap { .. }));
}

#[test]
fn empty_table_stays_a_table() {
    assert!(matches!(table(vec![]).reduce(), TomlValue::Table(ref e) if e.is_empty()));
}

#[test]
fn reduce_works_from_the_inside_out() {
    let inner = table(vec![("a", TomlValue::Integer), ("b", TomlValue::Integer)]);
    let outer = table(vec![("x", inner.clone()), ("y", inner.clone())]);
    match outer.reduce() {
        TomlValue::TableMap { keys, value_type } => {
            assert_eq!(keys, vec!["x", "y"]);
            match *value_type {
                TomlValue::TableMap { ref keys, ref value_type } => {
                    assert_eq!(keys, &vec!["a", "b"]);
                    assert!(matches!(**value_type, TomlValue::Integer));
                }
                ref other => panic!("expected a table map, got {:?}", other),
            }
        }
        other => panic!("expected a table map, got {:?}", other),
    }
}

#[test]
fn reduce_looks_into_arrays() {
    let array = TomlValue::Array(vec![table(vec![("a", TomlValue::Integer)])]);
    match array.reduce() {
        TomlValue::Array(items) => {
            assert_eq!(items.len(), 1);
            assert!(matches!(items[0], TomlValue::TableMap { .. }));
        }
        other => panic!("expected an array, got {:?}", other),
    }
}

#[test]
fn reduce_is_idempotent() {
    let text = "[identical]\nfirst = { name = \"a\", score = 1 }\nsecond = { name = \"b\", score = 2 }\n[different]\nfirst = { name = \"a\" }\nsecond = { score = 2 }\n[[rows]]\nid = 1\n";
    let schema = TomlValue::from_table(&parse_table(text).unwrap());
    let once = schema.normalize().expect("must normalize").reduce();
    let twice = once.clone().reduce();
    assert!(once.same_as(&twice));
    assert_eq!(format!("{:?}", once), format!("{:?}", twice));
}

#[test]
fn same_as_tells_schemas_apart() {
    assert!(TomlValue::Integer.same_as(&TomlValue::Integer));
    assert!(!TomlValue::Integer.same_as(&TomlValue::Float));
    let a = TomlValue::Array(vec![TomlValue::Integer]);
    let b = TomlValue::Array(vec![TomlValue::Integer, TomlValue::Integer]);
    assert!(!a.same_as(&b));
    let t = table(vec![("a", TomlValue::Integer)]);
    let u = table(vec![("a", TomlValue::Integer), ("b", TomlValue::Integer)]);
    assert!(!t.same_as(&u));
    assert!(!u.same_as(&t));
    let m = TomlValue::TableMap { keys: vec!["a".to_string()], value_type: Box::new(TomlValue::Integer) };
    let n = TomlValue::TableMap { keys: vec!["b".to_string()], value_type: Box::new(TomlValue::Integer) };
    assert!(m.same_as(&m.clone()));
    assert!(!m.same_as(&n));
    assert!(!m.same_as(&t));
}
