use toml_const::generate::{generate, GenerationError};
use toml_const::instantiate::Literal;
use toml_const::normalize::NormalizationError;
use toml_const::parse::parse_table;
use toml_const::schema::TomlValue;
use toml_const::value::{Datetime, Item};

#[test]
fn a_document_is_generated() {
    let table = parse_table(
        "title = \"x\"\n[[rows]]\nid = 1\n\n[[rows]]\nid = 2\nat = 1979-05-27T07:32:00Z\n[limits]\nlow = { max = 1 }\nhigh = { max = 9 }\n",
    )
    .unwrap();
    let generated = generate(&table, "MY_CONFIG").expect("the document is fine");

    // the schema: rows are unified, limits is a table map
    match &generated.schema {
        TomlValue::Table(entries) => {
            let keys: Vec<&str> = entries.iter().map(|(k, _)| k.as_str()).collect();
            assert_eq!(keys, vec!["title", "rows", "limits"]);
            assert!(matches!(entries[1].1, TomlValue::Array(ref items) if items.len() == 1));
            assert!(matches!(entries[2].1, TomlValue::TableMap { .. }));
        }
        other => panic!("expected a table, got {:?}", other),
    }

    // the value: the first row has got the datetime that it lacked
    let expected = parse_table(
        "title = \"x\"\nrows = [{ id = 1, at = 1970-01-01T00:00:00Z }, { id = 2, at = 1979-05-27T07:32:00Z }]\n[limits]\nlow = { max = 1 }\nhigh = { max = 9 }\n",
    )
    .unwrap();
    assert_eq!(generated.value, Item::Table(expected));

    let def = generated.definitions.expect("a table has a definition");
    assert_eq!(def.name, "MyConfig");
    assert_eq!(def.module, "my_config");
    let inner: Vec<&str> = def.inner.iter().map(|d| d.name.as_str()).collect();
    assert_eq!(inner, vec!["Rows", "Limits"]);

    match &generated.instantiation {
        Literal::Record { path, name, args, map } => {
            assert!(path.is_empty());
            assert_eq!(name, "MyConfig");
            assert_eq!(args.len(), 3);
            assert!(map.is_none());
            assert!(matches!(args[1], Literal::Array(ref rows) if rows.len() == 2));
            assert!(matches!(args[2], Literal::Record { map: Some(ref lookup), .. } if lookup.len() == 2));
        }
        other => panic!("expected the construction of a record, got {:?}", other),
    }
}

#[test]
fn documents_that_are_refused() {
    let twice = vec![("a".to_string(), Item::Integer(1)), ("a".to_string(), Item::Integer(2))];
    assert!(matches!(generate(&twice, "X"), Err(GenerationError::DuplicateKey)));

    let empty_key = parse_table("\"\" = 1\n").unwrap();
    assert!(matches!(generate(&empty_key, "X"), Err(GenerationError::InvalidKey)));

    let nothing = Datetime { date: None, time: None, offset: None };
    let no_components = vec![("at".to_string(), Item::Datetime(nothing))];
    assert!(matches!(generate(&no_components, "X"), Err(GenerationError::UnsupportedDatetime)));

    let mismatch = parse_table("[[array]]\nkey2 = 42\n\n[[array]]\nkey2 = \"x\"\n").unwrap();
    match generate(&mismatch, "X") {
        Err(GenerationError::ValueMismatch(NormalizationError::ValueMismatch { path, value_types })) => {
            assert_eq!(path, vec!["key2", "array"]);
            assert!(matches!(value_types.0, TomlValue::Integer));
            assert!(matches!(value_types.1, TomlValue::String));
        }
        other => panic!("expected a mismatch, got {:?}", other),
    }
}

#[test]
fn the_empty_document_is_generated() {
    let generated = generate(&Vec::new(), "EMPTY").expect("the document is fine");
    assert!(matches!(generated.schema, TomlValue::Table(ref entries) if entries.is_empty()));
    assert!(matches!(
        generated.instantiation,
        Literal::Record { ref args, map: None, .. } if args.is_empty()
    ));
}
