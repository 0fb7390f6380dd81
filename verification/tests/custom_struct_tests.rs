use toml_const::custom_struct::{
    def_inner_tables, instantiate, table_type_def, to_array_type_ident, value_type, Key,
};
use toml_const::instantiate::Literal;
use toml_const::parse::parse_table;
use toml_const::typedef::{DatetimeKind, FieldType};
use toml_const::value::Item;

const MANIFEST: &str = r#"
[package]
name = "toml_const_macros"
version = "1.2.0"
keywords = ["toml", "const", "macro"]
released = 2024-01-15T08:30:00Z

[lib]
proc-macro = true

[dependencies]
syn = { version = "2.0", features = ["full"] }

[[example]]
name = "first"
path = "examples/first.rs"

[[example]]
name = "second"
"#;

#[test]
fn test_sub_tables() {
    let toml = parse_table(MANIFEST).unwrap();

    let table_defs = def_inner_tables(&toml, &Key::Var("ROOT_TABLE".to_string()), false);

    println!("Table definitions: {:?}", table_defs);
}

#[test]
fn custom_struct_test_sub_tables() {
    let toml = parse_table(MANIFEST).unwrap();

    let table_defs = def_inner_tables(&toml, &Key::Var("ROOT_TABLE".to_string()), false);

    println!("Table definitions: {:?}", table_defs);
    assert_eq!(table_defs.name, "RootTable");
    assert_eq!(table_defs.module, "root_table");
    let names: Vec<&str> = table_defs.fields.iter().map(|(k, _)| k.as_str()).collect();
    assert_eq!(names, vec!["PACKAGE", "LIB", "DEPENDENCIES", "EXAMPLE"]);
    let inner: Vec<&str> = table_defs.inner.iter().map(|d| d.name.as_str()).collect();
    assert_eq!(inner, vec!["Package", "Lib", "Dependencies", "ExampleItem"]);
    let dependencies = &table_defs.inner[2];
    assert_eq!(dependencies.inner.len(), 1);
    assert_eq!(dependencies.inner[0].name, "Syn");
    assert!(matches!(
        dependencies.fields[0].1,
        FieldType::Record { module: Some(ref m), ref name } if m == "dependencies" && name == "Syn"
    ));
    // the element type of an array of tables is named after the array
    match &table_defs.fields[3].1 {
        FieldType::Slice(inner) => assert!(matches!(
            **inner,
            FieldType::Record { module: Some(ref m), ref name } if m == "root_table" && name == "ExampleItem"
        )),
        other => panic!("expected an array, got {:?}", other),
    }
    let package = &table_defs.inner[0];
    assert!(matches!(package.fields[3].1, FieldType::AnyDatetime));
    let unwrapped = def_inner_tables(&toml, &Key::Var("ROOT_TABLE".to_string()), true);
    assert!(matches!(
        unwrapped.inner[0].fields[3].1,
        FieldType::Datetime(DatetimeKind::OffsetDateTime)
    ));
}

#[test]
fn test_instantiation() {
    let toml = parse_table(MANIFEST).unwrap();

    let instantiation = instantiate(&Item::Table(toml), "ROOT_TABLE", &vec![]);

    println!("Table instantiation: {:?}", instantiation);
}

#[test]
fn custom_struct_test_instantiation() {
    let toml = parse_table(MANIFEST).unwrap();

    let instantiation = instantiate(&Item::Table(toml), "ROOT_TABLE", &vec![]);

    println!("Table instantiation: {:?}", instantiation);
    match instantiation {
        Literal::Struct { path, name, fields } => {
            assert!(path.is_empty());
            assert_eq!(name, "RootTable");
            let names: Vec<&str> = fields.iter().map(|(k, _)| k.as_str()).collect();
            assert_eq!(names, vec!["package", "lib", "dependencies", "example"]);
            match &fields[0].1 {
                Literal::Struct { path, name, fields } => {
                    assert_eq!(path, &vec!["root_table"]);
                    assert_eq!(name, "Package");
                    assert!(matches!(fields[0].1, Literal::Str(ref s) if s == "toml_const_macros"));
                    assert!(matches!(fields[2].1, Literal::Array(ref items) if items.len() == 3));
                    assert!(matches!(
                        fields[3].1,
                        Literal::Datetime(DatetimeKind::OffsetDateTime, _)
                    ));
                }
                other => panic!("expected a record, got {:?}", other),
            }
            match &fields[3].1 {
                Literal::Array(items) => {
                    assert_eq!(items.len(), 2);
                    assert!(matches!(items[1], Literal::Struct { ref name, ref fields, .. } if name == "Example" && fields.len() == 1));
                }
                other => panic!("expected an array, got {:?}", other),
            }
        }
        other => panic!("expected a record, got {:?}", other),
    }
}

#[test]
fn keys_and_their_types() {
    assert_eq!(Key::Element("a".to_string()).value(), "a");
    assert_eq!(Key::Field("b".to_string()).value(), "b");
    assert_eq!(Key::Var("c".to_string()).value(), "c");
    assert_eq!(to_array_type_ident("my-list"), "MyListItem");
    let table = parse_table("x = 1\n").unwrap();
    assert_eq!(table_type_def(&table, &Key::Element("rows".to_string()), false).name, "RowsItem");
    assert_eq!(table_type_def(&table, &Key::Field("rows".to_string()), false).name, "Rows");
    assert_eq!(table_type_def(&table, &Key::Var("ROWS".to_string()), false).name, "ROWS");
    assert_eq!(table_type_def(&table, &Key::Var("MY_ROWS".to_string()), false).name, "MyRows");
    let def = table_type_def(&table, &Key::Field("rows".to_string()), false);
    assert_eq!(def.fields.len(), 1);
    assert_eq!(def.fields[0].0, "X");
    assert!(matches!(def.fields[0].1, FieldType::Int));
    assert!(def.inner.is_empty());
}

#[test]
fn types_of_values() {
    assert!(matches!(value_type(&Item::String("s".into()), "k", "p", false), FieldType::Str));
    assert!(matches!(value_type(&Item::Integer(1), "k", "p", false), FieldType::Int));
    assert!(matches!(value_type(&Item::Float(0), "k", "p", false), FieldType::Float));
    assert!(matches!(value_type(&Item::Boolean(true), "k", "p", false), FieldType::Bool));
    match value_type(&Item::Array(vec![]), "k", "p", false) {
        FieldType::Slice(inner) => assert!(matches!(*inner, FieldType::Empty)),
        other => panic!("expected an array, got {:?}", other),
    }
    match value_type(&Item::Array(vec![Item::Array(vec![Item::Table(vec![])])]), "k", "p", false) {
        FieldType::Slice(inner) => match *inner {
            FieldType::Slice(inner) => assert!(matches!(
                *inner,
                FieldType::Record { module: Some(ref m), ref name } if m == "p" && name == "KItemItem"
            )),
            other => panic!("expected an array, got {:?}", other),
        },
        other => panic!("expected an array, got {:?}", other),
    }
}
