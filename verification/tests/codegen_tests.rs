use toml_const::instantiate::{instantiate_datetime, Literal};
use toml_const::parse::parse_table;
use toml_const::schema::TomlValue;
use toml_const::typedef::{date_time_struct_ident, DatetimeKind, Definition, FieldType};
use toml_const::value::{Date, Datetime, Item, Offset, Time};

const MANIFEST: &str = r#"
[package]
name = "toml_const_macros"
version = "1.2.0"
edition = "2021"
keywords = ["toml", "const", "macro"]

[lib]
proc-macro = true

[dependencies]
proc-macro2 = { version = "1.0" }
quote = { version = "1.0" }

[[example]]
name = "first"
path = "examples/first.rs"

[[example]]
name = "second"
required-features = ["parse"]
"#;

fn pipeline(text: &str) -> (TomlValue, Item) {
    let parsed = parse_table(text).expect("must parse");
    let normalized = TomlValue::from_table(&parsed).normalize().expect("must normalize");
    let mut value = Item::Table(parsed);
    normalized.normalize_toml(&mut value);
    (normalized.reduce(), value)
}

fn field<'a>(def: &'a Definition, name: &str) -> &'a FieldType {
    &def.fields.iter().find(|(k, _)| k == name).expect("a field of that name").1
}

fn is_record(t: &FieldType, module: &str, name: &str) -> bool {
    matches!(t, FieldType::Record { module: Some(m), name: n } if m == module && n == name)
}

#[test]
fn instantiate_test_instantiation() {
    let (schema, value) = pipeline(MANIFEST);
    let instantiation = value.instantiate("ROOT_TABLE", &schema, &vec![]);
    println!("Table instantiation: {:?}", instantiation);
    match instantiation {
        Literal::Record { path, name, args, map } => {
            assert!(path.is_empty());
            assert_eq!(name, "RootTable");
            assert_eq!(args.len(), 4);
            assert!(map.is_none());
        }
        other => panic!("expected the construction of a record, got {:?}", other),
    }
}

#[test]
fn definition_of_a_document() {
    let (schema, _) = pipeline(MANIFEST);
    let def = schema.definition("ROOT_TABLE").expect("a table has a definition");
    println!("definition: {:?}", def);
    assert_eq!(def.name, "RootTable");
    assert_eq!(def.module, "root_table");
    let names: Vec<&str> = def.fields.iter().map(|(k, _)| k.as_str()).collect();
    assert_eq!(names, vec!["package", "lib", "dependencies", "example"]);
    assert!(is_record(field(&def, "package"), "root_table", "Package"));
    assert!(is_record(field(&def, "dependencies"), "root_table", "Dependencies"));
    match field(&def, "example") {
        FieldType::Slice(inner) => assert!(is_record(inner, "root_table", "Example")),
        other => panic!("expected a slice, got {:?}", other),
    }
    assert!(def.map.is_none());
    let inner: Vec<&str> = def.inner.iter().map(|d| d.name.as_str()).collect();
    assert_eq!(inner, vec!["Package", "Lib", "Dependencies", "Example"]);

    let package = &def.inner[0];
    assert!(matches!(field(package, "name"), FieldType::Str));
    match field(package, "keywords") {
        FieldType::Slice(inner) => assert!(matches!(**inner, FieldType::Str)),
        other => panic!("expected a slice, got {:?}", other),
    }
    assert!(package.inner.is_empty());

    // both dependencies have the same fields: the table is a table map
    let dependencies = &def.inner[2];
    let names: Vec<&str> = dependencies.fields.iter().map(|(k, _)| k.as_str()).collect();
    assert_eq!(names, vec!["proc_macro2", "quote"]);
    assert!(is_record(field(dependencies, "quote"), "dependencies", "ProcMacro2"));
    assert!(is_record(dependencies.map.as_ref().expect("a lookup"), "dependencies", "ProcMacro2"));
    assert_eq!(dependencies.inner.len(), 1);
    assert_eq!(dependencies.inner[0].name, "ProcMacro2");

    // the two examples are unified into one record with all three fields
    let example = &def.inner[3];
    let names: Vec<&str> = example.fields.iter().map(|(k, _)| k.as_str()).collect();
    assert_eq!(names, vec!["name", "path", "required_features"]);
}

#[test]
fn scalars_and_empty_arrays_ask_for_no_definition() {
    assert!(TomlValue::Integer.definition("k").is_none());
    assert!(TomlValue::Array(vec![]).definition("k").is_none());
    assert!(TomlValue::Array(vec![TomlValue::String]).definition("k").is_none());
    assert!(
        TomlValue::Datetime { date: true, time: false, offset: false }.definition("k").is_none()
    );
}

#[test]
fn field_types() {
    assert!(matches!(TomlValue::String.ty("k", None), FieldType::Str));
    assert!(matches!(TomlValue::Integer.ty("k", None), FieldType::Int));
    assert!(matches!(TomlValue::Float.ty("k", None), FieldType::Float));
    assert!(matches!(TomlValue::Boolean.ty("k", None), FieldType::Bool));
    let dt = TomlValue::Datetime { date: true, time: true, offset: false };
    assert!(matches!(dt.ty("k", None), FieldType::Datetime(DatetimeKind::LocalDateTime)));
    match TomlValue::Array(vec![]).ty("k", None) {
        FieldType::Slice(inner) => assert!(matches!(*inner, FieldType::Str)),
        other => panic!("expected a slice, got {:?}", other),
    }
    let table = TomlValue::Table(vec![]);
    assert!(matches!(table.ty("my-key", None), FieldType::Record { module: None, ref name } if name == "MyKey"));
    assert!(is_record(&table.ty("my-key", Some("outer")), "outer", "MyKey"));
}

#[test]
fn datetime_shapes() {
    assert_eq!(date_time_struct_ident(true, true, true), DatetimeKind::OffsetDateTime);
    assert_eq!(date_time_struct_ident(false, false, true), DatetimeKind::OffsetDateTime);
    assert_eq!(date_time_struct_ident(true, true, false), DatetimeKind::LocalDateTime);
    assert_eq!(date_time_struct_ident(true, false, false), DatetimeKind::LocalDate);
    assert_eq!(date_time_struct_ident(false, true, false), DatetimeKind::LocalTime);
    assert_eq!(DatetimeKind::OffsetDateTime.name(), "OffsetDateTime");
    assert_eq!(DatetimeKind::LocalDateTime.name(), "LocalDateTime");
    assert_eq!(DatetimeKind::LocalDate.name(), "LocalDate");
    assert_eq!(DatetimeKind::LocalTime.name(), "LocalTime");
}

#[test]
fn datetime_literals() {
    let date = Date { year: 1979, month: 5, day: 27 };
    let time = Time { hour: 7, minute: 32, second: 0, nanosecond: 0 };
    let full = Datetime { date: Some(date), time: Some(time), offset: Some(Offset::Z) };
    assert!(matches!(instantiate_datetime(&full), Literal::Datetime(DatetimeKind::OffsetDateTime, dt) if dt == full));
    let local = Datetime { date: Some(date), time: Some(time), offset: None };
    assert!(matches!(instantiate_datetime(&local), Literal::Datetime(DatetimeKind::LocalDateTime, _)));
    let day = Datetime { date: Some(date), time: None, offset: None };
    assert!(matches!(instantiate_datetime(&day), Literal::Datetime(DatetimeKind::LocalDate, _)));
    let clock = Datetime { date: None, time: Some(time), offset: None };
    assert!(matches!(instantiate_datetime(&clock), Literal::Datetime(DatetimeKind::LocalTime, _)));
}

#[test]
fn every_element_of_an_array_is_instantiated() {
    let (schema, value) = pipeline("[[rows]]\nid = 1\n\n[[rows]]\nid = 2\nlabel = \"two\"\n");
    match value.instantiate("root", &schema, &vec![]) {
        Literal::Record { args, .. } => match &args[0] {
            Literal::Array(rows) => {
                assert_eq!(rows.len(), 2);
                for row in rows {
                    match row {
                        Literal::Record { path, name, args, map } => {
                            assert_eq!(path, &vec!["root"]);
                            assert_eq!(name, "Rows");
                            assert_eq!(args.len(), 2);
                            assert!(map.is_none());
                        }
                        other => panic!("expected the construction of a record, got {:?}", other),
                    }
                }
                // the label that the first row lacks is filled in with the default
                match &rows[0] {
                    Literal::Record { args, .. } => {
                        assert!(matches!(args[0], Literal::Int(1)));
                        assert!(matches!(args[1], Literal::Str(ref s) if s.is_empty()));
                    }
                    other => panic!("expected the construction of a record, got {:?}", other),
                }
            }
            other => panic!("expected a slice, got {:?}", other),
        },
        other => panic!("expected the construction of a record, got {:?}", other),
    }
}

#[test]
fn table_map_is_instantiated_with_its_lookup() {
    let (schema, value) = pipeline("[reg]\nfirst = { score = 1 }\nsecond = { score = 2 }\n");
    match value.instantiate("root", &schema, &vec!["outer".to_string()]) {
        Literal::Record { path, name, args, map } => {
            assert_eq!(path, vec!["outer"]);
            assert_eq!(name, "Root");
            // the root has one value and all values of one table are the same: a table map
            assert_eq!(args.len(), 1);
            let lookup = map.expect("a lookup");
            assert_eq!(lookup.len(), 1);
            assert_eq!(lookup[0].0, "reg");
            match &lookup[0].1 {
                Literal::Record { path, name, args, map } => {
                    assert_eq!(path, &vec!["outer", "root"]);
                    assert_eq!(name, "Reg");
                    assert_eq!(args.len(), 2);
                    let lookup = map.as_ref().expect("a lookup");
                    let keys: Vec<&str> = lookup.iter().map(|(k, _)| k.as_str()).collect();
                    assert_eq!(keys, vec!["first", "second"]);
                    match &lookup[1].1 {
                        Literal::Record { path, name, args, .. } => {
                            assert_eq!(path, &vec!["outer", "root", "reg"]);
                            assert_eq!(name, "First");
                            assert!(matches!(args[0], Literal::Int(2)));
                        }
                        other => panic!("expected the construction of a record, got {:?}", other),
                    }
                }
                other => panic!("expected the construction of a record, got {:?}", other),
            }
        }
        other => panic!("expected the construction of a record, got {:?}", other),
    }
}

#[test]
fn colliding_identifiers_are_found() {
    let (schema, _) = pipeline(MANIFEST);
    assert!(schema.definition("ROOT_TABLE").unwrap().has_distinct_names());

    // two keys with one identifier
    let (schema, _) = pipeline("a-b = 1\na_b = \"x\"\n");
    assert!(!schema.definition("root").unwrap().has_distinct_names());

    // further in
    let (schema, _) = pipeline("x = 1\n[t]\n\"k.1\" = 1\nk-1 = \"x\"\n");
    assert!(!schema.definition("root").unwrap().has_distinct_names());

    // two tables with one type name
    let (schema, _) = pipeline("[my-table]\na = 1\n[my_table2]\nb = 1\n[MyTable]\nc = \"x\"\n");
    assert!(!schema.definition("root").unwrap().has_distinct_names());

    // a key of a table map with the name of the lookup field
    let (schema, _) = pipeline("[reg]\nmap = { score = 1 }\nother = { score = 2 }\n");
    let def = schema.definition("root").unwrap();
    assert!(def.inner[0].map.is_some());
    assert!(!def.has_distinct_names());
}
