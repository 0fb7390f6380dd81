use toml_const::custom_struct::{Key, TableTypeDef, ValueType};
use toml_const::datetime::{Array, Empty};
use toml_const::ident::ConstIdentDef;
use toml_const::instantiate::{Instantiate, Literal};
use toml_const::parse::parse_table;
use toml_const::schema::TomlValue;
use toml_const::typedef::{DatetimeKind, FieldType};
use toml_const::value::{Date, Datetime, Item};

#[test]
fn identifiers_of_strings() {
    assert_eq!("proc-macro".to_variable_ident(), "PROC_MACRO");
    assert_eq!("proc-macro".to_module_ident(), "proc_macro");
    assert_eq!("proc-macro".to_type_ident(), "ProcMacro");
    let key = "ROOT_TABLE".to_string();
    assert_eq!(key.to_variable_ident(), "ROOT_TABLE");
    assert_eq!(key.to_module_ident(), "root_table");
    assert_eq!(key.to_type_ident(), "RootTable");
}

#[test]
fn arrays_give_their_elements() {
    static NUMBERS: [i64; 3] = [1, 2, 3];
    let array = Array(&NUMBERS);
    assert_eq!(array.len(), 3);
    assert_eq!(array[1], 2);
    assert_eq!(array.iter().sum::<i64>(), 6);
    let empty: Array<Empty> = Array(&[]);
    assert!(empty.is_empty());
}

#[test]
fn every_part_of_a_document_is_instantiated() {
    let table = parse_table("a = 1\nl = [1, 2]\n").unwrap();
    let schema = TomlValue::from_table(&table).normalize().unwrap();
    match Instantiate::instantiate(&table, "root", &schema, &vec![]) {
        Literal::Record { name, args, .. } => {
            assert_eq!(name, "Root");
            assert_eq!(args.len(), 2);
        }
        other => panic!("expected the construction of a record, got {:?}", other),
    }
    let list = vec![Item::Integer(1), Item::Integer(2)];
    let list_schema = TomlValue::Array(vec![TomlValue::Integer]);
    assert!(matches!(
        Instantiate::instantiate(&list, "l", &list_schema, &vec![]),
        Literal::Array(ref items) if items.len() == 2
    ));
    assert!(matches!(
        Instantiate::instantiate(&Item::Boolean(true), "b", &TomlValue::Boolean, &vec![]),
        Literal::Bool(true)
    ));
    let day = Datetime { date: Some(Date { year: 2000, month: 2, day: 29 }), time: None, offset: None };
    let day_schema = TomlValue::Datetime { date: true, time: false, offset: false };
    assert!(matches!(
        Instantiate::instantiate(&day, "d", &day_schema, &vec![]),
        Literal::Datetime(DatetimeKind::LocalDate, _)
    ));
}

#[test]
fn definitions_and_types_from_values() {
    let table = parse_table("x = 1\n[t]\ny = 2\n").unwrap();
    let def = table.table_type_def(&Key::Field("root".to_string()), false);
    assert_eq!(def.name, "Root");
    assert_eq!(def.fields.len(), 2);
    assert!(matches!(
        def.fields[1].1,
        FieldType::Record { module: Some(ref m), ref name } if m == "root" && name == "T"
    ));
    assert!(matches!(Item::Integer(1).value_type("k", "p", false), FieldType::Int));
    let literal = toml_const::custom_struct::Instantiate::instantiate(&Item::Table(table), "root", &vec![]);
    assert!(matches!(literal, Literal::Struct { ref fields, .. } if fields.len() == 2));
}
