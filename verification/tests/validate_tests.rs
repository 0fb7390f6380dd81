use toml_const::parse::parse_table;
use toml_const::schema::TomlValue;
use toml_const::validate::{
    is_writable, offset_is_writable,
    all_have_shape, can_define, can_type, conforms_to, contains_string, instantiable_along,
    keys_are_distinct, strings_are_distinct, table_is_well_formed,
};
use toml_const::value::{Date, Datetime, Item, Offset};

fn table(entries: Vec<(&str, TomlValue)>) -> TomlValue {
    TomlValue::Table(entries.into_iter().map(|(k, v)| (k.to_string(), v)).collect())
}

fn doc(text: &str) -> Vec<(String, Item)> {
    parse_table(text).expect("must parse")
}

fn dated(date: bool, time: bool, offset: bool) -> Item {
    let d = Date { year: 2000, month: 1, day: 1 };
    let t = toml_const::value::Time { hour: 1, minute: 2, second: 3, nanosecond: 4 };
    Item::Datetime(Datetime {
        date: if date { Some(d) } else { None },
        time: if time { Some(t) } else { None },
        offset: if offset { Some(Offset::Z) } else { None },
    })
}

#[test]
fn distinct_keys() {
    assert!(keys_are_distinct(&vec![("a".to_string(), 1), ("b".to_string(), 2)]));
    assert!(!keys_are_distinct(&vec![("a".to_string(), 1), ("b".to_string(), 2), ("a".to_string(), 3)]));
    assert!(keys_are_distinct::<u8>(&vec![]));
    assert!(strings_are_distinct(&vec!["a".to_string(), "b".to_string()]));
    assert!(!strings_are_distinct(&vec!["b".to_string(), "b".to_string()]));
    assert!(contains_string(&vec!["a".to_string(), "b".to_string()], &"b".to_string()));
    assert!(!contains_string(&vec!["a".to_string()], &"b".to_string()));
}

#[test]
fn well_formed_schemas() {
    let good = table(vec![("a", TomlValue::Integer), ("b", TomlValue::Array(vec![table(vec![])]))]);
    assert!(good.is_well_formed());
    let twice = table(vec![("a", TomlValue::Integer), ("a", TomlValue::String)]);
    assert!(!twice.is_well_formed());
    assert!(!TomlValue::Array(vec![twice.clone()]).is_well_formed());
    assert!(!table(vec![("t", twice)]).is_well_formed());
    let no_keys = TomlValue::TableMap { keys: vec![], value_type: Box::new(TomlValue::Integer) };
    assert!(!no_keys.is_well_formed());
    let map = TomlValue::TableMap {
        keys: vec!["x".to_string(), "y".to_string()],
        value_type: Box::new(TomlValue::Integer),
    };
    assert!(map.is_well_formed());
    let same_keys = TomlValue::TableMap {
        keys: vec!["x".to_string(), "x".to_string()],
        value_type: Box::new(TomlValue::Integer),
    };
    assert!(!same_keys.is_well_formed());
}

#[test]
fn what_can_be_normalized() {
    let map = TomlValue::TableMap { keys: vec!["x".to_string()], value_type: Box::new(TomlValue::Integer) };
    assert!(TomlValue::Integer.is_plain());
    assert!(!map.is_plain());
    assert!(!TomlValue::Array(vec![map.clone()]).is_plain());
    assert!(!table(vec![("m", map.clone())]).is_plain());
    let empty = TomlValue::Datetime { date: false, time: false, offset: false };
    let dated = TomlValue::Datetime { date: false, time: false, offset: true };
    assert!(dated.has_present_datetimes());
    assert!(!empty.has_present_datetimes());
    assert!(!table(vec![("d", TomlValue::Array(vec![empty.clone()]))]).has_present_datetimes());
    assert!(table(vec![("d", dated.clone())]).can_normalize());
    assert!(!table(vec![("d", empty)]).can_normalize());
    assert!(!map.can_normalize());
    let long = TomlValue::Array(vec![TomlValue::Integer, TomlValue::Integer]);
    assert!(!long.has_unified_arrays());
    assert!(!table(vec![("l", long.clone())]).has_unified_arrays());
    assert!(TomlValue::Array(vec![TomlValue::Integer]).has_unified_arrays());
    assert!(long.normalize().expect("must normalize").has_unified_arrays());
}

#[test]
fn well_formed_documents() {
    assert!(table_is_well_formed(&doc("a = 1\n[t]\nb = 2\n")));
    let twice = vec![("a".to_string(), Item::Integer(1)), ("a".to_string(), Item::Integer(2))];
    assert!(!table_is_well_formed(&twice));
    assert!(!Item::Array(vec![Item::Table(twice.clone())]).is_well_formed());
    assert!(!Item::Table(vec![("t".to_string(), Item::Table(twice))]).is_well_formed());
    assert!(Item::Integer(1).is_well_formed());
}

#[test]
fn shapes_of_datetimes() {
    assert!(all_have_shape(&dated(true, true, true)));
    assert!(all_have_shape(&dated(true, true, false)));
    assert!(all_have_shape(&dated(true, false, false)));
    assert!(all_have_shape(&dated(false, true, false)));
    assert!(!all_have_shape(&dated(false, false, false)));
    assert!(!all_have_shape(&dated(true, false, true)));
    assert!(!all_have_shape(&dated(false, false, true)));
    assert!(!all_have_shape(&Item::Array(vec![dated(true, true, true), dated(false, true, true)])));
    assert!(!all_have_shape(&Item::Table(vec![("d".to_string(), dated(false, false, true))])));
    assert!(can_type(&dated(false, false, true), false));
    assert!(!can_type(&dated(false, false, true), true));
    assert!(can_type(&Item::Array(vec![dated(true, true, true), dated(false, false, true)]), true));
    assert!(!can_type(&Item::Array(vec![dated(false, false, true)]), true));
}

#[test]
fn what_can_be_defined() {
    assert!(can_define(&doc("a = 1\nl = [1, 2]\n[t]\nb = 2\n[[rows]]\nc = 3\n"), true));
    assert!(!can_define(&doc("l = [[1], [2]]\n"), false));
    assert!(!can_define(&doc("[t]\nl = [[1], [2]]\n"), false));
    assert!(!can_define(&doc("[[rows]]\nl = [[1]]\n"), false));
    let bad = vec![("d".to_string(), dated(false, false, true))];
    assert!(can_define(&bad, false));
    assert!(!can_define(&bad, true));
}

#[test]
fn documents_that_conform() {
    let schema = table(vec![
        ("a", TomlValue::Integer),
        ("l", TomlValue::Array(vec![TomlValue::String])),
        ("t", table(vec![("b", TomlValue::Boolean)])),
    ]);
    assert!(conforms_to(&schema, &Item::Table(doc("a = 1\nl = [\"x\", \"y\"]\n[t]\nb = true\n"))));
    assert!(conforms_to(&schema, &Item::Table(doc("other = 1\n"))));
    assert!(!conforms_to(&schema, &Item::Table(doc("a = \"one\"\n"))));
    assert!(!conforms_to(&schema, &Item::Table(doc("l = [\"x\", 2]\n"))));
    assert!(!conforms_to(&schema, &Item::Table(doc("[t]\nb = 2\n"))));
    assert!(!conforms_to(&schema, &Item::Integer(1)));
    assert!(conforms_to(&TomlValue::Array(vec![]), &Item::Array(vec![Item::Integer(1)])));
    let map = TomlValue::TableMap { keys: vec!["x".to_string()], value_type: Box::new(TomlValue::Integer) };
    assert!(conforms_to(&map, &Item::Table(doc("x = 1\ny = \"free\"\n"))));
    assert!(!conforms_to(&map, &Item::Table(doc("x = \"one\"\n"))));
}

#[test]
fn documents_that_can_be_written_out() {
    let schema = table(vec![
        ("a", TomlValue::Integer),
        ("l", TomlValue::Array(vec![table(vec![("k", TomlValue::Integer)])])),
    ]);
    assert!(instantiable_along(&schema, &Item::Table(doc("a = 1\nl = [{ k = 1 }, { k = 2 }]\n"))));
    assert!(instantiable_along(&schema, &Item::Table(doc("a = 1\nl = []\n"))));
    assert!(!instantiable_along(&schema, &Item::Table(doc("a = 1\nextra = 2\n"))));
    assert!(!instantiable_along(&schema, &Item::Table(doc("l = [{ k = 1 }, { other = 2 }]\n"))));
    assert!(!instantiable_along(&TomlValue::Integer, &Item::Table(doc("a = 1\n"))));
    assert!(!instantiable_along(&TomlValue::Array(vec![]), &Item::Array(vec![Item::Integer(1)])));
    assert!(!instantiable_along(&TomlValue::Integer, &Item::Array(vec![])));
    assert!(instantiable_along(&TomlValue::Integer, &Item::String("scalars are not looked at".into())));
    assert!(!instantiable_along(&TomlValue::Integer, &dated(false, false, true)));
    let map = TomlValue::TableMap {
        keys: vec!["x".to_string(), "y".to_string()],
        value_type: Box::new(TomlValue::Integer),
    };
    assert!(instantiable_along(&map, &Item::Table(doc("x = 1\ny = 2\n"))));
    assert!(!instantiable_along(&map, &Item::Table(doc("x = 1\n"))));
    let no_keys = TomlValue::TableMap { keys: vec![], value_type: Box::new(TomlValue::Integer) };
    assert!(!instantiable_along(&no_keys, &Item::Table(doc(""))));
}

#[test]
fn what_can_be_written_out() {
    assert!(offset_is_writable(&Offset::Z));
    assert!(offset_is_writable(&Offset::Custom { minutes: 0 }));
    assert!(offset_is_writable(&Offset::Custom { minutes: i16::MAX }));
    assert!(offset_is_writable(&Offset::Custom { minutes: i16::MIN + 1 }));
    assert!(!offset_is_writable(&Offset::Custom { minutes: i16::MIN }));
    assert!(is_writable(&Datetime { date: None, time: None, offset: None }));
    let least = Datetime { date: None, time: None, offset: Some(Offset::Custom { minutes: i16::MIN }) };
    assert!(!is_writable(&least));
    let west = Datetime { date: None, time: None, offset: Some(Offset::Custom { minutes: i16::MIN + 1 }) };
    assert!(is_writable(&west));
    assert_eq!(west.to_string(), "-546:07");
}
