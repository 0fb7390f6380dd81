use toml_const::cli::{insert_into_env, update_config_toml};
use toml_const::parse::parse_table;
use toml_const::schema::TomlValue;
use toml_const::value::{insert, Date, Datetime, Item, Offset, Time};

fn doc(text: &str) -> Vec<(String, Item)> {
    parse_table(text).expect("must parse")
}

#[test]
fn schema_of_a_document() {
    let schema = TomlValue::from_table(&doc("s = \"x\"\ni = 1\nf = 1.0\nb = true\nd = 1979-05-27\nl = [1, \"a\"]\n[t]\nk = 1\n"));
    let expected = TomlValue::Table(vec![
        ("s".to_string(), TomlValue::String),
        ("i".to_string(), TomlValue::Integer),
        ("f".to_string(), TomlValue::Float),
        ("b".to_string(), TomlValue::Boolean),
        ("d".to_string(), TomlValue::Datetime { date: true, time: false, offset: false }),
        ("l".to_string(), TomlValue::Array(vec![TomlValue::Integer, TomlValue::String])),
        ("t".to_string(), TomlValue::Table(vec![("k".to_string(), TomlValue::Integer)])),
    ]);
    assert!(schema.same_as(&expected));
    let from_value = TomlValue::from_value(&Item::Array(vec![Item::Boolean(true)]));
    assert!(from_value.same_as(&TomlValue::Array(vec![TomlValue::Boolean])));
}

#[test]
fn default_values() {
    assert_eq!(TomlValue::String.default_value(), Item::String(String::new()));
    assert_eq!(TomlValue::Integer.default_value(), Item::Integer(0));
    assert_eq!(TomlValue::Float.default_value(), Item::Float(0.0f64.to_bits()));
    assert_eq!(TomlValue::Boolean.default_value(), Item::Boolean(false));
    let dt = TomlValue::Datetime { date: true, time: true, offset: true };
    assert_eq!(
        dt.default_value(),
        Item::Datetime(Datetime {
            date: Some(Date { year: 1970, month: 1, day: 1 }),
            time: Some(Time { hour: 0, minute: 0, second: 0, nanosecond: 0 }),
            offset: Some(Offset::Z),
        })
    );
    let dt = TomlValue::Datetime { date: false, time: true, offset: false };
    assert_eq!(
        dt.default_value(),
        Item::Datetime(Datetime {
            date: None,
            time: Some(Time { hour: 0, minute: 0, second: 0, nanosecond: 0 }),
            offset: None,
        })
    );
    let map = TomlValue::TableMap {
        keys: vec!["a".to_string(), "b".to_string()],
        value_type: Box::new(TomlValue::Array(vec![TomlValue::Integer])),
    };
    assert_eq!(map.default_value(), Item::Table(doc("a = [0]\nb = [0]\n")));
    assert_eq!(map.fresh(), Item::Table(doc("a = [0]\nb = [0]\n")));
    assert_eq!(TomlValue::Array(vec![TomlValue::Integer]).fresh(), Item::Array(vec![]));
}

#[test]
fn missing_fields_are_filled_in() {
    let parsed = doc("[[rows]]\nid = 1\nat = 1979-05-27\n\n[[rows]]\nlabel = \"two\"\ntags = [\"x\"]\nat = 1979-05-27T07:32:00Z\n[rows.sub]\nk = true\n");
    let normalized = TomlValue::from_table(&parsed).normalize().expect("must normalize");
    let mut value = Item::Table(parsed);
    normalized.normalize_toml(&mut value);
    let expected = doc(
        "[[rows]]\nid = 1\nat = 1979-05-27T00:00:00Z\nlabel = \"\"\ntags = []\n[rows.sub]\nk = false\n\n[[rows]]\nlabel = \"two\"\ntags = [\"x\"]\nat = 1979-05-27T07:32:00Z\nsub = { k = true }\nid = 0\n",
    );
    assert_eq!(value, Item::Table(expected));
}

#[test]
fn filling_up_to_a_table_map() {
    let schema = TomlValue::TableMap {
        keys: vec!["a".to_string(), "b".to_string()],
        value_type: Box::new(TomlValue::Datetime { date: true, time: true, offset: false }),
    };
    let mut value = Item::Table(doc("b = 1979-05-27\nc = 1\n"));
    schema.normalize_toml(&mut value);
    assert_eq!(
        value,
        Item::Table(doc("b = 1979-05-27T00:00:00\nc = 1\na = 1970-01-01T00:00:00\n"))
    );
}

#[test]
fn insert_replaces_in_place_or_appends() {
    let mut table = doc("a = 1\nb = 2\n");
    insert(&mut table, "a".to_string(), Item::Boolean(true));
    insert(&mut table, "c".to_string(), Item::Integer(3));
    assert_eq!(table, doc("a = true\nb = 2\nc = 3\n"));
}

#[test]
fn environment_settings() {
    let mut env = doc("OTHER = \"x\"\nTOML_CONST_DEBUG = \"old\"\n");
    insert_into_env(&mut env, "t.toml", "d.toml", "p.toml", ".config/", "generated.rs");
    let expected = doc(
        "OTHER = \"x\"\nTOML_CONST_DEBUG = \"d.toml\"\nTOML_CONST_TEMPLATE = \"t.toml\"\nTOML_CONST_DEPLOY = \"p.toml\"\nTOML_CONST_CONFIG_PATH = \".config/\"\nTOML_CONST_GENERATED_PATH = \"generated.rs\"\n",
    );
    assert_eq!(env, expected);
}

#[test]
fn config_gets_an_env_table() {
    let mut config = doc("[build]\njobs = 2\n");
    let res = update_config_toml(&mut config, "t", "d", "p", "cfg/", "gen.rs", "../");
    assert!(res.is_ok());
    let expected = doc(
        "[build]\njobs = 2\n[env]\nTOML_CONST_TEMPLATE = \"t\"\nTOML_CONST_DEBUG = \"d\"\nTOML_CONST_DEPLOY = \"p\"\nTOML_CONST_CONFIG_PATH = \"../cfg/\"\nTOML_CONST_GENERATED_PATH = \"gen.rs\"\n",
    );
    assert_eq!(config, expected);

    let mut config = doc("[env]\nKEEP = 1\n[build]\njobs = 2\n");
    assert!(update_config_toml(&mut config, "t", "d", "p", "cfg/", "gen.rs", "").is_ok());
    let expected = doc(
        "[env]\nKEEP = 1\nTOML_CONST_TEMPLATE = \"t\"\nTOML_CONST_DEBUG = \"d\"\nTOML_CONST_DEPLOY = \"p\"\nTOML_CONST_CONFIG_PATH = \"cfg/\"\nTOML_CONST_GENERATED_PATH = \"gen.rs\"\n[build]\njobs = 2\n",
    );
    assert_eq!(config, expected);
}

#[test]
fn env_that_is_no_table_is_refused() {
    let mut config = doc("env = 1\n");
    let res = update_config_toml(&mut config, "t", "d", "p", "cfg/", "gen.rs", "");
    assert_eq!(res, Err("key \"env\" not defined as a table".to_string()));
    assert_eq!(config, doc("env = 1\n"));
}
