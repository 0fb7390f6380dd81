use std::path::PathBuf;
use toml_const::cli::{
    config_ignore_rules, config_names, package_name, relative_root, root_ignore_rules, CliArgs,
    Init, MainSubCommands, ManifestError,
};
use toml_const::consts::{
    CONFIG_PATH_ENV, CONFIG_TOML_BOILERPLATE, DEBUG_ENV, DEPLOY_ENV, GENERATED_FILE_PATH_ENV,
    TEMPLATE_ENV,
};
use toml_const::datetime::{LocalDate, LocalDateTime, LocalTime, OffsetDateTime};
use toml_const::generator::{
    choose_setting, merge_settings, table_to_flat_hashmap, to_flat_key, Setting,
};
use toml_const::input::{MacroInput, UsePath};
use toml_const::parse::parse_table;
use toml_const::schema::TomlValue;
use toml_const::value::{Date, Datetime, Item, Offset, Time};

fn doc(text: &str) -> Vec<(String, Item)> {
    parse_table(text).expect("must parse")
}

#[test]
fn settings_are_chosen() {
    let used = Some(doc("use = true\n"));
    let unused = Some(doc("use = false\n"));
    assert_eq!(choose_setting(&used, &used), Some(Setting::Deploy));
    assert_eq!(choose_setting(&used, &unused), Some(Setting::Debug));
    assert_eq!(choose_setting(&unused, &used), Some(Setting::Deploy));
    assert_eq!(choose_setting(&unused, &unused), None);
    assert_eq!(choose_setting(&unused, &None), Some(Setting::Debug));
    assert_eq!(choose_setting(&None, &unused), Some(Setting::Deploy));
    assert_eq!(choose_setting(&None, &None), Some(Setting::Template));
}

#[test]
fn settings_are_merged() {
    let template = doc("v = 0\n[t]\na = 1\n");
    let debug = Some(doc("use = true\nv = 1\n"));
    let deploy = Some(doc("use = false\nv = 2\n"));
    assert_eq!(merge_settings(&template, &debug, &deploy), doc("v = 1\nt = { a = 1 }\nuse = true\n"));
    assert_eq!(merge_settings(&template, &None, &deploy), doc("v = 2\nt = { a = 1 }\nuse = false\n"));
    assert_eq!(merge_settings(&template, &None, &None), template);
    let unused = Some(doc("use = false\nv = 1\n"));
    assert_eq!(merge_settings(&template, &unused, &deploy), template);
}

#[test]
fn tables_are_laid_out_flat() {
    let table = doc("top = 1\n[my-table]\ninner-key = \"x\"\n[my-table.deep]\nk = true\n[other]\nlist = [1]\n");
    let flat = table_to_flat_hashmap(&table, None);
    let expected = vec![
        ("TOP".to_string(), Item::Integer(1)),
        ("MY_TABLE_INNER_KEY".to_string(), Item::String("x".to_string())),
        ("MY_TABLE_DEEP_K".to_string(), Item::Boolean(true)),
        ("OTHER_LIST".to_string(), Item::Array(vec![Item::Integer(1)])),
    ];
    assert_eq!(flat, expected);
    assert_eq!(to_flat_key("a-b", None), "A_B");
    assert_eq!(to_flat_key("a-b", Some("PRE")), "PRE_A_B");
    // a later entry with the same flat key takes the place of the earlier one
    let clash = doc("a_b = 1\n[a]\nb = 2\n");
    assert_eq!(table_to_flat_hashmap(&clash, None), vec![("A_B".to_string(), Item::Integer(2))]);
}

#[test]
fn command_line_values() {
    let args = CliArgs {
        command: MainSubCommands::Init(Init {
            manifest_path: "Cargo.toml".to_string(),
            config_path: ".config/".to_string(),
            generated_file_path: "generated.rs".to_string(),
        }),
    };
    let MainSubCommands::Init(init) = args.clone().command;
    assert_eq!(init.config_path, ".config/");
    assert_eq!(relative_root(0), "");
    assert_eq!(relative_root(1), "");
    assert_eq!(relative_root(3), "../../");
    let names = config_names("pkg");
    assert_eq!(names.template, "pkg.template.toml");
    assert_eq!(names.debug, "pkg.debug.toml");
    assert_eq!(names.deploy, "pkg.deploy.toml");
    assert_eq!(root_ignore_rules("generated.rs"), "\n\n# added by toml_const\ngenerated.rs\n");
    assert_eq!(config_ignore_rules("pkg.template.toml"), "# added by toml_const\n*.toml\n!pkg.template.toml");
}

#[test]
fn package_names() {
    assert_eq!(package_name(&doc("[package]\nname = \"pkg\"\n")), Ok("pkg".to_string()));
    assert_eq!(package_name(&doc("[package]\nname = 1\n")), Err(ManifestError::NameNotAString));
    assert_eq!(package_name(&doc("[package]\nversion = \"1\"\n")), Err(ManifestError::NoPackageName));
    assert_eq!(package_name(&doc("[workspace]\nmembers = []\n")), Err(ManifestError::NoPackageName));
    assert_eq!(package_name(&doc("package = 1\n")), Err(ManifestError::NoPackageName));
}

#[test]
fn datetime_records() {
    let date = Date { year: 1979, month: 5, day: 27 };
    let time = Time { hour: 7, minute: 32, second: 0, nanosecond: 0 };
    let z = Offset::Z;
    let epoch = Date { year: 1970, month: 1, day: 1 };
    let midnight = Time { hour: 0, minute: 0, second: 0, nanosecond: 0 };
    assert_eq!(OffsetDateTime::default(), OffsetDateTime { date: epoch, time: midnight, offset: z });
    assert_eq!(LocalDateTime::default(), LocalDateTime { date: epoch, time: midnight });
    assert_eq!(LocalDate::default(), LocalDate { date: epoch });
    assert_eq!(LocalTime::default(), LocalTime { time: midnight });
    assert_eq!(
        Datetime::from(OffsetDateTime { date, time, offset: z }),
        Datetime { date: Some(date), time: Some(time), offset: Some(z) }
    );
    assert_eq!(
        Datetime::from(LocalDateTime { date, time }),
        Datetime { date: Some(date), time: Some(time), offset: None }
    );
    assert_eq!(Datetime::from(LocalDate { date }), Datetime { date: Some(date), time: None, offset: None });
    assert_eq!(Datetime::from(LocalTime { time }), Datetime { date: None, time: Some(time), offset: None });
    assert_eq!(OffsetDateTime { date, time, offset: z }.to_string(), "1979-05-27T07:32:00Z");
    let east = Offset::Custom { minutes: 90 };
    assert_eq!(OffsetDateTime { date, time, offset: east }.to_string(), "1979-05-27T07:32:00+01:30");
    assert_eq!(LocalDateTime { date, time }.to_string(), "1979-05-27T07:32:00");
    assert_eq!(LocalDate { date }.to_string(), "1979-05-27");
    assert_eq!(LocalTime { time }.to_string(), "07:32:00");
    assert_eq!(Datetime { date: Some(date), time: None, offset: None }.to_string(), "1979-05-27");
}

#[test]
fn conversions_between_documents_and_schemas() {
    let schema = TomlValue::from(Item::Array(vec![Item::Integer(1)]));
    assert!(schema.same_as(&TomlValue::Array(vec![TomlValue::Integer])));
    let schema = TomlValue::from(doc("a = 1\n"));
    assert!(schema.same_as(&TomlValue::Table(vec![("a".to_string(), TomlValue::Integer)])));
    assert_eq!(Item::from(schema), Item::Table(doc("a = 0\n")));
}

fn input(is_final: bool, sub_paths: Option<Vec<UsePath>>) -> MacroInput {
    MacroInput {
        destructure_datetime: false,
        is_pub: true,
        static_const: true,
        item_ident: "X".to_string(),
        is_final,
        path: "some_file_path.toml".to_string(),
        sub_paths,
    }
}

#[test]
fn final_inputs_accept_no_substitutions() {
    assert!(input(true, None).is_well_formed());
    assert!(input(false, None).is_well_formed());
    assert!(input(false, Some(vec![])).is_well_formed());
    assert!(!input(true, Some(vec![])).is_well_formed());
}

#[test]
fn paths_are_joined_onto_the_base() {
    let subs = vec![
        UsePath { path: "sub.toml".to_string(), is_used: true },
        UsePath { path: "/abs/other.toml".to_string(), is_used: false },
    ];
    let absolute = input(false, Some(subs)).to_abs_path(&PathBuf::from("/base/dir")).expect("valid Unicode");
    assert_eq!(absolute.path, "/base/dir/some_file_path.toml");
    assert_eq!(absolute.item_ident, "X");
    assert!(absolute.is_pub && absolute.static_const && !absolute.is_final);
    let subs = absolute.sub_paths.expect("the substitutions are kept");
    assert_eq!(subs[0].path, "/base/dir/sub.toml");
    assert!(subs[0].is_used);
    assert_eq!(subs[1].path, "/abs/other.toml");
    assert!(!subs[1].is_used);
}

#[test]
fn names_of_the_settings() {
    let mut env = Vec::new();
    toml_const::cli::insert_into_env(&mut env, "t", "d", "p", "c", "g");
    let keys: Vec<&str> = env.iter().map(|(k, _)| k.as_str()).collect();
    assert_eq!(
        keys,
        vec![TEMPLATE_ENV, DEBUG_ENV, DEPLOY_ENV, CONFIG_PATH_ENV, GENERATED_FILE_PATH_ENV]
    );
    // a new configuration file is a document that does not opt in
    let boilerplate = doc(CONFIG_TOML_BOILERPLATE);
    assert_eq!(boilerplate, vec![("use".to_string(), Item::Boolean(false))]);
}

#[test]
fn paths_are_put_in_place() {
    let subs = vec![
        UsePath { path: "sub.toml".to_string(), is_used: true },
        UsePath { path: "other.toml".to_string(), is_used: false },
    ];
    let given = input(false, Some(subs));
    let texts = vec![(Some("/a/sub.toml".to_string()), true), (Some("/b/other.toml".to_string()), false)];
    let placed = given
        .with_paths(Some("/a/template.toml".to_string()), Some(texts))
        .expect("every path has a text");
    assert_eq!(placed.path, "/a/template.toml");
    assert_eq!(placed.item_ident, "X");
    assert!(placed.is_pub && placed.static_const && !placed.is_final && !placed.destructure_datetime);
    let paths = placed.sub_paths.expect("two substitutions");
    assert_eq!(paths.len(), 2);
    assert_eq!(paths[0].path, "/a/sub.toml");
    assert!(paths[0].is_used);
    assert_eq!(paths[1].path, "/b/other.toml");
    assert!(!paths[1].is_used);

    let alone = given.with_paths(Some("t.toml".to_string()), None).expect("the template has a text");
    assert_eq!(alone.path, "t.toml");
    assert!(alone.sub_paths.is_none());
    let none_given = given.with_paths(Some("t.toml".to_string()), Some(vec![])).expect("a text");
    assert!(matches!(none_given.sub_paths, Some(ref paths) if paths.is_empty()));
}

#[test]
fn a_path_without_text_gives_no_input() {
    let given = input(false, None);
    assert!(given.with_paths(None, None).is_none());
    assert!(given.with_paths(None, Some(vec![(Some("s.toml".to_string()), false)])).is_none());
    let texts = vec![(Some("s.toml".to_string()), false), (None, true)];
    assert!(given.with_paths(Some("t.toml".to_string()), Some(texts)).is_none());
}
