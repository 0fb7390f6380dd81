use toml_const::merge::{generate_toml_table, merge_tables, select_override, Candidate};
use toml_const::parse::{generate_from_texts, parse_table, CandidateText};
use toml_const::value::Item;

fn doc(text: &str) -> Vec<(String, Item)> {
    parse_table(text).expect("must parse")
}

#[test]
fn merge_override_precedence() {
    let template = doc("a = 1\n[b]\nx = 1\ny = 2\n");
    let changes = doc("[b]\ny = 9\nz = 3\n");
    let merged = merge_tables(&template, &changes);
    let expected = vec![
        ("a".to_string(), Item::Integer(1)),
        (
            "b".to_string(),
            Item::Table(vec![
                ("x".to_string(), Item::Integer(1)),
                ("y".to_string(), Item::Integer(9)),
                ("z".to_string(), Item::Integer(3)),
            ]),
        ),
    ];
    assert_eq!(merged, expected);
    // the inputs are left as they were
    assert_eq!(template, doc("a = 1\n[b]\nx = 1\ny = 2\n"));
    assert_eq!(changes, doc("[b]\ny = 9\nz = 3\n"));
}

#[test]
fn merge_overwrites_arrays_and_scalars_whole() {
    let template = doc("list = [1, 2, 3]\nname = \"t\"\nat = 1979-05-27\n[t]\nk = 1\n");
    let changes = doc("list = [9]\nname = 5\nat = 07:32:00\nt = \"no table\"\n");
    let merged = merge_tables(&template, &changes);
    assert_eq!(merged, doc("list = [9]\nname = 5\nat = 07:32:00\nt = \"no table\"\n"));
}

#[test]
fn merge_replaces_a_scalar_by_a_table() {
    let template = doc("t = 1\n");
    let changes = doc("[t]\nk = 1\n");
    assert_eq!(merge_tables(&template, &changes), doc("[t]\nk = 1\n"));
}

#[test]
fn merge_with_nothing_changes_nothing() {
    let template = doc("a = 1\n[b]\nx = 1\n");
    assert_eq!(merge_tables(&template, &Vec::new()), template);
    assert_eq!(merge_tables(&Vec::new(), &template), template);
}

#[test]
fn override_selection_order() {
    let candidates = vec![
        Candidate { document: Some(doc("use = false\nv = 1\n")), forced: false },
        Candidate { document: Some(doc("use = true\nv = 2\n")), forced: false },
        Candidate { document: Some(doc("v = 3\n")), forced: true },
    ];
    assert_eq!(select_override(&candidates), Some(1));
    let merged = generate_toml_table(&doc("v = 0\n"), &candidates);
    assert_eq!(merged, doc("v = 2\nuse = true\n"));
}

#[test]
fn forced_candidate_wins_when_it_comes_first() {
    let candidates = vec![
        Candidate { document: None, forced: true },
        Candidate { document: Some(doc("v = 3\n")), forced: true },
        Candidate { document: Some(doc("use = true\nv = 2\n")), forced: false },
    ];
    assert_eq!(select_override(&candidates), Some(1));
}

#[test]
fn no_active_candidate_leaves_the_template() {
    let candidates = vec![
        Candidate { document: None, forced: false },
        Candidate { document: Some(doc("use = \"true\"\nv = 2\n")), forced: false },
        Candidate { document: Some(doc("v = 3\n")), forced: false },
    ];
    assert_eq!(select_override(&candidates), None);
    assert_eq!(generate_toml_table(&doc("v = 0\n"), &candidates), doc("v = 0\n"));
    assert_eq!(select_override(&Vec::new()), None);
}

#[test]
fn candidates_activity() {
    assert!(!Candidate { document: None, forced: true }.active());
    assert!(Candidate { document: Some(doc("")), forced: true }.active());
    assert!(Candidate { document: Some(doc("use = true\n")), forced: false }.active());
    assert!(!Candidate { document: Some(doc("use = false\n")), forced: false }.active());
    assert!(!Candidate { document: Some(doc("use = 1\n")), forced: false }.active());
    assert!(!Candidate { document: Some(doc("[t]\nuse = true\n")), forced: false }.active());
}

#[test]
fn texts_are_read_until_a_candidate_is_active() {
    let candidates = vec![
        CandidateText { text: None, forced: false },
        CandidateText { text: Some("v = 1\n".to_string()), forced: false },
        CandidateText { text: Some("use = true\nv = 2\n".to_string()), forced: false },
        CandidateText { text: Some("this is no toml".to_string()), forced: true },
    ];
    let merged = generate_from_texts("v = 0\nw = 0\n", &candidates).expect("must parse");
    assert_eq!(merged, doc("v = 2\nw = 0\nuse = true\n"));
}

#[test]
fn malformed_text_is_an_error_when_it_is_reached() {
    let candidates = vec![
        CandidateText { text: Some("this is no toml".to_string()), forced: false },
        CandidateText { text: Some("v = 1\n".to_string()), forced: true },
    ];
    let err = generate_from_texts("v = 0\n", &candidates).expect_err("no document");
    assert_eq!(err.candidate, Some(0));
    assert!(!err.message.is_empty());
    let err = generate_from_texts("v = ", &candidates).expect_err("no document");
    assert_eq!(err.candidate, None);
    let later = vec![
        CandidateText { text: None, forced: true },
        CandidateText { text: Some("v = 1\n".to_string()), forced: false },
        CandidateText { text: Some("v = [".to_string()), forced: false },
        CandidateText { text: Some("v = ]".to_string()), forced: false },
    ];
    let err = generate_from_texts("v = 0\n", &later).expect_err("no document");
    assert_eq!(err.candidate, Some(2));
}

#[test]
fn parse_reads_every_kind_of_value() {
    let table = doc(concat_lines());
    let keys: Vec<&str> = table.iter().map(|(k, _)| k.as_str()).collect();
    assert_eq!(keys, vec!["s", "i", "f", "b", "odt", "ldt", "ld", "lt", "arr", "t"]);
    assert_eq!(table[0].1, Item::String("text".to_string()));
    assert_eq!(table[1].1, Item::Integer(-7));
    assert_eq!(table[2].1, Item::Float(1.5f64.to_bits()));
    assert_eq!(table[3].1, Item::Boolean(true));
    match &table[4].1 {
        Item::Datetime(dt) => {
            let date = dt.date.expect("a date");
            assert_eq!((date.year, date.month, date.day), (1979, 5, 27));
            let time = dt.time.expect("a time");
            assert_eq!((time.hour, time.minute, time.second, time.nanosecond), (7, 32, 1, 500_000_000));
            assert_eq!(dt.offset, Some(toml_const::value::Offset::Custom { minutes: -90 }));
        }
        other => panic!("expected a datetime, got {:?}", other),
    }
    match &table[5].1 {
        Item::Datetime(dt) => assert!(dt.date.is_some() && dt.time.is_some() && dt.offset.is_none()),
        other => panic!("expected a datetime, got {:?}", other),
    }
    match &table[6].1 {
        Item::Datetime(dt) => assert!(dt.date.is_some() && dt.time.is_none() && dt.offset.is_none()),
        other => panic!("expected a datetime, got {:?}", other),
    }
    match &table[7].1 {
        Item::Datetime(dt) => assert!(dt.date.is_none() && dt.time.is_some() && dt.offset.is_none()),
        other => panic!("expected a datetime, got {:?}", other),
    }
    assert_eq!(table[8].1, Item::Array(vec![Item::Integer(1), Item::Integer(2)]));
    assert_eq!(
        table[9].1,
        Item::Table(vec![("z".to_string(), Item::Integer(1)), ("a".to_string(), Item::Integer(2))])
    );
}

fn concat_lines() -> &'static str {
    "s = \"text\"\ni = -7\nf = 1.5\nb = true\nodt = 1979-05-27T07:32:01.5-01:30\nldt = 1979-05-27T07:32:00\nld = 1979-05-27\nlt = 07:32:00\narr = [1, 2]\n[t]\nz = 1\na = 2\n"
}

#[test]
fn parse_refuses_what_is_no_document() {
    let err = parse_table("a = \n").expect_err("no document");
    assert!(!err.message.is_empty());
    assert!(parse_table("a = 1\na = 2\n").is_err());
}
