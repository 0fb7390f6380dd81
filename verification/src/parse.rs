//! Reading a document from TOML text.

use vstd::prelude::*;
use crate::merge::{merge_tables, merged, opts_in, Candidate};
use crate::value::{table_of, Datetime, Doc, Item, Offset, Table};

verus! {

/// `toml::de::Error`: why a text is no document.
#[verifier::external_type_specification]
#[verifier::external_body]
pub struct ExTomlError(toml::de::Error);

/// `toml::Value`: a value of a parsed document.
#[verifier::external_type_specification]
#[verifier::external_body]
pub struct ExTomlValue(toml::Value);

/// `toml::map::Map`: a table of a parsed document.
#[verifier::external_type_specification]
#[verifier::external_body]
#[verifier::reject_recursive_types(K)]
#[verifier::reject_recursive_types(V)]
pub struct ExTomlMap<K, V>(toml::map::Map<K, V>);

/// The table that a text is as a TOML document, if it is one.
pub uninterp spec fn parsed(text: Seq<char>) -> Option<Seq<(Seq<char>, Doc)>>;

/// `toml::from_str` for a table: the document that the text holds, or why it
/// holds none.  The same text always gives the same document, and the keys of
/// each of its tables are unique, for a table of that crate is a map.
#[verifier::external_body]
fn parse_toml(text: &str) -> (res: Result<Table, toml::de::Error>)
    ensures
        match res {
            Ok(table) => parsed(text@) == Some(table_of(table@)) && Doc::Table(
                table_of(table@),
            ).well_formed(),
            Err(_) => parsed(text@) is None,
        },
{
    match toml::from_str::<toml::map::Map<String, toml::Value>>(text) {
        Ok(table) => Ok(table_from_toml(table)),
        Err(e) => Err(e),
    }
}

/// The entries of a table of `toml`, in the order in which its `into_iter`
/// gives them, each value converted.
#[verifier::external_body]
fn table_from_toml(table: toml::map::Map<String, toml::Value>) -> Table {
    table.into_iter().map(|(key, value)| (key, item_from_toml(value))).collect()
}

/// A `toml::Value` as an item of this library, variant by variant; a float
/// is taken by its bits and a datetime by `datetime_from_toml`.
#[verifier::external_body]
fn item_from_toml(value: toml::Value) -> Item {
    match value {
        toml::Value::String(s) => Item::String(s),
        toml::Value::Integer(i) => Item::Integer(i),
        toml::Value::Float(f) => Item::Float(f.to_bits()),
        toml::Value::Boolean(b) => Item::Boolean(b),
        toml::Value::Datetime(_) => Item::Datetime(datetime_from_toml(&value)),
        toml::Value::Array(items) => Item::Array(items.into_iter().map(item_from_toml).collect()),
        toml::Value::Table(table) => Item::Table(table_from_toml(table)),
    }
}

/// The datetime that a `toml::Value` holds, field by field; a value that
/// holds none gives the datetime without components.
#[verifier::external_body]
fn datetime_from_toml(value: &toml::Value) -> Datetime {
    let dt = value.as_datetime();
    Datetime::from_parts(
        dt.and_then(|dt| dt.date).map(|d| (d.year, d.month, d.day)),
        dt.and_then(|dt| dt.time).map(|t| (t.hour, t.minute, t.second, t.nanosecond)),
        dt.and_then(|dt| dt.offset).map(|o| match o {
            toml::value::Offset::Z => None,
            toml::value::Offset::Custom { minutes } => Some(minutes),
        }),
    )
}

/// The message of a `toml::de::Error`, as its `Display` gives it.
#[verifier::external_body]
fn error_text(error: &toml::de::Error) -> String {
    format!("{}", error)
}

/// A text that is no TOML document.
#[derive(Debug)]
pub struct ParseError {
    /// What the parser says of it
    pub message: String,
}

/// Reads a document from its text.
pub fn parse_table(text: &str) -> (res: Result<Table, ParseError>)
    ensures
        match res {
            Ok(table) => parsed(text@) == Some(table_of(table@)) && Doc::Table(
                table_of(table@),
            ).well_formed(),
            Err(_) => parsed(text@) is None,
        },
{
    match parse_toml(text) {
        Ok(table) => Ok(table),
        Err(e) => Err(ParseError { message: error_text(&e) }),
    }
}

/// The text of a candidate, where its path resolved to a file, and whether
/// the caller marked it for use.
#[derive(Debug)]
pub struct CandidateText {
    pub text: Option<String>,
    pub forced: bool,
}

/// The template after the candidates from index `from` on have been tried in
/// order: a candidate without a text is passed over; the first one that is
/// forced or opts in is merged onto the template; where none is, the
/// template stays as it is.  There is no result where a candidate that is
/// reached is no TOML document.
pub open spec fn substituted(
    template: Seq<(Seq<char>, Doc)>,
    candidates: Seq<CandidateText>,
    from: nat,
) -> Option<Seq<(Seq<char>, Doc)>>
    decreases candidates.len() - from,
{
    if from >= candidates.len() {
        Some(template)
    } else {
        match candidates[from as int].text {
            None => substituted(template, candidates, from + 1),
            Some(text) => match parsed(text@) {
                None => None,
                Some(document) => {
                    if candidates[from as int].forced || opts_in(document) {
                        Some(merged(template, document))
                    } else {
                        substituted(template, candidates, from + 1)
                    }
                },
            },
        }
    }
}

/// The index of the candidate, from index `from` on, at which the
/// substitution fails: the first one that is reached and is no TOML
/// document.
pub open spec fn failing_candidate(candidates: Seq<CandidateText>, from: nat) -> Option<nat>
    decreases candidates.len() - from,
{
    if from >= candidates.len() {
        None
    } else {
        match candidates[from as int].text {
            None => failing_candidate(candidates, from + 1),
            Some(text) => match parsed(text@) {
                None => Some(from),
                Some(document) => {
                    if candidates[from as int].forced || opts_in(document) {
                        None
                    } else {
                        failing_candidate(candidates, from + 1)
                    }
                },
            },
        }
    }
}

/// The substitution fails exactly where a candidate fails.
pub proof fn lemma_failing_candidate(
    template: Seq<(Seq<char>, Doc)>,
    candidates: Seq<CandidateText>,
    from: nat,
)
    ensures
        substituted(template, candidates, from) is None <==> failing_candidate(candidates, from)
            is Some,
    decreases candidates.len() - from,
{
    if from < candidates.len() {
        lemma_failing_candidate(template, candidates, from + 1);
    }
}

/// A text among those given that is no TOML document.
#[derive(Debug)]
pub struct TextError {
    /// The index of the candidate whose text it is; none for the template
    pub candidate: Option<usize>,
    /// What the parser says of it
    pub message: String,
}

/// Reads the template and applies the first active candidate to it, reading
/// no candidate after that one.  The error names the text that was reached
/// and is no document: the template, or the first such candidate.
pub fn generate_from_texts(template: &str, candidates: &Vec<CandidateText>) -> (res: Result<
    Table,
    TextError,
>)
    ensures
        match res {
            Ok(table) => parsed(template@) is Some && substituted(
                parsed(template@)->Some_0,
                candidates@,
                0,
            ) == Some(table_of(table@)),
            Err(e) => match e.candidate {
                None => parsed(template@) is None,
                Some(at) => parsed(template@) is Some && failing_candidate(candidates@, 0) == Some(
                    at as nat,
                ) && substituted(parsed(template@)->Some_0, candidates@, 0) is None,
            },
        },
{
    let template_toml = match parse_table(template) {
        Ok(table) => table,
        Err(e) => {
            return Err(TextError { candidate: None, message: e.message });
        },
    };
    let ghost base = table_of(template_toml@);
    proof {
        lemma_failing_candidate(base, candidates@, 0);
    }
    let mut i: usize = 0;
    while i < candidates.len()
        invariant
            i <= candidates.len(),
            base == table_of(template_toml@),
            parsed(template@) == Some(base),
            Doc::Table(base).well_formed(),
            substituted(base, candidates@, i as nat) == substituted(base, candidates@, 0),
            failing_candidate(candidates@, i as nat) == failing_candidate(candidates@, 0),
            substituted(base, candidates@, 0) is None <==> failing_candidate(candidates@, 0) is Some,
        decreases candidates.len() - i,
    {
        match &candidates[i].text {
            None => {},
            Some(text) => {
                let sub_toml = match parse_table(text.as_str()) {
                    Ok(table) => table,
                    Err(e) => {
                        return Err(TextError { candidate: Some(i), message: e.message });
                    },
                };
                let candidate = Candidate { document: Some(sub_toml), forced: candidates[i].forced };
                if candidate.active() {
                    match &candidate.document {
                        Some(document) => {
                            return Ok(merge_tables(&template_toml, document));
                        },
                        None => {},
                    }
                }
            },
        }
        i += 1;
    }
    Ok(template_toml)
}

} // verus!
