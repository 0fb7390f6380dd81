//! What the errors say.

use vstd::prelude::*;
use vstd::string::*;
use crate::check::CheckError;
use crate::normalize::NormalizationError;
use crate::schema::{texts, Schema, TomlValue};

verus! {

/// The first `n` keys of a path, last key first, with `::` between each two:
/// a path that is held innermost key first is written outermost key first.
pub open spec fn path_text(path: Seq<Seq<char>>, n: nat) -> Seq<char>
    decreases n,
{
    if n == 0 || n > path.len() {
        Seq::empty()
    } else if n == 1 {
        path[0]
    } else {
        path[n - 1] + "::"@ + path_text(path, (n - 1) as nat)
    }
}

/// Writes a path out from its outermost key to its innermost.
pub fn join_path(path: &Vec<String>) -> (text: String)
    ensures
        text@ == path_text(texts(path@), path.len() as nat),
{
    let ghost keys = texts(path@);
    let mut text = String::new();
    let mut i: usize = 0;
    while i < path.len()
        invariant
            i <= path.len(),
            keys == texts(path@),
            text@ == path_text(keys, i as nat),
        decreases path.len() - i,
    {
        assert(keys[i as int] == path[i as int]@);
        if i == 0 {
            text = path[0].clone();
        } else {
            let mut longer = path[i].clone();
            longer.append("::");
            longer.append(text.as_str());
            assert(longer@ =~= keys[i as int] + "::"@ + text@);
            text = longer;
        }
        i += 1;
    }
    text
}

/// The text of a boolean.
pub open spec fn bool_text(b: bool) -> Seq<char> {
    if b {
        "true"@
    } else {
        "false"@
    }
}

/// A schema written out: a scalar by its name, a datetime with its three
/// components, an array with its element schemas in square brackets, a table
/// with its keys, each in double quotes, and their schemas in braces, and a
/// table map with its keys and the shared schema.
pub open spec fn schema_text(s: Schema) -> Seq<char>
    decreases s, 0nat,
{
    match s {
        Schema::Str => "String"@,
        Schema::Int => "Integer"@,
        Schema::Float => "Float"@,
        Schema::Bool => "Boolean"@,
        Schema::Datetime { date, time, offset } => "Datetime { date: "@ + bool_text(date)
            + ", time: "@ + bool_text(time) + ", offset: "@ + bool_text(offset) + " }"@,
        Schema::Array(items) => "Array(["@ + items_text(items, items.len()) + "])"@,
        Schema::Table(entries) => "Table({"@ + entries_text(entries, entries.len()) + "})"@,
        Schema::TableMap { keys, shared } => "TableMap { keys: ["@ + keys_text(keys, keys.len())
            + "], value_type: "@ + schema_text(*shared) + " }"@,
    }
}

/// The first `n` items written out, with a comma between each two.
pub open spec fn items_text(items: Seq<Schema>, n: nat) -> Seq<char>
    decreases items, n,
{
    if n == 0 || n > items.len() {
        Seq::empty()
    } else if n == 1 {
        schema_text(items[0])
    } else {
        items_text(items, (n - 1) as nat) + ", "@ + schema_text(items[n - 1])
    }
}

/// The first `n` entries written out, with a comma between each two.
pub open spec fn entries_text(entries: Seq<(Seq<char>, Schema)>, n: nat) -> Seq<char>
    decreases entries, n,
{
    if n == 0 || n > entries.len() {
        Seq::empty()
    } else if n == 1 {
        "\""@ + entries[0].0 + "\": "@ + schema_text(entries[0].1)
    } else {
        entries_text(entries, (n - 1) as nat) + ", \""@ + entries[n - 1].0 + "\": "@ + schema_text(
            entries[n - 1].1,
        )
    }
}

/// The first `n` keys in double quotes, with a comma between each two.
pub open spec fn keys_text(keys: Seq<Seq<char>>, n: nat) -> Seq<char>
    decreases n,
{
    if n == 0 || n > keys.len() {
        Seq::empty()
    } else if n == 1 {
        "\""@ + keys[0] + "\""@
    } else {
        keys_text(keys, (n - 1) as nat) + ", \""@ + keys[n - 1] + "\""@
    }
}

/// The text of a boolean.
pub fn describe_bool(b: bool) -> (text: &'static str)
    ensures
        text@ == bool_text(b),
{
    if b {
        "true"
    } else {
        "false"
    }
}

impl TomlValue {
    /// Writes the schema out.
    #[verifier::loop_isolation(false)]
    pub fn describe(&self) -> (text: String)
        ensures
            text@ == schema_text(self@),
        decreases self,
    {
        match self {
            TomlValue::String => String::from_str("String"),
            TomlValue::Integer => String::from_str("Integer"),
            TomlValue::Float => String::from_str("Float"),
            TomlValue::Boolean => String::from_str("Boolean"),
            TomlValue::Datetime { date, time, offset } => {
                let mut text = String::from_str("Datetime { date: ");
                text.append(describe_bool(*date));
                text.append(", time: ");
                text.append(describe_bool(*time));
                text.append(", offset: ");
                text.append(describe_bool(*offset));
                text.append(" }");
                text
            },
            TomlValue::Array(items) => {
                let ghost schemas = crate::schema::schemas_of(items@);
                proof {
                    crate::schema::lemma_view_array(*items);
                }
                let mut inner = String::new();
                let mut i: usize = 0;
                while i < items.len()
                    invariant
                        i <= items.len(),
                        inner@ == items_text(schemas, i as nat),
                    decreases items.len() - i,
                {
                    assert(schemas[i as int] == items[i as int]@);
                    if i > 0 {
                        inner.append(", ");
                    }
                    inner.append(items[i].describe().as_str());
                    i += 1;
                }
                let mut text = String::from_str("Array([");
                text.append(inner.as_str());
                text.append("])");
                text
            },
            TomlValue::Table(entries) => {
                let ghost schemas = crate::schema::entries_of(entries@);
                proof {
                    crate::schema::lemma_view_table(*entries);
                }
                let mut inner = String::new();
                let mut i: usize = 0;
                while i < entries.len()
                    invariant
                        i <= entries.len(),
                        inner@ == entries_text(schemas, i as nat),
                    decreases entries.len() - i,
                {
                    assert(schemas[i as int] == (entries[i as int].0@, entries[i as int].1@));
                    let ghost before = inner@;
                    if i > 0 {
                        inner.append(", \"");
                    } else {
                        inner.append("\"");
                    }
                    inner.append(entries[i].0.as_str());
                    inner.append("\": ");
                    inner.append(entries[i].1.describe().as_str());
                    proof {
                        if i > 0 {
                            assert(inner@ =~= before + ", \""@ + schemas[i as int].0 + "\": "@
                                + schema_text(schemas[i as int].1));
                        } else {
                            assert(inner@ =~= "\""@ + schemas[0].0 + "\": "@ + schema_text(
                                schemas[0].1,
                            ));
                        }
                    }
                    i += 1;
                }
                let mut text = String::from_str("Table({");
                text.append(inner.as_str());
                text.append("})");
                text
            },
            TomlValue::TableMap { keys, value_type } => {
                let ghost names = texts(keys@);
                let mut inner = String::new();
                let mut i: usize = 0;
                while i < keys.len()
                    invariant
                        i <= keys.len(),
                        inner@ == keys_text(names, i as nat),
                    decreases keys.len() - i,
                {
                    assert(names[i as int] == keys[i as int]@);
                    let ghost before = inner@;
                    if i > 0 {
                        inner.append(", \"");
                    } else {
                        inner.append("\"");
                    }
                    inner.append(keys[i].as_str());
                    inner.append("\"");
                    proof {
                        if i > 0 {
                            assert(inner@ =~= before + ", \""@ + names[i as int] + "\""@);
                        } else {
                            assert(inner@ =~= "\""@ + names[0] + "\""@);
                        }
                    }
                    i += 1;
                }
                let mut text = String::from_str("TableMap { keys: [");
                text.append(inner.as_str());
                text.append("], value_type: ");
                text.append(value_type.describe().as_str());
                text.append(" }");
                text
            },
        }
    }
}

/// What a failed check says.
pub open spec fn check_message(
    path: Seq<Seq<char>>,
    a_only: Option<Seq<char>>,
    b_only: Option<Seq<char>>,
) -> Seq<char> {
    match (a_only, b_only) {
        (Some(a), Some(b)) => path_text(path, path.len()) + " has at least 2 keys that differ: "@
            + a + ", "@ + b,
        (Some(key), None) => path_text(path, path.len())
            + " contains at least one additional key: "@ + key,
        (None, Some(key)) => path_text(path, path.len())
            + " contains at least one additional key: "@ + key,
        (None, None) => Seq::empty(),
    }
}

impl CheckError {
    /// The error as a message, its path written from the outermost key to
    /// the innermost.
    pub fn to_string(&self) -> (text: String)
        requires
            self matches CheckError::KeyMismatch { a_diff, b_diff, .. } ==> a_diff is Some
                || b_diff is Some,
        ensures
            text@ == match self@ {
                crate::check::Divergence::KeyMismatch { path, a_only, b_only } => check_message(
                    path,
                    a_only,
                    b_only,
                ),
                crate::check::Divergence::ValueMismatch { path } => "type mismatch for key: "@
                    + path_text(path, path.len()),
            },
    {
        match self {
            CheckError::KeyMismatch { path: table_path, a_diff, b_diff } => {
                let mut desc = join_path(table_path);
                match (a_diff, b_diff) {
                    (Some(key_a), Some(key_b)) => {
                        desc.append(" has at least 2 keys that differ: ");
                        desc.append(key_a.as_str());
                        desc.append(", ");
                        desc.append(key_b.as_str());
                    },
                    (Some(key), None) => {
                        desc.append(" contains at least one additional key: ");
                        desc.append(key.as_str());
                    },
                    (None, Some(key)) => {
                        desc.append(" contains at least one additional key: ");
                        desc.append(key.as_str());
                    },
                    (None, None) => {},
                }
                desc
            },
            CheckError::ValueMismatch(items) => {
                let key_path = join_path(items);
                let mut text = String::from_str("type mismatch for key: ");
                text.append(key_path.as_str());
                text
            },
        }
    }
}

impl NormalizationError {
    /// The error as a message, its path written from the outermost key to
    /// the innermost.
    pub fn to_string(&self) -> (text: String)
        ensures
            text@ == "Value mismatch at "@ + path_text(self@.path, self@.path.len()) + " - found: "@
                + schema_text(self@.types.0) + " and "@ + schema_text(self@.types.1),
    {
        match self {
            NormalizationError::ValueMismatch { path, value_types } => {
                let path = join_path(path);
                let mut text = String::from_str("Value mismatch at ");
                text.append(path.as_str());
                text.append(" - found: ");
                text.append(value_types.0.describe().as_str());
                text.append(" and ");
                text.append(value_types.1.describe().as_str());
                text
            },
        }
    }
}

} // verus!
