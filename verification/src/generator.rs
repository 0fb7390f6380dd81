//! The settings of a build: which of the debug and deploy documents is merged
//! onto the template, and the merged document laid out flat.

use vstd::prelude::*;
use vstd::string::*;
use crate::entries::unique_keys;
use crate::ident::{append_chars, chars_of, string_of, uppercase};
use crate::merge::{merge_tables, merged, opts_in, Candidate};
use crate::value::{clone_table, insert, inserted, lemma_doc_table, table_of, Doc, Item, Table};

verus! {

/// The documents of a build.
#[derive(Clone, Copy, Debug, PartialEq, Eq, Structural)]
pub enum Setting {
    Template,
    Debug,
    Deploy,
}

/// The document to merge onto the template, if any.
///
/// Where both the debug and the deploy document exist, the deploy document
/// is used if it opts in, else the debug document if that opts in, else
/// none.  Where one exists, that one is used.  Where neither does, the
/// template itself is.
pub open spec fn chosen_setting(
    debug: Option<Seq<(Seq<char>, Doc)>>,
    deploy: Option<Seq<(Seq<char>, Doc)>>,
) -> Option<Setting> {
    match (debug, deploy) {
        (Some(d), Some(p)) => {
            if opts_in(p) {
                Some(Setting::Deploy)
            } else if opts_in(d) {
                Some(Setting::Debug)
            } else {
                None
            }
        },
        (Some(_), None) => Some(Setting::Debug),
        (None, Some(_)) => Some(Setting::Deploy),
        (None, None) => Some(Setting::Template),
    }
}

/// The entries of an optional table.
pub open spec fn optional_table(table: Option<Table>) -> Option<Seq<(Seq<char>, Doc)>> {
    match table {
        Some(t) => Some(table_of(t@)),
        None => None,
    }
}

/// Whether a document has the key `use` with the boolean value `true`.
pub fn uses(document: &Table) -> (flag: bool)
    requires
        Doc::Table(table_of(document@)).well_formed(),
    ensures
        flag == opts_in(table_of(document@)),
{
    let candidate = Candidate { document: Some(clone_table(document)), forced: false };
    candidate.active()
}

/// Chooses the document to merge onto the template.
pub fn choose_setting(debug: &Option<Table>, deploy: &Option<Table>) -> (setting: Option<Setting>)
    requires
        debug matches Some(d) ==> Doc::Table(table_of(d@)).well_formed(),
        deploy matches Some(p) ==> Doc::Table(table_of(p@)).well_formed(),
    ensures
        setting == chosen_setting(optional_table(*debug), optional_table(*deploy)),
{
    match (debug, deploy) {
        (Some(debug), Some(deploy)) => {
            let debug_use = uses(debug);
            let deploy_use = uses(deploy);
            match (debug_use, deploy_use) {
                (true, true) => Some(Setting::Deploy),
                (true, false) => Some(Setting::Debug),
                (false, true) => Some(Setting::Deploy),
                (false, false) => None,
            }
        },
        (Some(_), None) => Some(Setting::Debug),
        (None, Some(_)) => Some(Setting::Deploy),
        (None, None) => Some(Setting::Template),
    }
}

/// The settings of a build: the template with the chosen document merged
/// onto it, or the template as it is where none is chosen.
pub open spec fn settings(
    template: Seq<(Seq<char>, Doc)>,
    debug: Option<Seq<(Seq<char>, Doc)>>,
    deploy: Option<Seq<(Seq<char>, Doc)>>,
) -> Seq<(Seq<char>, Doc)> {
    match chosen_setting(debug, deploy) {
        Some(Setting::Template) => merged(template, template),
        Some(Setting::Debug) => merged(template, debug->Some_0),
        Some(Setting::Deploy) => merged(template, deploy->Some_0),
        None => template,
    }
}

/// Merges the chosen document onto the template.
pub fn merge_settings(template: &Table, debug: &Option<Table>, deploy: &Option<Table>) -> (table:
    Table)
    requires
        Doc::Table(table_of(template@)).well_formed(),
        debug matches Some(d) ==> Doc::Table(table_of(d@)).well_formed(),
        deploy matches Some(p) ==> Doc::Table(table_of(p@)).well_formed(),
    ensures
        table_of(table@) == settings(
            table_of(template@),
            optional_table(*debug),
            optional_table(*deploy),
        ),
{
    match choose_setting(debug, deploy) {
        Some(Setting::Template) => merge_tables(template, template),
        Some(Setting::Debug) => match debug {
            Some(debug) => merge_tables(template, debug),
            None => clone_table(template),
        },
        Some(Setting::Deploy) => match deploy {
            Some(deploy) => merge_tables(template, deploy),
            None => clone_table(template),
        },
        None => clone_table(template),
    }
}

/// The text with every hyphen turned into an underscore.
pub open spec fn underscored(text: Seq<char>) -> Seq<char> {
    Seq::new(
        text.len(),
        |i: int|
            if text[i] == '-' {
                '_'
            } else {
                text[i]
            },
    )
}

/// The key of a flat entry: the key in upper case with underscores for
/// hyphens, after the prefix and an underscore where there is a prefix.
pub open spec fn flat_key(key: Seq<char>, prefix: Option<Seq<char>>) -> Seq<char> {
    match prefix {
        Some(pre) => pre + "_"@ + underscored(uppercase(key)),
        None => underscored(uppercase(key)),
    }
}

/// The flat key of a key.
pub fn to_flat_key(key: &str, prefix: Option<&str>) -> (flat: String)
    ensures
        flat@ == flat_key(
            key@,
            match prefix {
                Some(pre) => Some(pre@),
                None => None,
            },
        ),
{
    let upper = key.to_uppercase();
    let chars = chars_of(upper.as_str());
    let mut replaced: Vec<char> = Vec::new();
    let mut i: usize = 0;
    while i < chars.len()
        invariant
            i <= chars.len(),
            replaced.len() == i,
            forall|j: int| 0 <= j < i ==> replaced[j] == underscored(chars@)[j],
        decreases chars.len() - i,
    {
        if chars[i] == '-' {
            replaced.push('_');
        } else {
            replaced.push(chars[i]);
        }
        i += 1;
    }
    assert(replaced@ =~= underscored(chars@));
    match prefix {
        Some(pre) => {
            let mut flat = chars_of(pre);
            flat.push('_');
            assert(flat@ =~= pre@ + "_"@) by {
                reveal_strlit("_");
            }
            append_chars(&mut flat, &replaced);
            string_of(&flat)
        },
        None => string_of(&replaced),
    }
}

/// The first `n` entries of `more` inserted into `acc`, one after the other.
pub open spec fn extended(
    acc: Seq<(Seq<char>, Doc)>,
    more: Seq<(Seq<char>, Doc)>,
    n: nat,
) -> Seq<(Seq<char>, Doc)>
    decreases n,
{
    if n == 0 || n > more.len() {
        acc
    } else {
        inserted(extended(acc, more, (n - 1) as nat), more[n - 1].0, more[n - 1].1)
    }
}

/// `acc` with the entries of a table from index `from` on laid out flat:
/// every value that is no table is inserted under its flat key, and the
/// entries of a table are laid out flat with the flat key of the table as
/// their prefix.
pub open spec fn flattened_from(
    acc: Seq<(Seq<char>, Doc)>,
    table: Seq<(Seq<char>, Doc)>,
    prefix: Option<Seq<char>>,
    from: nat,
) -> Seq<(Seq<char>, Doc)>
    decreases table, table.len() - from,
{
    if from >= table.len() {
        acc
    } else {
        match table[from as int].1 {
            Doc::Table(t) => flattened_from(
                extended(
                    acc,
                    flattened(t, Some(flat_key(table[from as int].0, prefix))),
                    flattened(t, Some(flat_key(table[from as int].0, prefix))).len(),
                ),
                table,
                prefix,
                from + 1,
            ),
            value => flattened_from(
                inserted(acc, flat_key(table[from as int].0, prefix), value),
                table,
                prefix,
                from + 1,
            ),
        }
    }
}

/// A table laid out flat.
pub open spec fn flattened(table: Seq<(Seq<char>, Doc)>, prefix: Option<Seq<char>>) -> Seq<
    (Seq<char>, Doc),
>
    decreases table, table.len() + 1,
{
    flattened_from(Seq::empty(), table, prefix, 0)
}

/// Convert a toml table to a flat table.
/// All tables are destructured: the values of the result can be of any toml
/// type except table, and no key occurs twice.
#[verifier::loop_isolation(false)]
pub fn table_to_flat_hashmap(table: &Table, prefix: Option<&str>) -> (map: Table)
    ensures
        table_of(map@) == flattened(
            table_of(table@),
            match prefix {
                Some(pre) => Some(pre@),
                None => None,
            },
        ),
        unique_keys(table_of(map@)),
    decreases table,
{
    let ghost entries = table_of(table@);
    let ghost pre = match prefix {
        Some(pre) => Some(pre@),
        None => None,
    };
    let mut map: Table = Vec::new();
    assert(table_of(map@) =~= Seq::empty());
    let mut i: usize = 0;
    while i < table.len()
        invariant
            i <= table.len(),
            unique_keys(table_of(map@)),
            flattened_from(table_of(map@), entries, pre, i as nat) == flattened(entries, pre),
        decreases table.len() - i,
    {
        assert(entries[i as int] == (table[i as int].0@, table[i as int].1@));
        let key = to_flat_key(table[i].0.as_str(), prefix);
        match &table[i].1 {
            Item::Table(t) => {
                proof {
                    lemma_doc_table(*t);
                }
                let sub_map = table_to_flat_hashmap(t, Some(key.as_str()));
                let ghost more = table_of(sub_map@);
                let ghost start = table_of(map@);
                let mut j: usize = 0;
                while j < sub_map.len()
                    invariant
                        j <= sub_map.len(),
                        unique_keys(table_of(map@)),
                        table_of(map@) == extended(start, more, j as nat),
                    decreases sub_map.len() - j,
                {
                    assert(more[j as int] == (sub_map[j as int].0@, sub_map[j as int].1@));
                    insert(&mut map, sub_map[j].0.clone(), sub_map[j].1.clone());
                    j += 1;
                }
            },
            other => {
                insert(&mut map, key, other.clone());
            },
        }
        i += 1;
    }
    map
}

} // verus!
