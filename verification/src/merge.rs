//! Merging an override document onto a template, and choosing the override.

use vstd::prelude::*;
use vstd::string::StringExecFns;
use crate::entries::{
    find_key, has_key, key_index, lemma_key_index, lemma_overlay_all, lemma_overlay_hit,
    lemma_overlay_miss, lemma_overlay_none, only_in, overlay, overlay_prefix, value_of,
};
use crate::value::{clone_table, lemma_doc_table, table_of, Doc, Table, Item};

verus! {

/// The template with the changes merged onto it.
///
/// Each entry of the template keeps its place; where the changes have its key
/// too, its value is the merged value.  The entries of the changes whose key
/// the template does not have follow, in their order.
pub open spec fn merged(template: Seq<(Seq<char>, Doc)>, changes: Seq<(Seq<char>, Doc)>) -> Seq<
    (Seq<char>, Doc),
>
    decreases template, 0nat,
{
    Seq::new(
        template.len(),
        |i: int|
            if 0 <= i < template.len() && has_key(changes, template[i].0) {
                (template[i].0, merged_value(template[i].1, value_of(changes, template[i].0)))
            } else {
                template[i]
            },
    ) + only_in(changes, template)
}

/// What a value of the template becomes under a change: two tables are
/// merged, anything else is replaced by the change.
pub open spec fn merged_value(old: Doc, new: Doc) -> Doc
    decreases old, 1nat,
{
    match (old, new) {
        (Doc::Table(template), Doc::Table(changes)) => Doc::Table(merged(template, changes)),
        _ => new,
    }
}

/// `merged_value` as a function value.
pub open spec fn merge_values() -> spec_fn(Doc, Doc) -> Doc {
    |old: Doc, new: Doc| merged_value(old, new)
}

/// The function that leaves a value as it is.
pub open spec fn keep_doc() -> spec_fn(Doc) -> Doc {
    |new: Doc| new
}

/// Merging is the overlay of the changes on the template.
pub proof fn lemma_merged_is_overlay(template: Seq<(Seq<char>, Doc)>, changes: Seq<(Seq<char>, Doc)>)
    ensures
        merged(template, changes) == overlay(template, changes, merge_values(), keep_doc()),
{
    assert(merged(template, changes) =~= overlay(template, changes, merge_values(), keep_doc()));
}

/// Merge a toml template with a changes table. Changes will set/overwrite
/// values in the template.
#[verifier::loop_isolation(false)]
pub fn merge_tables(template: &Table, changes: &Table) -> (merged_table: Table)
    requires
        Doc::Table(table_of(template@)).well_formed(),
        Doc::Table(table_of(changes@)).well_formed(),
    ensures
        table_of(merged_table@) == merged(table_of(template@), table_of(changes@)),
    decreases template,
{
    let ghost xs = table_of(template@);
    let ghost ys = table_of(changes@);
    proof {
        lemma_overlay_none(xs, ys, merge_values(), keep_doc());
    }
    let mut merged_table = clone_table(template);
    let mut j: usize = 0;
    while j < changes.len()
        invariant
            j <= changes.len(),
            table_of(merged_table@) == overlay_prefix(xs, ys, j as int, merge_values(), keep_doc()),
        decreases changes.len() - j,
    {
        let key = &changes[j].0;
        let value = &changes[j].1;
        let ghost before = table_of(merged_table@);
        assert(ys[j as int] == (key@, value@));
        assert(ys[j as int].1.well_formed());
        match find_key(template, key) {
            Some(at) => {
                assert(xs[at as int] == (template[at as int].0@, template[at as int].1@));
                assert(xs[at as int].1.well_formed());
                proof {
                    lemma_key_index(xs, at as int);
                    lemma_overlay_hit(xs, ys, j as int, at as int, merge_values(), keep_doc());
                }
                let replacement = match (&template[at].1, value) {
                    (Item::Table(existing_table), Item::Table(changes_table)) => {
                        proof {
                            lemma_doc_table(*existing_table);
                            lemma_doc_table(*changes_table);
                        }
                        // Recursively merge the tables
                        let merged_subtable = merge_tables(existing_table, changes_table);
                        proof {
                            lemma_doc_table(merged_subtable);
                        }
                        Item::Table(merged_subtable)
                    },
                    // Update the value directly if it cannot be merged
                    _ => value.clone(),
                };
                merged_table[at] = (template[at].0.clone(), replacement);
                assert(table_of(merged_table@) =~= before.update(
                    at as int,
                    (xs[at as int].0, merged_value(xs[at as int].1, ys[j as int].1)),
                ));
            },
            None => {
                proof {
                    assert(!has_key(xs, ys[j as int].0)) by {
                        if has_key(xs, ys[j as int].0) {
                            let t = key_index(xs, ys[j as int].0);
                            assert(xs[t].0 == template[t].0@);
                        }
                    }
                    lemma_overlay_miss(xs, ys, j as int, merge_values(), keep_doc());
                }
                // Insert the value if it doesn't exist in the template
                merged_table.push((key.clone(), value.clone()));
                assert(table_of(merged_table@) =~= before.push(ys[j as int]));
            },
        }
        j += 1;
    }
    proof {
        lemma_overlay_all(xs, ys, merge_values(), keep_doc());
        lemma_merged_is_overlay(xs, ys);
    }
    merged_table
}

/// A document that may be merged onto the template.
#[derive(Debug)]
pub struct Candidate {
    /// The document, where the candidate's path resolved to one
    pub document: Option<Table>,
    /// Whether the caller marked the candidate for use
    pub forced: bool,
}

/// Whether a document opts in by itself: it has the key `use` with the
/// boolean value `true`.
pub open spec fn opts_in(document: Seq<(Seq<char>, Doc)>) -> bool {
    has_key(document, "use"@) && value_of(document, "use"@) == Doc::Bool(true)
}

impl Candidate {
    /// A candidate is active where its document exists and is either forced
    /// or opts in.
    pub open spec fn is_active(self) -> bool {
        match self.document {
            Some(document) => self.forced || opts_in(table_of(document@)),
            None => false,
        }
    }

    /// The document is absent, or its keys are unique.
    pub open spec fn well_formed(self) -> bool {
        match self.document {
            Some(document) => Doc::Table(table_of(document@)).well_formed(),
            None => true,
        }
    }

    /// Whether the candidate is to be merged onto the template if no earlier
    /// one is.
    pub fn active(&self) -> (active: bool)
        requires
            self.well_formed(),
        ensures
            active == self.is_active(),
    {
        match &self.document {
            None => false,
            Some(document) => {
                if self.forced {
                    // macro-level override
                    true
                } else {
                    // toml-level override
                    let ghost entries = table_of(document@);
                    let name = String::from_str("use");
                    match find_key(document, &name) {
                        Some(at) => {
                            assert(entries[at as int] == (document[at as int].0@, document[at as int].1@));
                            proof {
                                lemma_key_index(entries, at as int);
                            }
                            match &document[at].1 {
                                Item::Boolean(flag) => *flag,
                                _ => false,
                            }
                        },
                        None => {
                            proof {
                                if has_key(entries, "use"@) {
                                    let t = key_index(entries, "use"@);
                                    assert(entries[t].0 == document[t].0@);
                                }
                            }
                            false
                        },
                    }
                }
            },
        }
    }
}

/// Whether `at` is the index of the first active candidate.
pub open spec fn is_selected(candidates: Seq<Candidate>, at: int) -> bool {
    &&& 0 <= at < candidates.len()
    &&& candidates[at].is_active()
    &&& forall|i: int| 0 <= i < at ==> !(#[trigger] candidates[i]).is_active()
}

/// Chooses the override: the first candidate, in the order given, that is
/// active.
pub fn select_override(candidates: &Vec<Candidate>) -> (selected: Option<usize>)
    requires
        forall|i: int| 0 <= i < candidates.len() ==> (#[trigger] candidates[i]).well_formed(),
    ensures
        match selected {
            Some(at) => is_selected(candidates@, at as int),
            None => forall|i: int| 0 <= i < candidates.len() ==> !(#[trigger] candidates[i]).is_active(),
        },
{
    let mut i: usize = 0;
    while i < candidates.len()
        invariant
            i <= candidates.len(),
            forall|i: int| 0 <= i < candidates.len() ==> (#[trigger] candidates[i]).well_formed(),
            forall|j: int| 0 <= j < i ==> !(#[trigger] candidates[j]).is_active(),
        decreases candidates.len() - i,
    {
        if candidates[i].active() {
            return Some(i);
        }
        i += 1;
    }
    None
}

/// The document that results from a template and its candidates: the
/// template with the first active candidate merged onto it, or the template
/// as it is where no candidate is active.
pub open spec fn generated(template: Seq<(Seq<char>, Doc)>, candidates: Seq<Candidate>) -> Seq<
    (Seq<char>, Doc),
> {
    if exists|at: int| is_selected(candidates, at) {
        let at = choose|at: int| is_selected(candidates, at);
        merged(template, table_of(candidates[at].document->Some_0@))
    } else {
        template
    }
}

/// With the template and the candidates read in, applies the substitution.
pub fn generate_toml_table(template: &Table, candidates: &Vec<Candidate>) -> (table: Table)
    requires
        Doc::Table(table_of(template@)).well_formed(),
        forall|i: int| 0 <= i < candidates.len() ==> (#[trigger] candidates[i]).well_formed(),
    ensures
        table_of(table@) == generated(table_of(template@), candidates@),
{
    match select_override(candidates) {
        Some(at) => {
            assert forall|other: int| is_selected(candidates@, other) implies other == at by {
                if other < at {
                    assert(!candidates[other].is_active());
                } else if at < other {
                    assert(!candidates[at as int].is_active());
                }
            }
            match &candidates[at].document {
                Some(document) => merge_tables(template, document),
                None => clone_table(template),
            }
        },
        None => {
            assert forall|other: int| !is_selected(candidates@, other) by {
                if 0 <= other < candidates.len() {
                    assert(!candidates[other].is_active());
                }
            }
            clone_table(template)
        },
    }
}

} // verus!
