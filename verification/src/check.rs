//! The consistency check: whether two documents have exactly the same keys
//! and the same kinds of values, and whether the elements of each array agree
//! with one another.

use vstd::prelude::*;
use crate::entries::{find_key, has_key, key_index, lemma_key_index, value_of};
use vstd::string::*;
use crate::value::{docs_of, lemma_doc_array, lemma_doc_table, table_of, Doc, Item, Table};
use crate::schema::{
    entries_depth, entries_of, items_depth, lemma_entry_depth, lemma_item_depth, lemma_view_array,
    lemma_view_table, schemas_of, texts, Schema, TomlValue,
};

verus! {

/// What a failed check reports.
pub enum Divergence {
    /// A key stands in one table and not in the other.
    KeyMismatch { path: Seq<Seq<char>>, a_only: Option<Seq<char>>, b_only: Option<Seq<char>> },
    /// Two values under one key are of different kinds.
    ValueMismatch { path: Seq<Seq<char>> },
}

impl Divergence {
    /// The same divergence seen from one table further out, under `key`.
    pub open spec fn pushed(self, key: Seq<char>) -> Divergence {
        match self {
            Divergence::KeyMismatch { path, a_only, b_only } => Divergence::KeyMismatch {
                path: path.push(key),
                a_only,
                b_only,
            },
            Divergence::ValueMismatch { path } => Divergence::ValueMismatch { path: path.push(key) },
        }
    }

    /// The divergence with `key` added to its path where there is a key.
    pub open spec fn pushed_under(self, key: Option<Seq<char>>) -> Divergence {
        match key {
            Some(k) => self.pushed(k),
            None => self,
        }
    }
}

/// Various ways checks can be mismatched
#[derive(Clone, Debug)]
pub enum CheckError {
    /// Key that is in one table but not the other.
    KeyMismatch {
        /// Sequence of keys in reverse order that leads to this mismatch.
        path: Vec<String>,
        a_diff: Option<String>,
        b_diff: Option<String>,
    },
    /// A mismatch in value types, with the sequence of keys in reverse order
    /// that leads to it.
    ValueMismatch(Vec<String>),
}

/// The text of an optional string.
pub open spec fn text_of(s: Option<String>) -> Option<Seq<char>> {
    match s {
        Some(s) => Some(s@),
        None => None,
    }
}

impl View for CheckError {
    type V = Divergence;

    open spec fn view(&self) -> Divergence {
        match self {
            CheckError::KeyMismatch { path, a_diff, b_diff } => Divergence::KeyMismatch {
                path: texts(path@),
                a_only: text_of(*a_diff),
                b_only: text_of(*b_diff),
            },
            CheckError::ValueMismatch(items) => Divergence::ValueMismatch { path: texts(items@) },
        }
    }
}

/// The divergence that the result of a check reports, if any.
pub open spec fn reported(res: Result<(), CheckError>) -> Option<Divergence> {
    match res {
        Ok(()) => None,
        Err(e) => Some(e@),
    }
}

/// The greater of two depths.
pub open spec fn deeper(a: nat, b: nat) -> nat {
    if a > b {
        a
    } else {
        b
    }
}

/// How two values under `key` diverge, if they do.
///
/// Two scalars of one kind and two datetimes agree.  Two arrays agree where
/// every two elements of each agree and their first elements agree.  Two tables
/// agree where their keys and the values under them do; what they diverge in
/// has `key` added to its path.  Any other pair is a value mismatch at `key`.
pub open spec fn value_divergence(key: Option<Seq<char>>, a: Schema, b: Schema) -> Option<
    Divergence,
>
    decreases deeper(a.depth(), b.depth()), 0nat, 0nat, 0nat,
{
    match (a, b) {
        (Schema::Bool, Schema::Bool) => None,
        (Schema::Datetime { .. }, Schema::Datetime { .. }) => None,
        (Schema::Float, Schema::Float) => None,
        (Schema::Int, Schema::Int) => None,
        (Schema::Str, Schema::Str) => None,
        (Schema::Array(xs), Schema::Array(ys)) => array_divergence(key, xs, ys),
        (Schema::Table(xs), Schema::Table(ys)) => match table_divergence(xs, ys) {
            None => None,
            Some(e) => Some(e.pushed_under(key)),
        },
        _ => Some(
            Divergence::ValueMismatch {
                path: match key {
                    Some(k) => seq![k],
                    None => Seq::empty(),
                },
            },
        ),
    }
}

/// How the first pair of elements of an array that do not agree diverges,
/// no key given.  The pairs are taken element by element, each element with
/// all earlier ones in their order, from the element at `later` and the
/// earlier one at `earlier` on.
pub open spec fn inconsistency_from(arr: Seq<Schema>, later: nat, earlier: nat) -> Option<
    Divergence,
>
    decreases items_depth(arr, arr.len()), 1nat, arr.len() - later, later - earlier,
{
    if later >= arr.len() {
        None
    } else if earlier >= later {
        inconsistency_from(arr, later + 1, 0)
    } else {
        proof {
            lemma_item_depth(arr, arr.len(), earlier as int);
            lemma_item_depth(arr, arr.len(), later as int);
        }
        match value_divergence(None, arr[earlier as int], arr[later as int]) {
            Some(e) => Some(e),
            None => inconsistency_from(arr, later, earlier + 1),
        }
    }
}

/// How an array is inconsistent in itself, if it is: the divergence of the
/// first two elements that do not agree with each other.  An array is
/// consistent where every two of its elements agree.
pub open spec fn array_inconsistency(arr: Seq<Schema>) -> Option<Divergence> {
    inconsistency_from(arr, 0, 0)
}

/// Whether the pairs of elements from the element at `later` and the
/// earlier one at `earlier` on all agree.
pub open spec fn pairs_agree_from(arr: Seq<Schema>, later: nat, earlier: nat) -> bool {
    forall|i: int, j: int|
        0 <= i < j < arr.len() && (j > later || (j == later && i >= earlier)) ==> (
        #[trigger] value_divergence(None, arr[i], arr[j])) is None
}

/// No inconsistency is found from a pair on exactly where all pairs from
/// that pair on agree.
pub proof fn lemma_inconsistency_from(arr: Seq<Schema>, later: nat, earlier: nat)
    requires
        earlier <= later,
    ensures
        inconsistency_from(arr, later, earlier) is None <==> pairs_agree_from(arr, later, earlier),
    decreases arr.len() - later, later - earlier,
{
    if later >= arr.len() {
    } else if earlier >= later {
        lemma_inconsistency_from(arr, later + 1, 0);
        assert(pairs_agree_from(arr, later, earlier) <==> pairs_agree_from(arr, later + 1, 0));
    } else {
        lemma_inconsistency_from(arr, later, earlier + 1);
        if value_divergence(None, arr[earlier as int], arr[later as int]) is None {
            assert(pairs_agree_from(arr, later, earlier) <==> pairs_agree_from(
                arr,
                later,
                earlier + 1,
            ));
        }
    }
}

/// An array is consistent in itself exactly where every two of its elements
/// agree.
pub proof fn lemma_consistent_is_pairwise(arr: Seq<Schema>)
    ensures
        array_inconsistency(arr) is None <==> forall|i: int, j: int|
            0 <= i < j < arr.len() ==> (#[trigger] value_divergence(None, arr[i], arr[j])) is None,
{
    lemma_inconsistency_from(arr, 0, 0);
}

/// How two arrays under `key` diverge, if they do: in the inconsistency of
/// the first, else in that of the second, each with `key` added to its path,
/// else, where neither is empty, in the divergence of their first elements
/// under `key`.
pub open spec fn array_divergence(key: Option<Seq<char>>, xs: Seq<Schema>, ys: Seq<Schema>) -> Option<
    Divergence,
>
    decreases deeper(items_depth(xs, xs.len()), items_depth(ys, ys.len())), 2nat, 0nat, 0nat,
{
    match inconsistency_from(xs, 0, 0) {
        Some(e) => Some(e.pushed_under(key)),
        None => match inconsistency_from(ys, 0, 0) {
            Some(e) => Some(e.pushed_under(key)),
            None => {
                if xs.len() == 0 || ys.len() == 0 {
                    None
                } else {
                    proof {
                        lemma_item_depth(xs, xs.len(), 0);
                        lemma_item_depth(ys, ys.len(), 0);
                    }
                    value_divergence(key, xs[0], ys[0])
                }
            },
        },
    }
}

/// The first key of `xs`, from index `from` on, that does not occur in `ys`.
pub open spec fn first_missing(
    xs: Seq<(Seq<char>, Schema)>,
    ys: Seq<(Seq<char>, Schema)>,
    from: nat,
) -> Option<Seq<char>>
    decreases xs.len() - from,
{
    if from >= xs.len() {
        None
    } else if !has_key(ys, xs[from as int].0) {
        Some(xs[from as int].0)
    } else {
        first_missing(xs, ys, from + 1)
    }
}

/// How two tables diverge, if they do.
///
/// Where a key of one does not occur in the other, they diverge in a key
/// mismatch with an empty path that names the first such key of each table.
/// Otherwise the values are compared key by key in the order of the first
/// table, and the first divergence found is the result.
pub open spec fn table_divergence(
    xs: Seq<(Seq<char>, Schema)>,
    ys: Seq<(Seq<char>, Schema)>,
) -> Option<Divergence>
    decreases deeper(entries_depth(xs, xs.len()), entries_depth(ys, ys.len())), 2nat, 0nat, 0nat,
{
    if first_missing(xs, ys, 0) is Some || first_missing(ys, xs, 0) is Some {
        Some(
            Divergence::KeyMismatch {
                path: Seq::empty(),
                a_only: first_missing(xs, ys, 0),
                b_only: first_missing(ys, xs, 0),
            },
        )
    } else {
        entries_divergence(xs, ys, 0)
    }
}

/// The first divergence between the value of an entry of `xs`, from index
/// `from` on, and the value under the same key in `ys`.
pub open spec fn entries_divergence(
    xs: Seq<(Seq<char>, Schema)>,
    ys: Seq<(Seq<char>, Schema)>,
    from: nat,
) -> Option<Divergence>
    decreases
            deeper(entries_depth(xs, xs.len()), entries_depth(ys, ys.len())),
            1nat,
            xs.len() - from,
            0nat,
{
    if from >= xs.len() {
        None
    } else if !has_key(ys, xs[from as int].0) {
        entries_divergence(xs, ys, from + 1)
    } else {
        proof {
            lemma_entry_depth(xs, xs.len(), from as int);
            lemma_entry_depth(ys, ys.len(), key_index(ys, xs[from as int].0));
        }
        match value_divergence(
            Some(xs[from as int].0),
            xs[from as int].1,
            value_of(ys, xs[from as int].0),
        ) {
            Some(e) => Some(e),
            None => entries_divergence(xs, ys, from + 1),
        }
    }
}

/// How a document is inconsistent in itself, if it is: the first array, in
/// document order from entry `from` on and through nested tables, whose
/// elements do not agree with one another, with the keys that lead to it.
pub open spec fn document_inconsistency(entries: Seq<(Seq<char>, Schema)>, from: nat) -> Option<
    Divergence,
>
    decreases entries, entries.len() - from,
{
    if from >= entries.len() {
        None
    } else {
        let found = match entries[from as int].1 {
            Schema::Array(arr) => array_inconsistency(arr),
            Schema::Table(sub) => document_inconsistency(sub, 0),
            _ => None,
        };
        match found {
            Some(e) => Some(e.pushed(entries[from as int].0)),
            None => document_inconsistency(entries, from + 1),
        }
    }
}

/// Whether a table, a table nested in it, or a table that is an element of an
/// array in one of these, has the empty string as a key.
pub open spec fn has_empty_key(entries: Seq<(Seq<char>, Doc)>) -> bool {
    empty_key_from(entries, 0)
}

/// Whether an entry from index `from` on has an empty key or a value that
/// holds one.
pub open spec fn empty_key_from(entries: Seq<(Seq<char>, Doc)>, from: nat) -> bool
    decreases entries, entries.len() - from,
{
    if from >= entries.len() {
        false
    } else {
        entries[from as int].0.len() == 0 || (match entries[from as int].1 {
            Doc::Table(sub) => empty_key_from(sub, 0),
            Doc::Array(arr) => empty_key_in_elements(arr, 0),
            _ => false,
        }) || empty_key_from(entries, from + 1)
    }
}

/// Whether an element of an array from index `from` on is a table that
/// holds an empty key.
pub open spec fn empty_key_in_elements(arr: Seq<Doc>, from: nat) -> bool
    decreases arr, arr.len() - from,
{
    if from >= arr.len() {
        false
    } else {
        (match arr[from as int] {
            Doc::Table(sub) => empty_key_from(sub, 0),
            _ => false,
        }) || empty_key_in_elements(arr, from + 1)
    }
}

/// The text of an optional key.
pub open spec fn key_text(key: Option<&str>) -> Option<Seq<char>> {
    match key {
        Some(k) => Some(k@),
        None => None,
    }
}

/// An empty string was used as a key.
#[derive(Debug)]
pub struct InvalidKey {}

/// When receiving an error when performing some op on key+values, this
/// function accumulates current key to the error.
pub fn propagate_check_error(key: &str, err: CheckError) -> (outer: CheckError)
    ensures
        outer@ == err@.pushed(key@),
{
    match err {
        CheckError::KeyMismatch { path, a_diff, b_diff } => {
            let mut tp = path;
            let ghost before = tp@;
            tp.push(key.to_owned());
            assert(texts(tp@) =~= texts(before).push(key@));
            CheckError::KeyMismatch { path: tp, a_diff, b_diff }
        },
        CheckError::ValueMismatch(items) => {
            let mut items = items;
            let ghost before = items@;
            items.push(key.to_owned());
            assert(texts(items@) =~= texts(before).push(key@));
            CheckError::ValueMismatch(items)
        },
    }
}

/// Compares the kinds of two values that stand under `key`.
pub fn compare_value(key: Option<&str>, val_a: &TomlValue, val_b: &TomlValue) -> (res: Result<
    (),
    CheckError,
>)
    requires
        val_a@.well_formed(),
        val_b@.well_formed(),
    ensures
        reported(res) == value_divergence(key_text(key), val_a@, val_b@),
    decreases deeper(val_a@.depth(), val_b@.depth()), 0nat, 0nat, 0nat,
{
    match (val_a, val_b) {
        (TomlValue::Boolean, TomlValue::Boolean) => Ok(()),
        (TomlValue::Datetime { .. }, TomlValue::Datetime { .. }) => Ok(()),
        (TomlValue::Float, TomlValue::Float) => Ok(()),
        (TomlValue::Integer, TomlValue::Integer) => Ok(()),
        (TomlValue::String, TomlValue::String) => Ok(()),
        (TomlValue::Array(arr_a), TomlValue::Array(arr_b)) => {
            proof {
                lemma_view_array(*arr_a);
                lemma_view_array(*arr_b);
                assert(Schema::Array(schemas_of(arr_a@)).well_formed());
                assert(Schema::Array(schemas_of(arr_b@)).well_formed());
            }
            compare_array_schema(key, arr_a, arr_b)
        },
        (TomlValue::Table(a_table), TomlValue::Table(b_table)) => {
            proof {
                lemma_view_table(*a_table);
                lemma_view_table(*b_table);
                assert(Schema::Table(entries_of(a_table@)).well_formed());
                assert(Schema::Table(entries_of(b_table@)).well_formed());
            }
            match compare_table_schema(a_table, b_table) {
                Ok(()) => Ok(()),
                Err(e) => match key {
                    Some(k) => Err(propagate_check_error(k, e)),
                    None => Err(e),
                },
            }
        },
        _ => {
            let mut path: Vec<String> = Vec::new();
            if let Some(k) = key {
                path.push(k.to_owned());
                assert(texts(path@) =~= seq![k@]);
            } else {
                assert(texts(path@) =~= Seq::empty());
            }
            Err(CheckError::ValueMismatch(path))
        },
    }
}

/// Checks that every two elements of an array agree.
pub fn check_array_schema(arr: &Vec<TomlValue>) -> (res: Result<(), CheckError>)
    requires
        Schema::Array(schemas_of(arr@)).well_formed(),
    ensures
        reported(res) == array_inconsistency(schemas_of(arr@)),
    decreases items_depth(schemas_of(arr@), arr.len() as nat), 1nat, arr.len(), 0nat,
{
    let ghost items = schemas_of(arr@);
    let mut later: usize = 0;
    while later < arr.len()
        invariant
            later <= arr.len(),
            items == schemas_of(arr@),
            Schema::Array(items).well_formed(),
            inconsistency_from(items, later as nat, 0) == inconsistency_from(items, 0, 0),
        decreases arr.len() - later,
    {
        let mut earlier: usize = 0;
        while earlier < later
            invariant
                earlier <= later < arr.len(),
                items == schemas_of(arr@),
                Schema::Array(items).well_formed(),
                inconsistency_from(items, later as nat, earlier as nat) == inconsistency_from(
                    items,
                    0,
                    0,
                ),
            decreases later - earlier,
        {
            proof {
                lemma_item_depth(items, items.len(), earlier as int);
                lemma_item_depth(items, items.len(), later as int);
                assert(items[earlier as int].well_formed() && items[later as int].well_formed());
            }
            // arrays do not propagate their key downwards
            match compare_value(None, &arr[earlier], &arr[later]) {
                Ok(()) => {},
                Err(e) => {
                    return Err(e);
                },
            }
            earlier += 1;
        }
        later += 1;
    }
    Ok(())
}

/// Adds `key` to the path of an error where there is a key.
pub fn propagate_under(key: Option<&str>, err: CheckError) -> (outer: CheckError)
    ensures
        outer@ == err@.pushed_under(key_text(key)),
{
    match key {
        Some(k) => propagate_check_error(k, err),
        None => err,
    }
}

/// Checks each of two arrays in itself and compares their first elements.
pub fn compare_array_schema(key: Option<&str>, arr_a: &Vec<TomlValue>, arr_b: &Vec<TomlValue>) -> (res:
    Result<(), CheckError>)
    requires
        Schema::Array(schemas_of(arr_a@)).well_formed(),
        Schema::Array(schemas_of(arr_b@)).well_formed(),
    ensures
        reported(res) == array_divergence(key_text(key), schemas_of(arr_a@), schemas_of(arr_b@)),
    decreases
            deeper(
                items_depth(schemas_of(arr_a@), arr_a.len() as nat),
                items_depth(schemas_of(arr_b@), arr_b.len() as nat),
            ),
            2nat,
            0nat,
            0nat,
{
    match check_array_schema(arr_a) {
        Ok(()) => {},
        Err(e) => {
            return Err(propagate_under(key, e));
        },
    }
    match check_array_schema(arr_b) {
        Ok(()) => {},
        Err(e) => {
            return Err(propagate_under(key, e));
        },
    }
    if arr_a.len() == 0 || arr_b.len() == 0 {
        Ok(())
    } else {
        proof {
            lemma_item_depth(schemas_of(arr_a@), arr_a.len() as nat, 0);
            lemma_item_depth(schemas_of(arr_b@), arr_b.len() as nat, 0);
            assert(schemas_of(arr_a@)[0].well_formed() && schemas_of(arr_b@)[0].well_formed());
        }
        compare_value(key, &arr_a[0], &arr_b[0])
    }
}

/// The first key of `table_a` that `table_b` does not have.
pub fn first_missing_key(table_a: &Vec<(String, TomlValue)>, table_b: &Vec<(String, TomlValue)>) -> (key:
    Option<String>)
    ensures
        text_of(key) == first_missing(entries_of(table_a@), entries_of(table_b@), 0),
{
    let ghost xs = entries_of(table_a@);
    let ghost ys = entries_of(table_b@);
    let mut i: usize = 0;
    while i < table_a.len()
        invariant
            i <= table_a.len(),
            xs == entries_of(table_a@),
            ys == entries_of(table_b@),
            first_missing(xs, ys, i as nat) == first_missing(xs, ys, 0),
        decreases table_a.len() - i,
    {
        match find_key(table_b, &table_a[i].0) {
            None => {
                proof {
                    if has_key(ys, xs[i as int].0) {
                        let t = key_index(ys, xs[i as int].0);
                        assert(ys[t].0 == table_b[t].0@);
                    }
                }
                return Some(table_a[i].0.clone());
            },
            Some(at) => {
                assert(ys[at as int].0 == xs[i as int].0);
            },
        }
        i += 1;
    }
    None
}

/// Check that both tables match exactly in keys and types.
pub fn compare_table_schema(table_a: &Vec<(String, TomlValue)>, table_b: &Vec<(String, TomlValue)>) -> (res:
    Result<(), CheckError>)
    requires
        Schema::Table(entries_of(table_a@)).well_formed(),
        Schema::Table(entries_of(table_b@)).well_formed(),
    ensures
        reported(res) == table_divergence(entries_of(table_a@), entries_of(table_b@)),
    decreases
            deeper(
                entries_depth(entries_of(table_a@), table_a.len() as nat),
                entries_depth(entries_of(table_b@), table_b.len() as nat),
            ),
            2nat,
            0nat,
            0nat,
{
    let ghost xs = entries_of(table_a@);
    let ghost ys = entries_of(table_b@);
    // check that both tables have the same keys
    let a_diff = first_missing_key(table_a, table_b);
    let b_diff = first_missing_key(table_b, table_a);
    if a_diff.is_some() || b_diff.is_some() {
        let path: Vec<String> = Vec::new();
        assert(texts(path@) =~= Seq::empty());
        return Err(CheckError::KeyMismatch { path, a_diff, b_diff });
    }
    let mut i: usize = 0;
    while i < table_a.len()
        invariant
            i <= table_a.len(),
            xs == entries_of(table_a@),
            ys == entries_of(table_b@),
            Schema::Table(xs).well_formed(),
            Schema::Table(ys).well_formed(),
            first_missing(xs, ys, 0) is None,
            first_missing(ys, xs, 0) is None,
            entries_divergence(xs, ys, i as nat) == entries_divergence(xs, ys, 0),
        decreases table_a.len() - i,
    {
        match find_key(table_b, &table_a[i].0) {
            None => {
                proof {
                    if has_key(ys, xs[i as int].0) {
                        let t = key_index(ys, xs[i as int].0);
                        assert(ys[t].0 == table_b[t].0@);
                    }
                }
            },
            Some(at) => {
                proof {
                    assert(ys[at as int] == (table_b[at as int].0@, table_b[at as int].1@));
                    assert(xs[i as int] == (table_a[i as int].0@, table_a[i as int].1@));
                    lemma_key_index(ys, at as int);
                    lemma_entry_depth(xs, xs.len(), i as int);
                    lemma_entry_depth(ys, ys.len(), at as int);
                    assert(xs[i as int].1.well_formed());
                    assert(ys[at as int].1.well_formed());
                }
                match compare_value(Some(table_a[i].0.as_str()), &table_a[i].1, &table_b[at].1) {
                    Ok(()) => {},
                    Err(e) => {
                        return Err(e);
                    },
                }
            },
        }
        i += 1;
    }
    Ok(())
}

/// Checks that all arrays of a document are consistent.
pub fn check(table: &Vec<(String, TomlValue)>) -> (res: Result<(), CheckError>)
    requires
        Schema::Table(entries_of(table@)).well_formed(),
    ensures
        reported(res) == document_inconsistency(entries_of(table@), 0),
    decreases table,
{
    let ghost entries = entries_of(table@);
    let mut i: usize = 0;
    while i < table.len()
        invariant
            i <= table.len(),
            entries == entries_of(table@),
            Schema::Table(entries).well_formed(),
            document_inconsistency(entries, i as nat) == document_inconsistency(entries, 0),
        decreases table.len() - i,
    {
        assert(entries[i as int] == (table[i as int].0@, table[i as int].1@));
        assert(entries[i as int].1.well_formed());
        match &table[i].1 {
            TomlValue::Array(arr) => {
                proof {
                    lemma_view_array(*arr);
                    assert(Schema::Array(schemas_of(arr@)).well_formed());
                }
                match check_array_schema(arr) {
                    Ok(()) => {},
                    Err(e) => {
                        return Err(propagate_check_error(table[i].0.as_str(), e));
                    },
                }
            },
            TomlValue::Table(sub_table) => {
                proof {
                    lemma_view_table(*sub_table);
                }
                match check(sub_table) {
                    Ok(()) => {},
                    Err(e) => {
                        return Err(propagate_check_error(table[i].0.as_str(), e));
                    },
                }
            },
            _ => {},
        }
        i += 1;
    }
    Ok(())
}

/// Check that this table and all child items do not contain prohibited keys.
#[verifier::loop_isolation(false)]
pub fn check_unauthorized_keys(input: &Table) -> (res: Result<(), InvalidKey>)
    ensures
        res is Err == has_empty_key(table_of(input@)),
    decreases input,
{
    let ghost entries = table_of(input@);
    let mut i: usize = 0;
    while i < input.len()
        invariant
            i <= input.len(),
            empty_key_from(entries, i as nat) == empty_key_from(entries, 0),
        decreases input.len() - i,
    {
        assert(entries[i as int] == (input[i as int].0@, input[i as int].1@));
        if input[i].0.as_str().unicode_len() == 0 {
            return Err(InvalidKey {  });
        }
        match &input[i].1 {
            Item::Table(sub_table) => {
                proof {
                    lemma_doc_table(*sub_table);
                }
                match check_unauthorized_keys(sub_table) {
                    Ok(()) => {},
                    Err(e) => {
                        return Err(e);
                    },
                }
            },
            Item::Array(arr) => {
                let ghost items = docs_of(arr@);
                proof {
                    lemma_doc_array(*arr);
                }
                let mut j: usize = 0;
                while j < arr.len()
                    invariant
                        j <= arr.len(),
                        empty_key_in_elements(items, j as nat) == empty_key_in_elements(items, 0),
                    decreases arr.len() - j,
                {
                    assert(items[j as int] == arr[j as int]@);
                    if let Item::Table(sub_table) = &arr[j] {
                        proof {
                            lemma_doc_table(*sub_table);
                        }
                        match check_unauthorized_keys(sub_table) {
                            Ok(()) => {},
                            Err(e) => {
                                return Err(e);
                            },
                        }
                    }
                    j += 1;
                }
            },
            _ => {},
        }
        i += 1;
    }
    Ok(())
}

} // verus!
