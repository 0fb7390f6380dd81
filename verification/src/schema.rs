//! The type-level projection of a document.

use vstd::prelude::*;
use crate::entries::{has_key, unique_keys, value_of};

verus! {

/// The mathematical model of a schema.
pub enum Schema {
    Str,
    Int,
    Float,
    Bool,
    Datetime { date: bool, time: bool, offset: bool },
    Array(Seq<Schema>),
    Table(Seq<(Seq<char>, Schema)>),
    TableMap { keys: Seq<Seq<char>>, shared: Box<Schema> },
}

/// Key and type information of a document, without its values.
#[derive(Debug)]
pub enum TomlValue {
    String,
    Integer,
    Float,
    Boolean,
    Datetime { date: bool, time: bool, offset: bool },
    Array(Vec<TomlValue>),
    Table(Vec<(String, TomlValue)>),
    /// A table all of whose values have the same schema.
    TableMap { keys: Vec<String>, value_type: Box<TomlValue> },
}

/// The texts of a list of strings.
pub open spec fn texts(keys: Seq<String>) -> Seq<Seq<char>> {
    Seq::new(keys.len(), |i: int| keys[i]@)
}

/// The schema that a `TomlValue` stands for.
pub open spec fn schema_of(v: TomlValue) -> Schema
    decreases v,
{
    match v {
        TomlValue::String => Schema::Str,
        TomlValue::Integer => Schema::Int,
        TomlValue::Float => Schema::Float,
        TomlValue::Boolean => Schema::Bool,
        TomlValue::Datetime { date, time, offset } => Schema::Datetime { date, time, offset },
        TomlValue::Array(items) => Schema::Array(
            Seq::new(
                items.len() as nat,
                |i: int|
                    if 0 <= i < items.len() {
                        schema_of(items[i])
                    } else {
                        Schema::Str
                    },
            ),
        ),
        TomlValue::Table(entries) => Schema::Table(
            Seq::new(
                entries.len() as nat,
                |i: int|
                    if 0 <= i < entries.len() {
                        (entries[i].0@, schema_of(entries[i].1))
                    } else {
                        (Seq::empty(), Schema::Str)
                    },
            ),
        ),
        TomlValue::TableMap { keys, value_type } => Schema::TableMap {
            keys: texts(keys@),
            shared: Box::new(schema_of(*value_type)),
        },
    }
}

impl View for TomlValue {
    type V = Schema;

    open spec fn view(&self) -> Schema {
        schema_of(*self)
    }
}

/// The schemas of a list of values.
pub open spec fn schemas_of(items: Seq<TomlValue>) -> Seq<Schema> {
    Seq::new(items.len(), |i: int| items[i]@)
}

/// The entries of a table, each key by its text and each value by its schema.
pub open spec fn entries_of(entries: Seq<(String, TomlValue)>) -> Seq<(Seq<char>, Schema)> {
    Seq::new(entries.len(), |i: int| (entries[i].0@, entries[i].1@))
}

/// An array stands for the array of the schemas of its elements.
pub proof fn lemma_view_array(items: Vec<TomlValue>)
    ensures
        TomlValue::Array(items)@ == Schema::Array(schemas_of(items@)),
{
    assert(TomlValue::Array(items)@->Array_0 =~= schemas_of(items@));
}

/// A table stands for the table of its keys and the schemas of its values.
pub proof fn lemma_view_table(entries: Vec<(String, TomlValue)>)
    ensures
        TomlValue::Table(entries)@ == Schema::Table(entries_of(entries@)),
{
    assert(TomlValue::Table(entries)@->Table_0 =~= entries_of(entries@));
}

impl Schema {
    /// Keys are unique in every table, and a table map has at least one key.
    pub open spec fn well_formed(self) -> bool
        decreases self,
    {
        match self {
            Schema::Array(items) => forall|i: int|
                0 <= i < items.len() ==> (#[trigger] items[i]).well_formed(),
            Schema::Table(entries) => unique_keys(entries) && forall|i: int|
                0 <= i < entries.len() ==> (#[trigger] entries[i]).1.well_formed(),
            Schema::TableMap { keys, shared } => keys.len() > 0 && keys.no_duplicates()
                && shared.well_formed(),
            _ => true,
        }
    }
}

impl Schema {
    /// No table map occurs: the schema has not been reduced.
    pub open spec fn is_plain(self) -> bool
        decreases self,
    {
        match self {
            Schema::Array(items) => forall|i: int|
                0 <= i < items.len() ==> (#[trigger] items[i]).is_plain(),
            Schema::Table(entries) => forall|i: int|
                0 <= i < entries.len() ==> (#[trigger] entries[i]).1.is_plain(),
            Schema::TableMap { .. } => false,
            _ => true,
        }
    }

    /// Every array holds at most one element schema.
    pub open spec fn arrays_unified(self) -> bool
        decreases self,
    {
        match self {
            Schema::Array(items) => items.len() <= 1 && forall|i: int|
                0 <= i < items.len() ==> (#[trigger] items[i]).arrays_unified(),
            Schema::Table(entries) => forall|i: int|
                0 <= i < entries.len() ==> (#[trigger] entries[i]).1.arrays_unified(),
            Schema::TableMap { keys, shared } => shared.arrays_unified(),
            _ => true,
        }
    }

    /// Every datetime has at least one of its three components.
    pub open spec fn datetimes_present(self) -> bool
        decreases self,
    {
        match self {
            Schema::Datetime { date, time, offset } => date || time || offset,
            Schema::Array(items) => forall|i: int|
                0 <= i < items.len() ==> (#[trigger] items[i]).datetimes_present(),
            Schema::Table(entries) => forall|i: int|
                0 <= i < entries.len() ==> (#[trigger] entries[i]).1.datetimes_present(),
            Schema::TableMap { keys, shared } => shared.datetimes_present(),
            _ => true,
        }
    }

    /// Every datetime is an offset date-time, a local date-time, a local date
    /// or a local time.
    pub open spec fn datetimes_resolved(self) -> bool
        decreases self,
    {
        match self {
            Schema::Datetime { date, time, offset } => (date || time) && (offset ==> date && time),
            Schema::Array(items) => forall|i: int|
                0 <= i < items.len() ==> (#[trigger] items[i]).datetimes_resolved(),
            Schema::Table(entries) => forall|i: int|
                0 <= i < entries.len() ==> (#[trigger] entries[i]).1.datetimes_resolved(),
            Schema::TableMap { keys, shared } => shared.datetimes_resolved(),
            _ => true,
        }
    }
}

impl Schema {
    /// The form that normalization produces: a well-formed schema without
    /// table maps, whose arrays are unified and whose datetimes are resolved.
    pub open spec fn is_normalized(self) -> bool {
        self.well_formed() && self.is_plain() && self.arrays_unified() && self.datetimes_resolved()
    }
}

impl Schema {
    /// Equality of schemas, in which the order of the keys of a table does
    /// not count: two tables are the same where they have the same keys and
    /// the same schema under each key.
    pub open spec fn same(self, other: Schema) -> bool
        decreases self,
    {
        match (self, other) {
            (Schema::Str, Schema::Str) => true,
            (Schema::Int, Schema::Int) => true,
            (Schema::Float, Schema::Float) => true,
            (Schema::Bool, Schema::Bool) => true,
            (
                Schema::Datetime { date: ld, time: lt, offset: lo },
                Schema::Datetime { date: rd, time: rt, offset: ro },
            ) => ld == rd && lt == rt && lo == ro,
            (Schema::Array(xs), Schema::Array(ys)) => xs.len() == ys.len() && forall|i: int|
                0 <= i < xs.len() ==> (#[trigger] xs[i]).same(ys[i]),
            (Schema::Table(xs), Schema::Table(ys)) => {
                &&& forall|i: int|
                    0 <= i < xs.len() ==> has_key(ys, (#[trigger] xs[i]).0) && xs[i].1.same(
                        value_of(ys, xs[i].0),
                    )
                &&& forall|j: int| 0 <= j < ys.len() ==> has_key(xs, (#[trigger] ys[j]).0)
            },
            (
                Schema::TableMap { keys: lk, shared: ls },
                Schema::TableMap { keys: rk, shared: rs },
            ) => lk == rk && ls.same(*rs),
            _ => false,
        }
    }
}

impl Schema {
    /// How deep arrays, tables and table maps are nested in the schema.
    pub open spec fn depth(self) -> nat
        decreases self, 0nat,
    {
        match self {
            Schema::Array(items) => 1 + items_depth(items, items.len()),
            Schema::Table(entries) => 1 + entries_depth(entries, entries.len()),
            Schema::TableMap { keys, shared } => 1 + shared.depth(),
            _ => 0,
        }
    }
}

/// The greatest depth among the first `n` items.
pub open spec fn items_depth(items: Seq<Schema>, n: nat) -> nat
    decreases items, n,
{
    if n == 0 || n > items.len() {
        0
    } else if items[n - 1].depth() > items_depth(items, (n - 1) as nat) {
        items[n - 1].depth()
    } else {
        items_depth(items, (n - 1) as nat)
    }
}

/// The greatest depth among the values of the first `n` entries.
pub open spec fn entries_depth(entries: Seq<(Seq<char>, Schema)>, n: nat) -> nat
    decreases entries, n,
{
    if n == 0 || n > entries.len() {
        0
    } else if entries[n - 1].1.depth() > entries_depth(entries, (n - 1) as nat) {
        entries[n - 1].1.depth()
    } else {
        entries_depth(entries, (n - 1) as nat)
    }
}

/// An item is less deep than the array that holds it.
pub proof fn lemma_item_depth(items: Seq<Schema>, n: nat, i: int)
    requires
        0 <= i < n <= items.len(),
    ensures
        items[i].depth() <= items_depth(items, n),
        items[i].depth() < Schema::Array(items).depth(),
    decreases n,
{
    if i < n - 1 {
        lemma_item_depth(items, (n - 1) as nat, i);
    }
    if n < items.len() {
        lemma_items_depth_grows(items, n, items.len());
    }
}

/// The depth of a prefix grows with the prefix.
pub proof fn lemma_items_depth_grows(items: Seq<Schema>, n: nat, m: nat)
    requires
        n <= m <= items.len(),
    ensures
        items_depth(items, n) <= items_depth(items, m),
    decreases m,
{
    if n < m {
        lemma_items_depth_grows(items, n, (m - 1) as nat);
    }
}

/// A value is less deep than the table that holds it.
pub proof fn lemma_entry_depth(entries: Seq<(Seq<char>, Schema)>, n: nat, i: int)
    requires
        0 <= i < n <= entries.len(),
    ensures
        entries[i].1.depth() <= entries_depth(entries, n),
        entries[i].1.depth() < Schema::Table(entries).depth(),
    decreases n,
{
    if i < n - 1 {
        lemma_entry_depth(entries, (n - 1) as nat, i);
    }
    if n < entries.len() {
        lemma_entries_depth_grows(entries, n, entries.len());
    }
}

/// The depth of a prefix grows with the prefix.
pub proof fn lemma_entries_depth_grows(entries: Seq<(Seq<char>, Schema)>, n: nat, m: nat)
    requires
        n <= m <= entries.len(),
    ensures
        entries_depth(entries, n) <= entries_depth(entries, m),
    decreases m,
{
    if n < m {
        lemma_entries_depth_grows(entries, n, (m - 1) as nat);
    }
}

/// Copies the entries of a table.
pub fn clone_entries(entries: &Vec<(String, TomlValue)>) -> (copy: Vec<(String, TomlValue)>)
    ensures
        entries_of(copy@) == entries_of(entries@),
{
    let mut copied: Vec<(String, TomlValue)> = Vec::new();
    let mut i: usize = 0;
    while i < entries.len()
        invariant
            i <= entries.len(),
            copied.len() == i,
            forall|j: int|
                0 <= j < i ==> (#[trigger] copied[j]).0@ == entries[j].0@ && copied[j].1@
                    == entries[j].1@,
        decreases entries.len() - i,
    {
        copied.push((entries[i].0.clone(), entries[i].1.clone()));
        i += 1;
    }
    assert(entries_of(copied@) =~= entries_of(entries@));
    copied
}

impl Clone for TomlValue {
    #[verifier::loop_isolation(false)]
    fn clone(&self) -> (copy: Self)
        ensures
            copy@ == self@,
        decreases self,
    {
        match self {
            TomlValue::String => TomlValue::String,
            TomlValue::Integer => TomlValue::Integer,
            TomlValue::Float => TomlValue::Float,
            TomlValue::Boolean => TomlValue::Boolean,
            TomlValue::Datetime { date, time, offset } => TomlValue::Datetime {
                date: *date,
                time: *time,
                offset: *offset,
            },
            TomlValue::Array(items) => {
                let mut copied: Vec<TomlValue> = Vec::new();
                let mut i: usize = 0;
                while i < items.len()
                    invariant
                        i <= items.len(),
                        copied.len() == i,
                        forall|j: int| 0 <= j < i ==> (#[trigger] copied[j])@ == items[j]@,
                    decreases items.len() - i,
                {
                    copied.push(items[i].clone());
                    i += 1;
                }
                proof {
                    lemma_view_array(copied);
                    lemma_view_array(*items);
                    assert(schemas_of(copied@) =~= schemas_of(items@));
                }
                TomlValue::Array(copied)
            },
            TomlValue::Table(entries) => {
                let mut copied: Vec<(String, TomlValue)> = Vec::new();
                let mut i: usize = 0;
                while i < entries.len()
                    invariant
                        i <= entries.len(),
                        copied.len() == i,
                        forall|j: int|
                            0 <= j < i ==> (#[trigger] copied[j]).0@ == entries[j].0@
                                && copied[j].1@ == entries[j].1@,
                    decreases entries.len() - i,
                {
                    copied.push((entries[i].0.clone(), entries[i].1.clone()));
                    i += 1;
                }
                proof {
                    lemma_view_table(copied);
                    lemma_view_table(*entries);
                    assert(entries_of(copied@) =~= entries_of(entries@));
                }
                TomlValue::Table(copied)
            },
            TomlValue::TableMap { keys, value_type } => {
                let copied_keys = clone_strings(keys);
                let copied_type = (**value_type).clone();
                TomlValue::TableMap { keys: copied_keys, value_type: Box::new(copied_type) }
            },
        }
    }
}

/// Copies a list of strings.
pub fn clone_strings(list: &Vec<String>) -> (copy: Vec<String>)
    ensures
        texts(copy@) == texts(list@),
{
    let mut copied: Vec<String> = Vec::new();
    let mut i: usize = 0;
    while i < list.len()
        invariant
            i <= list.len(),
            copied.len() == i,
            forall|j: int| 0 <= j < i ==> (#[trigger] copied[j])@ == list[j]@,
        decreases list.len() - i,
    {
        copied.push(list[i].clone());
        i += 1;
    }
    assert(texts(copied@) =~= texts(list@));
    copied
}

} // verus!
