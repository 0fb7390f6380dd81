//! Tests of what the functions of this library ask of their arguments, for
//! callers that cannot know it otherwise.

use vstd::prelude::*;
use crate::custom_struct::{all_shaped, definable, typable};
use crate::entries::{find_key, has_key, key_index, lemma_key_index, unique_keys, value_of};
use crate::datetime::{offset_writable, writable};
use crate::fill::conforms;
use crate::instantiate::{has_shape, instantiable};
use crate::schema::{
    entries_of, lemma_view_array, lemma_view_table, schemas_of, texts, Schema, TomlValue,
};
use crate::value::{
    docs_of, lemma_doc_array, lemma_doc_table, table_of, Datetime, Doc, Item, Offset, Table,
};

verus! {

/// Whether no two entries have the same key.
pub fn keys_are_distinct<T>(entries: &Vec<(String, T)>) -> (distinct: bool)
    ensures
        distinct == forall|i: int, j: int|
            0 <= i < j < entries.len() ==> (#[trigger] entries[i]).0@ != (#[trigger] entries[j]).0@,
{
    let mut j: usize = 0;
    while j < entries.len()
        invariant
            j <= entries.len(),
            forall|a: int, b: int|
                0 <= a < b < j ==> (#[trigger] entries[a]).0@ != (#[trigger] entries[b]).0@,
        decreases entries.len() - j,
    {
        let mut i: usize = 0;
        while i < j
            invariant
                i <= j < entries.len(),
                forall|a: int| 0 <= a < i ==> (#[trigger] entries[a]).0@ != entries[j as int].0@,
            decreases j - i,
        {
            if entries[i].0 == entries[j].0 {
                return false;
            }
            i += 1;
        }
        j += 1;
    }
    true
}

/// Whether no two strings are the same.
pub fn strings_are_distinct(keys: &Vec<String>) -> (distinct: bool)
    ensures
        distinct == texts(keys@).no_duplicates(),
{
    let ghost names = texts(keys@);
    let mut j: usize = 0;
    while j < keys.len()
        invariant
            j <= keys.len(),
            names == texts(keys@),
            forall|a: int, b: int| 0 <= a < b < j ==> names[a] != names[b],
        decreases keys.len() - j,
    {
        let mut i: usize = 0;
        while i < j
            invariant
                i <= j < keys.len(),
                names == texts(keys@),
                forall|a: int| 0 <= a < i ==> names[a] != names[j as int],
            decreases j - i,
        {
            if keys[i] == keys[j] {
                assert(names[i as int] == names[j as int]);
                return false;
            }
            i += 1;
        }
        j += 1;
    }
    assert forall|a: int, b: int| 0 <= a < names.len() && 0 <= b < names.len() && a != b implies names[a]
        != names[b] by {
        if a < b {
            assert(names[a] != names[b]);
        } else {
            assert(names[b] != names[a]);
        }
    }
    true
}

impl TomlValue {
    /// Whether the keys of every table are unique and every table map has a
    /// key.
    #[verifier::loop_isolation(false)]
    pub fn is_well_formed(&self) -> (ok: bool)
        ensures
            ok == self@.well_formed(),
        decreases self,
    {
        match self {
            TomlValue::Array(items) => {
                let ghost schemas = schemas_of(items@);
                assert(Schema::Array(schemas)->Array_0 == schemas);
                proof {
                    lemma_view_array(*items);
                }
                let mut i: usize = 0;
                while i < items.len()
                    invariant
                        i <= items.len(),
                        forall|j: int| 0 <= j < i ==> (#[trigger] schemas[j]).well_formed(),
                    decreases items.len() - i,
                {
                    assert(schemas[i as int] == items[i as int]@);
                    if !items[i].is_well_formed() {
                        assert(!Schema::Array(schemas).well_formed());
                        return false;
                    }
                    i += 1;
                }
                assert(Schema::Array(schemas).well_formed());
                true
            },
            TomlValue::Table(entries) => {
                let ghost schemas = entries_of(entries@);
                assert(Schema::Table(schemas)->Table_0 == schemas);
                proof {
                    lemma_view_table(*entries);
                }
                if !keys_are_distinct(entries) {
                    assert(!unique_keys(schemas)) by {
                        let (a, b) = choose|a: int, b: int|
                            0 <= a < b < entries.len() && (#[trigger] entries[a]).0@ == (
                            #[trigger] entries[b]).0@;
                        assert(schemas[a].0 == schemas[b].0);
                    }
                    assert(!Schema::Table(schemas).well_formed());
                    return false;
                }
                assert(unique_keys(schemas)) by {
                    assert forall|a: int, b: int| 0 <= a < b < schemas.len() implies (
                    #[trigger] schemas[a]).0 != (#[trigger] schemas[b]).0 by {
                        assert(entries[a].0@ != entries[b].0@);
                    }
                }
                let mut i: usize = 0;
                while i < entries.len()
                    invariant
                        i <= entries.len(),
                        forall|j: int| 0 <= j < i ==> (#[trigger] schemas[j]).1.well_formed(),
                    decreases entries.len() - i,
                {
                    assert(schemas[i as int] == (entries[i as int].0@, entries[i as int].1@));
                    if !entries[i].1.is_well_formed() {
                        assert(!Schema::Table(schemas).well_formed());
                        return false;
                    }
                    i += 1;
                }
                assert(Schema::Table(schemas).well_formed());
                true
            },
            TomlValue::TableMap { keys, value_type } => {
                keys.len() > 0 && strings_are_distinct(keys) && value_type.is_well_formed()
            },
            _ => true,
        }
    }

    /// Whether no table map occurs.
    #[verifier::loop_isolation(false)]
    pub fn is_plain(&self) -> (ok: bool)
        ensures
            ok == self@.is_plain(),
        decreases self,
    {
        match self {
            TomlValue::Array(items) => {
                let ghost schemas = schemas_of(items@);
                assert(Schema::Array(schemas)->Array_0 == schemas);
                proof {
                    lemma_view_array(*items);
                }
                let mut i: usize = 0;
                while i < items.len()
                    invariant
                        i <= items.len(),
                        forall|j: int| 0 <= j < i ==> (#[trigger] schemas[j]).is_plain(),
                    decreases items.len() - i,
                {
                    assert(schemas[i as int] == items[i as int]@);
                    if !items[i].is_plain() {
                        assert(!Schema::Array(schemas).is_plain());
                        return false;
                    }
                    i += 1;
                }
                assert(Schema::Array(schemas).is_plain());
                true
            },
            TomlValue::Table(entries) => {
                let ghost schemas = entries_of(entries@);
                assert(Schema::Table(schemas)->Table_0 == schemas);
                proof {
                    lemma_view_table(*entries);
                }
                let mut i: usize = 0;
                while i < entries.len()
                    invariant
                        i <= entries.len(),
                        forall|j: int| 0 <= j < i ==> (#[trigger] schemas[j]).1.is_plain(),
                    decreases entries.len() - i,
                {
                    assert(schemas[i as int] == (entries[i as int].0@, entries[i as int].1@));
                    if !entries[i].1.is_plain() {
                        assert(!Schema::Table(schemas).is_plain());
                        return false;
                    }
                    i += 1;
                }
                assert(Schema::Table(schemas).is_plain());
                true
            },
            TomlValue::TableMap { .. } => false,
            _ => true,
        }
    }

    /// Whether every array holds at most one element schema.
    #[verifier::loop_isolation(false)]
    pub fn has_unified_arrays(&self) -> (ok: bool)
        ensures
            ok == self@.arrays_unified(),
        decreases self,
    {
        match self {
            TomlValue::Array(items) => {
                let ghost schemas = schemas_of(items@);
                assert(Schema::Array(schemas)->Array_0 == schemas);
                proof {
                    lemma_view_array(*items);
                }
                if items.len() > 1 {
                    assert(!Schema::Array(schemas).arrays_unified());
                    return false;
                }
                let mut i: usize = 0;
                while i < items.len()
                    invariant
                        i <= items.len(),
                        forall|j: int| 0 <= j < i ==> (#[trigger] schemas[j]).arrays_unified(),
                    decreases items.len() - i,
                {
                    assert(schemas[i as int] == items[i as int]@);
                    if !items[i].has_unified_arrays() {
                        assert(!Schema::Array(schemas).arrays_unified());
                        return false;
                    }
                    i += 1;
                }
                assert(Schema::Array(schemas).arrays_unified());
                true
            },
            TomlValue::Table(entries) => {
                let ghost schemas = entries_of(entries@);
                assert(Schema::Table(schemas)->Table_0 == schemas);
                proof {
                    lemma_view_table(*entries);
                }
                let mut i: usize = 0;
                while i < entries.len()
                    invariant
                        i <= entries.len(),
                        forall|j: int| 0 <= j < i ==> (#[trigger] schemas[j]).1.arrays_unified(),
                    decreases entries.len() - i,
                {
                    assert(schemas[i as int] == (entries[i as int].0@, entries[i as int].1@));
                    if !entries[i].1.has_unified_arrays() {
                        assert(!Schema::Table(schemas).arrays_unified());
                        return false;
                    }
                    i += 1;
                }
                assert(Schema::Table(schemas).arrays_unified());
                true
            },
            TomlValue::TableMap { keys, value_type } => value_type.has_unified_arrays(),
            _ => true,
        }
    }

    /// Whether every datetime has at least one of its three components.
    #[verifier::loop_isolation(false)]
    pub fn has_present_datetimes(&self) -> (ok: bool)
        ensures
            ok == self@.datetimes_present(),
        decreases self,
    {
        match self {
            TomlValue::Datetime { date, time, offset } => *date || *time || *offset,
            TomlValue::Array(items) => {
                let ghost schemas = schemas_of(items@);
                assert(Schema::Array(schemas)->Array_0 == schemas);
                proof {
                    lemma_view_array(*items);
                }
                let mut i: usize = 0;
                while i < items.len()
                    invariant
                        i <= items.len(),
                        forall|j: int| 0 <= j < i ==> (#[trigger] schemas[j]).datetimes_present(),
                    decreases items.len() - i,
                {
                    assert(schemas[i as int] == items[i as int]@);
                    if !items[i].has_present_datetimes() {
                        assert(!Schema::Array(schemas).datetimes_present());
                        return false;
                    }
                    i += 1;
                }
                assert(Schema::Array(schemas).datetimes_present());
                true
            },
            TomlValue::Table(entries) => {
                let ghost schemas = entries_of(entries@);
                assert(Schema::Table(schemas)->Table_0 == schemas);
                proof {
                    lemma_view_table(*entries);
                }
                let mut i: usize = 0;
                while i < entries.len()
                    invariant
                        i <= entries.len(),
                        forall|j: int| 0 <= j < i ==> (#[trigger] schemas[j]).1.datetimes_present(),
                    decreases entries.len() - i,
                {
                    assert(schemas[i as int] == (entries[i as int].0@, entries[i as int].1@));
                    if !entries[i].1.has_present_datetimes() {
                        assert(!Schema::Table(schemas).datetimes_present());
                        return false;
                    }
                    i += 1;
                }
                assert(Schema::Table(schemas).datetimes_present());
                true
            },
            TomlValue::TableMap { keys, value_type } => value_type.has_present_datetimes(),
            _ => true,
        }
    }

    /// Whether the schema can be normalized: it is well-formed and plain, and
    /// its datetimes have a component.
    pub fn can_normalize(&self) -> (ok: bool)
        ensures
            ok == (self@.well_formed() && self@.is_plain() && self@.datetimes_present()),
    {
        self.is_well_formed() && self.is_plain() && self.has_present_datetimes()
    }
}

impl Item {
    /// Whether the keys of every table are unique.
    #[verifier::loop_isolation(false)]
    pub fn is_well_formed(&self) -> (ok: bool)
        ensures
            ok == self@.well_formed(),
        decreases self, 1nat,
    {
        match self {
            Item::Array(items) => {
                let ghost docs = docs_of(items@);
                assert(Doc::Array(docs)->Array_0 == docs);
                proof {
                    lemma_doc_array(*items);
                }
                let mut i: usize = 0;
                while i < items.len()
                    invariant
                        i <= items.len(),
                        forall|j: int| 0 <= j < i ==> (#[trigger] docs[j]).well_formed(),
                    decreases items.len() - i,
                {
                    assert(docs[i as int] == items[i as int]@);
                    if !items[i].is_well_formed() {
                        assert(!Doc::Array(docs).well_formed());
                        return false;
                    }
                    i += 1;
                }
                assert(Doc::Array(docs).well_formed());
                true
            },
            Item::Table(entries) => {
                proof {
                    lemma_doc_table(*entries);
                }
                table_is_well_formed(entries)
            },
            _ => true,
        }
    }
}

/// Whether the keys of a table and of every table in it are unique.
#[verifier::loop_isolation(false)]
pub fn table_is_well_formed(entries: &Table) -> (ok: bool)
    ensures
        ok == Doc::Table(table_of(entries@)).well_formed(),
    decreases entries, 0nat,
{
    let ghost docs = table_of(entries@);
    assert(Doc::Table(docs)->Table_0 == docs);
    if !keys_are_distinct(entries) {
        assert(!unique_keys(docs)) by {
            let (a, b) = choose|a: int, b: int|
                0 <= a < b < entries.len() && (#[trigger] entries[a]).0@ == (#[trigger] entries[b]).0@;
            assert(docs[a].0 == docs[b].0);
        }
        assert(!Doc::Table(docs).well_formed());
        return false;
    }
    assert(unique_keys(docs)) by {
        assert forall|a: int, b: int| 0 <= a < b < docs.len() implies (#[trigger] docs[a]).0 != (
        #[trigger] docs[b]).0 by {
            assert(entries[a].0@ != entries[b].0@);
        }
    }
    let mut i: usize = 0;
    while i < entries.len()
        invariant
            i <= entries.len(),
            forall|j: int| 0 <= j < i ==> (#[trigger] docs[j]).1.well_formed(),
        decreases entries.len() - i,
    {
        assert(docs[i as int] == (entries[i as int].0@, entries[i as int].1@));
        if !entries[i].1.is_well_formed() {
            assert(!Doc::Table(docs).well_formed());
            return false;
        }
        i += 1;
    }
    assert(Doc::Table(docs).well_formed());
    true
}

/// Whether an offset can be written out.
pub fn offset_is_writable(offset: &Offset) -> (ok: bool)
    ensures
        ok == offset_writable(*offset),
{
    match offset {
        Offset::Z => true,
        Offset::Custom { minutes } => *minutes > i16::MIN,
    }
}

/// Whether a datetime can be written out.
pub fn is_writable(datetime: &Datetime) -> (ok: bool)
    ensures
        ok == writable(*datetime),
{
    match &datetime.offset {
        Some(offset) => offset_is_writable(offset),
        None => true,
    }
}

/// Whether a datetime has one of the four shapes.
pub fn datetime_has_shape(dt: &Datetime) -> (ok: bool)
    ensures
        ok == has_shape(*dt),
{
    (dt.date.is_some() || dt.time.is_some()) && (dt.offset.is_none() || (dt.date.is_some()
        && dt.time.is_some()))
}

/// Whether every datetime of a document has one of the four shapes.
#[verifier::loop_isolation(false)]
pub fn all_have_shape(value: &Item) -> (ok: bool)
    ensures
        ok == all_shaped(value@),
    decreases value,
{
    match value {
        Item::Datetime(dt) => datetime_has_shape(dt),
        Item::Array(items) => {
            let ghost docs = docs_of(items@);
            assert(Doc::Array(docs)->Array_0 == docs);
            proof {
                lemma_doc_array(*items);
            }
            let mut i: usize = 0;
            while i < items.len()
                invariant
                    i <= items.len(),
                    forall|j: int| 0 <= j < i ==> all_shaped(#[trigger] docs[j]),
                decreases items.len() - i,
            {
                assert(docs[i as int] == items[i as int]@);
                if !all_have_shape(&items[i]) {
                    assert(!all_shaped(Doc::Array(docs)));
                    return false;
                }
                i += 1;
            }
            assert(all_shaped(Doc::Array(docs)));
            true
        },
        Item::Table(entries) => {
            let ghost docs = table_of(entries@);
            assert(Doc::Table(docs)->Table_0 == docs);
            proof {
                lemma_doc_table(*entries);
            }
            let mut i: usize = 0;
            while i < entries.len()
                invariant
                    i <= entries.len(),
                    forall|j: int| 0 <= j < i ==> all_shaped((#[trigger] docs[j]).1),
                decreases entries.len() - i,
            {
                assert(docs[i as int] == (entries[i as int].0@, entries[i as int].1@));
                if !all_have_shape(&entries[i].1) {
                    assert(!all_shaped(Doc::Table(docs)));
                    return false;
                }
                i += 1;
            }
            assert(all_shaped(Doc::Table(docs)));
            true
        },
        _ => true,
    }
}

/// Whether the type of a value can be told.
pub fn can_type(value: &Item, unwrap: bool) -> (ok: bool)
    ensures
        ok == typable(value@, unwrap),
    decreases value,
{
    match value {
        Item::Datetime(dt) => !unwrap || datetime_has_shape(dt),
        Item::Array(items) => {
            proof {
                lemma_doc_array(*items);
            }
            if items.len() > 0 {
                assert(docs_of(items@)[0] == items[0]@);
                can_type(&items[0], unwrap)
            } else {
                true
            }
        },
        _ => true,
    }
}

/// Whether a table and the tables in it can be defined.
#[verifier::loop_isolation(false)]
pub fn can_define(table: &Table, unwrap: bool) -> (ok: bool)
    ensures
        ok == definable(table_of(table@), unwrap),
    decreases table,
{
    let ghost docs = table_of(table@);
    let mut i: usize = 0;
    while i < table.len()
        invariant
            i <= table.len(),
            forall|j: int|
                0 <= j < i ==> typable((#[trigger] docs[j]).1, unwrap) && match docs[j].1 {
                    Doc::Array(arr) => arr.len() > 0 ==> match arr[0] {
                        Doc::Table(t) => definable(t, unwrap),
                        Doc::Array(_) => false,
                        _ => true,
                    },
                    Doc::Table(tab) => definable(tab, unwrap),
                    _ => true,
                },
        decreases table.len() - i,
    {
        assert(docs[i as int] == (table[i as int].0@, table[i as int].1@));
        if !can_type(&table[i].1, unwrap) {
            assert(!definable(docs, unwrap));
            return false;
        }
        let inner_ok = match &table[i].1 {
            Item::Array(arr) => {
                proof {
                    lemma_doc_array(*arr);
                }
                if arr.len() > 0 {
                    assert(docs_of(arr@)[0] == arr[0]@);
                    match &arr[0] {
                        Item::Table(t) => {
                            proof {
                                lemma_doc_table(*t);
                            }
                            can_define(t, unwrap)
                        },
                        Item::Array(_) => false,
                        _ => true,
                    }
                } else {
                    true
                }
            },
            Item::Table(tab) => {
                proof {
                    lemma_doc_table(*tab);
                }
                can_define(tab, unwrap)
            },
            _ => true,
        };
        if !inner_ok {
            assert(!definable(docs, unwrap));
            return false;
        }
        i += 1;
    }
    assert(definable(docs, unwrap));
    true
}

/// Whether a string occurs in a list.
pub fn contains_string(keys: &Vec<String>, key: &String) -> (found: bool)
    ensures
        found == texts(keys@).contains(key@),
{
    let ghost names = texts(keys@);
    let mut i: usize = 0;
    while i < keys.len()
        invariant
            i <= keys.len(),
            names == texts(keys@),
            forall|j: int| 0 <= j < i ==> names[j] != key@,
        decreases keys.len() - i,
    {
        if keys[i] == *key {
            assert(names[i as int] == key@);
            return true;
        }
        i += 1;
    }
    false
}

/// Whether a document has the kinds of values that a schema expects, so
/// that it can be filled up to the schema.
#[verifier::loop_isolation(false)]
pub fn conforms_to(schema: &TomlValue, value: &Item) -> (ok: bool)
    requires
        schema@.well_formed(),
        value@.well_formed(),
    ensures
        ok == conforms(schema@, value@),
    decreases schema,
{
    match (schema, value) {
        (TomlValue::String, Item::String(_)) => true,
        (TomlValue::Integer, Item::Integer(_)) => true,
        (TomlValue::Float, Item::Float(_)) => true,
        (TomlValue::Boolean, Item::Boolean(_)) => true,
        (TomlValue::Datetime { .. }, Item::Datetime(_)) => true,
        (TomlValue::Array(items), Item::Array(values)) => {
            let ghost schemas = schemas_of(items@);
            let ghost docs = docs_of(values@);
            proof {
                lemma_view_array(*items);
                lemma_doc_array(*values);
                assert(Schema::Array(schemas)->Array_0 == schemas);
                assert(Doc::Array(docs)->Array_0 == docs);
                assert(Schema::Array(schemas).well_formed());
                assert(Doc::Array(docs).well_formed());
            }
            if items.len() == 0 {
                return true;
            }
            assert(schemas[0] == items[0]@);
            assert(schemas[0].well_formed());
            let mut i: usize = 0;
            while i < values.len()
                invariant
                    i <= values.len(),
                    forall|j: int| 0 <= j < i ==> conforms(schemas[0], #[trigger] docs[j]),
                decreases values.len() - i,
            {
                assert(docs[i as int] == values[i as int]@);
                assert(docs[i as int].well_formed());
                if !conforms_to(&items[0], &values[i]) {
                    return false;
                }
                i += 1;
            }
            true
        },
        (TomlValue::Table(entries), Item::Table(map)) => {
            let ghost schemas = entries_of(entries@);
            let ghost docs = table_of(map@);
            proof {
                lemma_view_table(*entries);
                lemma_doc_table(*map);
                assert(Schema::Table(schemas)->Table_0 == schemas);
                assert(Doc::Table(docs)->Table_0 == docs);
                assert(Schema::Table(schemas).well_formed());
                assert(Doc::Table(docs).well_formed());
            }
            let mut i: usize = 0;
            while i < entries.len()
                invariant
                    i <= entries.len(),
                    forall|j: int|
                        0 <= j < i && has_key(docs, (#[trigger] schemas[j]).0) ==> conforms(
                            schemas[j].1,
                            value_of(docs, schemas[j].0),
                        ),
                decreases entries.len() - i,
            {
                assert(schemas[i as int] == (entries[i as int].0@, entries[i as int].1@));
                assert(schemas[i as int].1.well_formed());
                match find_key(map, &entries[i].0) {
                    Some(at) => {
                        assert(docs[at as int] == (map[at as int].0@, map[at as int].1@));
                        assert(docs[at as int].1.well_formed());
                        proof {
                            lemma_key_index(docs, at as int);
                        }
                        if !conforms_to(&entries[i].1, &map[at].1) {
                            return false;
                        }
                    },
                    None => {
                        proof {
                            if has_key(docs, schemas[i as int].0) {
                                let t = key_index(docs, schemas[i as int].0);
                                assert(docs[t].0 == map[t].0@);
                            }
                        }
                    },
                }
                i += 1;
            }
            true
        },
        (TomlValue::TableMap { keys, value_type }, Item::Table(map)) => {
            let ghost docs = table_of(map@);
            proof {
                lemma_doc_table(*map);
                assert(Doc::Table(docs)->Table_0 == docs);
                assert(Doc::Table(docs).well_formed());
            }
            let mut i: usize = 0;
            while i < map.len()
                invariant
                    i <= map.len(),
                    forall|j: int|
                        0 <= j < i && texts(keys@).contains((#[trigger] docs[j]).0) ==> conforms(
                            value_type@,
                            docs[j].1,
                        ),
                decreases map.len() - i,
            {
                assert(docs[i as int] == (map[i as int].0@, map[i as int].1@));
                assert(docs[i as int].1.well_formed());
                if contains_string(keys, &map[i].0) {
                    if !conforms_to(value_type, &map[i].1) {
                        return false;
                    }
                }
                i += 1;
            }
            true
        },
        _ => false,
    }
}

/// Whether a document can be written out along a schema.
#[verifier::loop_isolation(false)]
pub fn instantiable_along(schema: &TomlValue, value: &Item) -> (ok: bool)
    requires
        schema@.well_formed(),
        value@.well_formed(),
    ensures
        ok == instantiable(schema@, value@),
    decreases value,
{
    match value {
        Item::Datetime(dt) => datetime_has_shape(dt),
        Item::Array(values) => {
            let ghost docs = docs_of(values@);
            proof {
                lemma_doc_array(*values);
                assert(Doc::Array(docs)->Array_0 == docs);
                assert(Doc::Array(docs).well_formed());
            }
            match schema {
                TomlValue::Array(arr) => {
                    let ghost schemas = schemas_of(arr@);
                    proof {
                        lemma_view_array(*arr);
                        assert(Schema::Array(schemas)->Array_0 == schemas);
                        assert(Schema::Array(schemas).well_formed());
                    }
                    if values.len() == 0 {
                        return true;
                    }
                    if arr.len() == 0 {
                        return false;
                    }
                    assert(schemas[0] == arr[0]@);
                    assert(schemas[0].well_formed());
                    let mut i: usize = 0;
                    while i < values.len()
                        invariant
                            i <= values.len(),
                            forall|j: int| 0 <= j < i ==> instantiable(schemas[0], #[trigger] docs[j]),
                        decreases values.len() - i,
                    {
                        assert(docs[i as int] == values[i as int]@);
                        assert(docs[i as int].well_formed());
                        if !instantiable_along(&arr[0], &values[i]) {
                            return false;
                        }
                        i += 1;
                    }
                    true
                },
                _ => false,
            }
        },
        Item::Table(map) => {
            let ghost docs = table_of(map@);
            proof {
                lemma_doc_table(*map);
                assert(Doc::Table(docs)->Table_0 == docs);
                assert(Doc::Table(docs).well_formed());
            }
            match schema {
                TomlValue::Table(tab) => {
                    let ghost schemas = entries_of(tab@);
                    proof {
                        lemma_view_table(*tab);
                        assert(Schema::Table(schemas)->Table_0 == schemas);
                        assert(Schema::Table(schemas).well_formed());
                    }
                    let mut i: usize = 0;
                    while i < map.len()
                        invariant
                            i <= map.len(),
                            forall|j: int|
                                0 <= j < i ==> has_key(schemas, (#[trigger] docs[j]).0)
                                    && instantiable(value_of(schemas, docs[j].0), docs[j].1),
                        decreases map.len() - i,
                    {
                        assert(docs[i as int] == (map[i as int].0@, map[i as int].1@));
                        assert(docs[i as int].1.well_formed());
                        match find_key(tab, &map[i].0) {
                            Some(at) => {
                                assert(schemas[at as int] == (tab[at as int].0@, tab[at as int].1@));
                                assert(schemas[at as int].1.well_formed());
                                proof {
                                    lemma_key_index(schemas, at as int);
                                }
                                if !instantiable_along(&tab[at].1, &map[i].1) {
                                    return false;
                                }
                            },
                            None => {
                                proof {
                                    if has_key(schemas, docs[i as int].0) {
                                        let t = key_index(schemas, docs[i as int].0);
                                        assert(schemas[t].0 == tab[t].0@);
                                    }
                                }
                                return false;
                            },
                        }
                        i += 1;
                    }
                    true
                },
                TomlValue::TableMap { keys, value_type } => {
                    let ghost names = texts(keys@);
                    if keys.len() == 0 {
                        return false;
                    }
                    let mut k: usize = 0;
                    while k < keys.len()
                        invariant
                            k <= keys.len(),
                            forall|j: int| 0 <= j < k ==> has_key(docs, #[trigger] names[j]),
                        decreases keys.len() - k,
                    {
                        assert(names[k as int] == keys[k as int]@);
                        match find_key(map, &keys[k]) {
                            Some(at) => {
                                assert(docs[at as int].0 == names[k as int]);
                            },
                            None => {
                                proof {
                                    if has_key(docs, names[k as int]) {
                                        let t = key_index(docs, names[k as int]);
                                        assert(docs[t].0 == map[t].0@);
                                    }
                                }
                                return false;
                            },
                        }
                        k += 1;
                    }
                    let mut i: usize = 0;
                    while i < map.len()
                        invariant
                            i <= map.len(),
                            forall|j: int| 0 <= j < i ==> instantiable(value_type@, (#[trigger] docs[j]).1),
                        decreases map.len() - i,
                    {
                        assert(docs[i as int] == (map[i as int].0@, map[i as int].1@));
                        assert(docs[i as int].1.well_formed());
                        if !instantiable_along(value_type, &map[i].1) {
                            return false;
                        }
                        i += 1;
                    }
                    true
                },
                _ => false,
            }
        },
        _ => true,
    }
}

} // verus!
