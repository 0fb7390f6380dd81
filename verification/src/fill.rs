//! From documents to schemas and back: the schema of a document, the default
//! document of a schema, and filling a document up to a normalized schema.

use vstd::prelude::*;
use vstd::std_specs::convert::FromSpecImpl;
use crate::entries::{
    find_key, has_key, key_index, lemma_key_index, lemma_overlay_all, lemma_overlay_hit,
    lemma_overlay_miss, lemma_overlay_none, only_in, overlay, overlay_prefix, unique_keys,
    value_of,
};
use crate::schema::{
    entries_of, lemma_view_array, lemma_view_table, schemas_of, texts, Schema, TomlValue,
};
use crate::value::{
    clone_table, default_date, default_offset, default_time, docs_of, lemma_doc_array,
    lemma_doc_table, table_of, Date, Datetime, Doc, Offset, Time, Item,
};

verus! {

/// The schema of a document value: what is left when the values are
/// forgotten.
pub open spec fn shape(d: Doc) -> Schema
    decreases d,
{
    match d {
        Doc::Str(_) => Schema::Str,
        Doc::Int(_) => Schema::Int,
        Doc::Float(_) => Schema::Float,
        Doc::Bool(_) => Schema::Bool,
        Doc::Datetime(dt) => Schema::Datetime {
            date: dt.date is Some,
            time: dt.time is Some,
            offset: dt.offset is Some,
        },
        Doc::Array(items) => Schema::Array(
            Seq::new(
                items.len(),
                |i: int|
                    if 0 <= i < items.len() {
                        shape(items[i])
                    } else {
                        Schema::Str
                    },
            ),
        ),
        Doc::Table(entries) => Schema::Table(
            Seq::new(
                entries.len(),
                |i: int|
                    if 0 <= i < entries.len() {
                        (entries[i].0, shape(entries[i].1))
                    } else {
                        (entries[i].0, Schema::Str)
                    },
            ),
        ),
    }
}

/// The schema of a document has unique keys where the document has, and no
/// table maps.
pub proof fn lemma_shape_is_plain(d: Doc)
    ensures
        shape(d).is_plain(),
        d.well_formed() ==> shape(d).well_formed(),
    decreases d,
{
    match d {
        Doc::Array(items) => {
            let shapes = shape(d)->Array_0;
            assert forall|i: int| 0 <= i < shapes.len() implies (#[trigger] shapes[i]).is_plain() && (
            d.well_formed() ==> shapes[i].well_formed()) by {
                lemma_shape_is_plain(items[i]);
            }
        },
        Doc::Table(entries) => {
            let shapes = shape(d)->Table_0;
            assert forall|i: int| 0 <= i < shapes.len() implies (#[trigger] shapes[i]).1.is_plain() && (
            d.well_formed() ==> shapes[i].1.well_formed()) by {
                lemma_shape_is_plain(entries[i].1);
            }
            if d.well_formed() {
                assert forall|i: int, j: int| 0 <= i < j < shapes.len() implies (
                #[trigger] shapes[i]).0 != (#[trigger] shapes[j]).0 by {
                    assert(entries[i].0 != entries[j].0);
                }
            }
        },
        _ => {},
    }
}

impl TomlValue {
    /// The schema of a document value.
    #[verifier::loop_isolation(false)]
    pub fn from_value(value: &Item) -> (schema: TomlValue)
        ensures
            schema@ == shape(value@),
        decreases value,
    {
        match value {
            Item::String(_) => TomlValue::String,
            Item::Integer(_) => TomlValue::Integer,
            Item::Float(_) => TomlValue::Float,
            Item::Boolean(_) => TomlValue::Boolean,
            Item::Datetime(datetime) => TomlValue::Datetime {
                date: datetime.date.is_some(),
                time: datetime.time.is_some(),
                offset: datetime.offset.is_some(),
            },
            Item::Array(values) => {
                let mut shapes: Vec<TomlValue> = Vec::new();
                let mut i: usize = 0;
                while i < values.len()
                    invariant
                        i <= values.len(),
                        shapes.len() == i,
                        forall|j: int| 0 <= j < i ==> (#[trigger] shapes[j])@ == shape(values[j]@),
                    decreases values.len() - i,
                {
                    shapes.push(TomlValue::from_value(&values[i]));
                    i += 1;
                }
                proof {
                    lemma_doc_array(*values);
                    lemma_view_array(shapes);
                    assert(schemas_of(shapes@) =~= shape(value@)->Array_0);
                }
                TomlValue::Array(shapes)
            },
            Item::Table(map) => {
                proof {
                    lemma_doc_table(*map);
                }
                TomlValue::from_table(map)
            },
        }
    }

    /// The schema of a table.
    #[verifier::loop_isolation(false)]
    pub fn from_table(map: &Vec<(String, Item)>) -> (schema: TomlValue)
        ensures
            schema@ == shape(Doc::Table(table_of(map@))),
        decreases map,
    {
        let mut shapes: Vec<(String, TomlValue)> = Vec::new();
        let mut i: usize = 0;
        while i < map.len()
            invariant
                i <= map.len(),
                shapes.len() == i,
                forall|j: int|
                    0 <= j < i ==> (#[trigger] shapes[j]).0@ == map[j].0@ && shapes[j].1@ == shape(
                        map[j].1@,
                    ),
            decreases map.len() - i,
        {
            shapes.push((map[i].0.clone(), TomlValue::from_value(&map[i].1)));
            i += 1;
        }
        proof {
            lemma_view_table(shapes);
            assert(entries_of(shapes@) =~= shape(Doc::Table(table_of(map@)))->Table_0);
        }
        TomlValue::Table(shapes)
    }
}

impl From<Item> for TomlValue {
    fn from(value: Item) -> (schema: Self)
        ensures
            schema@ == shape(value@),
    {
        TomlValue::from_value(&value)
    }
}

impl FromSpecImpl<Item> for TomlValue {
    open spec fn obeys_from_spec() -> bool {
        false
    }

    open spec fn from_spec(value: Item) -> Self {
        arbitrary()
    }
}

impl From<Vec<(String, Item)>> for TomlValue {
    fn from(value: Vec<(String, Item)>) -> (schema: Self)
        ensures
            schema@ == shape(Doc::Table(table_of(value@))),
    {
        TomlValue::from_table(&value)
    }
}

impl FromSpecImpl<Vec<(String, Item)>> for TomlValue {
    open spec fn obeys_from_spec() -> bool {
        false
    }

    open spec fn from_spec(value: Vec<(String, Item)>) -> Self {
        arbitrary()
    }
}

impl From<TomlValue> for Item {
    fn from(value: TomlValue) -> (item: Self)
        ensures
            item@ == initial(value@),
    {
        value.default_value()
    }
}

impl FromSpecImpl<TomlValue> for Item {
    open spec fn obeys_from_spec() -> bool {
        false
    }

    open spec fn from_spec(value: TomlValue) -> Self {
        arbitrary()
    }
}

/// The document that a schema describes when nothing is known of its values:
/// empty strings, zeros, `false`, the default date, time and offset for the
/// components that a datetime has, and tables of such values.
pub open spec fn initial(s: Schema) -> Doc
    decreases s,
{
    match s {
        Schema::Str => Doc::Str(Seq::empty()),
        Schema::Int => Doc::Int(0),
        Schema::Float => Doc::Float(0),
        Schema::Bool => Doc::Bool(false),
        Schema::Datetime { date, time, offset } => Doc::Datetime(
            Datetime {
                date: if date {
                    Some(default_date())
                } else {
                    None
                },
                time: if time {
                    Some(default_time())
                } else {
                    None
                },
                offset: if offset {
                    Some(default_offset())
                } else {
                    None
                },
            },
        ),
        Schema::Array(items) => Doc::Array(
            Seq::new(
                items.len(),
                |i: int|
                    if 0 <= i < items.len() {
                        initial(items[i])
                    } else {
                        Doc::Bool(false)
                    },
            ),
        ),
        Schema::Table(entries) => Doc::Table(
            Seq::new(
                entries.len(),
                |i: int|
                    if 0 <= i < entries.len() {
                        (entries[i].0, initial(entries[i].1))
                    } else {
                        (entries[i].0, Doc::Bool(false))
                    },
            ),
        ),
        Schema::TableMap { keys, shared } => Doc::Table(
            Seq::new(keys.len(), |i: int| (keys[i], initial(*shared))),
        ),
    }
}

impl TomlValue {
    /// The document of default values that has this schema.
    #[verifier::loop_isolation(false)]
    pub fn default_value(&self) -> (value: Item)
        ensures
            value@ == initial(self@),
        decreases self,
    {
        match self {
            TomlValue::String => Item::String(String::new()),
            TomlValue::Integer => Item::Integer(0),
            TomlValue::Float => Item::Float(0),
            TomlValue::Boolean => Item::Boolean(false),
            TomlValue::Datetime { date, time, offset } => Item::Datetime(
                Datetime {
                    date: if *date {
                        Some(Date { year: 1970, month: 1, day: 1 })
                    } else {
                        None
                    },
                    time: if *time {
                        Some(Time { hour: 0, minute: 0, second: 0, nanosecond: 0 })
                    } else {
                        None
                    },
                    offset: if *offset {
                        Some(Offset::Z)
                    } else {
                        None
                    },
                },
            ),
            TomlValue::Array(elements) => {
                let mut values: Vec<Item> = Vec::new();
                let mut i: usize = 0;
                while i < elements.len()
                    invariant
                        i <= elements.len(),
                        values.len() == i,
                        forall|j: int| 0 <= j < i ==> (#[trigger] values[j])@ == initial(elements[j]@),
                    decreases elements.len() - i,
                {
                    values.push(elements[i].default_value());
                    i += 1;
                }
                proof {
                    lemma_view_array(*elements);
                    lemma_doc_array(values);
                    assert(docs_of(values@) =~= initial(self@)->Array_0);
                }
                Item::Array(values)
            },
            TomlValue::Table(sub_table) => {
                let mut values: Vec<(String, Item)> = Vec::new();
                let mut i: usize = 0;
                while i < sub_table.len()
                    invariant
                        i <= sub_table.len(),
                        values.len() == i,
                        forall|j: int|
                            0 <= j < i ==> (#[trigger] values[j]).0@ == sub_table[j].0@
                                && values[j].1@ == initial(sub_table[j].1@),
                    decreases sub_table.len() - i,
                {
                    values.push((sub_table[i].0.clone(), sub_table[i].1.default_value()));
                    i += 1;
                }
                proof {
                    lemma_view_table(*sub_table);
                    lemma_doc_table(values);
                    assert(table_of(values@) =~= initial(self@)->Table_0);
                }
                Item::Table(values)
            },
            TomlValue::TableMap { keys, value_type } => {
                let mut values: Vec<(String, Item)> = Vec::new();
                let mut i: usize = 0;
                while i < keys.len()
                    invariant
                        i <= keys.len(),
                        values.len() == i,
                        forall|j: int|
                            0 <= j < i ==> (#[trigger] values[j]).0@ == keys[j]@ && values[j].1@
                                == initial(value_type@),
                    decreases keys.len() - i,
                {
                    values.push((keys[i].clone(), value_type.default_value()));
                    i += 1;
                }
                proof {
                    lemma_doc_table(values);
                    assert(table_of(values@) =~= initial(self@)->Table_0);
                }
                Item::Table(values)
            },
        }
    }
}

/// Whether a document has the kinds of values that a schema expects where
/// the two meet: scalars and datetimes of the same kind, every element of an
/// array like the array's element schema, and under each key that both a
/// table of the schema and the table of the document have a value that
/// conforms.
pub open spec fn conforms(s: Schema, d: Doc) -> bool
    decreases s,
{
    match (s, d) {
        (Schema::Str, Doc::Str(_)) => true,
        (Schema::Int, Doc::Int(_)) => true,
        (Schema::Float, Doc::Float(_)) => true,
        (Schema::Bool, Doc::Bool(_)) => true,
        (Schema::Datetime { .. }, Doc::Datetime(_)) => true,
        (Schema::Array(items), Doc::Array(values)) => items.len() == 0 || forall|i: int|
            0 <= i < values.len() ==> conforms(items[0], #[trigger] values[i]),
        (Schema::Table(entries), Doc::Table(map)) => forall|i: int|
            0 <= i < entries.len() && has_key(map, (#[trigger] entries[i]).0) ==> conforms(
                entries[i].1,
                value_of(map, entries[i].0),
            ),
        (Schema::TableMap { keys, shared }, Doc::Table(map)) => forall|i: int|
            0 <= i < map.len() && keys.contains((#[trigger] map[i]).0) ==> conforms(
                *shared,
                map[i].1,
            ),
        _ => false,
    }
}

/// The value that a missing key is given: an empty array for an array, else
/// the default document of the schema.
pub open spec fn fresh_value(s: Schema) -> Doc {
    match s {
        Schema::Array(_) => Doc::Array(Seq::empty()),
        _ => initial(s),
    }
}

/// The keys of a table map, each with the shared schema.
pub open spec fn keyed(keys: Seq<Seq<char>>, shared: Schema) -> Seq<(Seq<char>, Schema)> {
    Seq::new(keys.len(), |i: int| (keys[i], shared))
}

/// The document filled up to the schema.
///
/// A datetime is given the default for each component that the schema has
/// and it lacks.  Every element of an array is filled up to the array's
/// element schema.  In a table, the value under each key of the schema is
/// filled up to the schema's value, and each key of the schema that the
/// table lacks is appended, in the schema's order, with a fresh value.
/// Everything else is left as it is.
pub open spec fn filled(s: Schema, d: Doc) -> Doc
    decreases s, 0nat,
{
    match (s, d) {
        (Schema::Datetime { date, time, offset }, Doc::Datetime(dt)) => Doc::Datetime(
            Datetime {
                date: if date && dt.date is None {
                    Some(default_date())
                } else {
                    dt.date
                },
                time: if time && dt.time is None {
                    Some(default_time())
                } else {
                    dt.time
                },
                offset: if offset && dt.offset is None {
                    Some(default_offset())
                } else {
                    dt.offset
                },
            },
        ),
        (Schema::Array(items), Doc::Array(values)) => {
            if items.len() > 0 {
                Doc::Array(Seq::new(values.len(), |i: int| filled(items[0], values[i])))
            } else {
                d
            }
        },
        (Schema::Table(entries), Doc::Table(map)) => Doc::Table(
            Seq::new(
                map.len(),
                |i: int|
                    if has_key(entries, map[i].0) {
                        (map[i].0, filled(value_of(entries, map[i].0), map[i].1))
                    } else {
                        map[i]
                    },
            ) + Seq::new(
                only_in(entries, map).len(),
                |i: int| (only_in(entries, map)[i].0, fresh_value(only_in(entries, map)[i].1)),
            ),
        ),
        (Schema::TableMap { keys, shared }, Doc::Table(map)) => Doc::Table(
            Seq::new(
                map.len(),
                |i: int|
                    if has_key(keyed(keys, *shared), map[i].0) {
                        (map[i].0, filled(*shared, map[i].1))
                    } else {
                        map[i]
                    },
            ) + Seq::new(
                only_in(keyed(keys, *shared), map).len(),
                |i: int|
                    (
                        only_in(keyed(keys, *shared), map)[i].0,
                        fresh_value(only_in(keyed(keys, *shared), map)[i].1),
                    ),
            ),
        ),
        _ => d,
    }
}

/// `filled` as a function value, the document first.
pub open spec fn fill_values() -> spec_fn(Doc, Schema) -> Doc {
    |d: Doc, s: Schema| filled(s, d)
}

/// `fresh_value` as a function value.
pub open spec fn fresh_values() -> spec_fn(Schema) -> Doc {
    |s: Schema| fresh_value(s)
}

/// Filling a table is the overlay of the schema's entries on it.
pub proof fn lemma_filled_table(entries: Seq<(Seq<char>, Schema)>, map: Seq<(Seq<char>, Doc)>)
    ensures
        filled(Schema::Table(entries), Doc::Table(map)) == Doc::Table(
            overlay(map, entries, fill_values(), fresh_values()),
        ),
{
    assert(filled(Schema::Table(entries), Doc::Table(map))->Table_0 =~= overlay(
        map,
        entries,
        fill_values(),
        fresh_values(),
    ));
}

/// Filling a table up to a table map is the overlay of the keys, each with
/// the shared schema, on it.
pub proof fn lemma_filled_map(keys: Seq<Seq<char>>, shared: Schema, map: Seq<(Seq<char>, Doc)>)
    ensures
        filled(Schema::TableMap { keys, shared: Box::new(shared) }, Doc::Table(map)) == Doc::Table(
            overlay(map, keyed(keys, shared), fill_values(), fresh_values()),
        ),
{
    let ys = keyed(keys, shared);
    assert forall|i: int| 0 <= i < map.len() && has_key(ys, map[i].0) implies value_of(ys, map[i].0)
        == shared by {
        let t = key_index(ys, map[i].0);
        assert(ys[t].1 == shared);
    }
    assert(filled(Schema::TableMap { keys, shared: Box::new(shared) }, Doc::Table(map))->Table_0
        =~= overlay(map, ys, fill_values(), fresh_values()));
}

impl TomlValue {
    /// The value that a key of the schema is given in a table that lacks it.
    pub fn fresh(&self) -> (value: Item)
        ensures
            value@ == fresh_value(self@),
    {
        match self {
            // for missing keys that point to arrays, we initialize them as empty arrays
            TomlValue::Array(_) => {
                let empty: Vec<Item> = Vec::new();
                proof {
                    lemma_doc_array(empty);
                    assert(docs_of(empty@) =~= Seq::empty());
                }
                Item::Array(empty)
            },
            other => other.default_value(),
        }
    }

    /// Fills a document up to this schema.
    ///
    /// This method assumes that [TomlValue::normalize] is already called.
    pub fn normalize_toml(&self, toml: &mut Item)
        requires
            self@.well_formed(),
            old(toml)@.well_formed(),
            conforms(self@, old(toml)@),
        ensures
            final(toml)@ == filled(self@, old(toml)@),
    {
        let value = self.filled(toml);
        *toml = value;
    }

    /// The document filled up to this schema.
    #[verifier::loop_isolation(false)]
    pub fn filled(&self, toml: &Item) -> (value: Item)
        requires
            self@.well_formed(),
            toml@.well_formed(),
            conforms(self@, toml@),
        ensures
            value@ == filled(self@, toml@),
        decreases self,
    {
        match (self, toml) {
            (
                TomlValue::Datetime { date: tv_date, time: tv_time, offset: tv_offset },
                Item::Datetime(datetime),
            ) => {
                let date = if *tv_date && datetime.date.is_none() {
                    Some(Date { year: 1970, month: 1, day: 1 })
                } else {
                    datetime.date
                };
                let time = if *tv_time && datetime.time.is_none() {
                    Some(Time { hour: 0, minute: 0, second: 0, nanosecond: 0 })
                } else {
                    datetime.time
                };
                let offset = if *tv_offset && datetime.offset.is_none() {
                    Some(Offset::Z)
                } else {
                    datetime.offset
                };
                Item::Datetime(Datetime { date, time, offset })
            },
            (TomlValue::Array(toml_values), Item::Array(values)) => {
                proof {
                    lemma_view_array(*toml_values);
                    lemma_doc_array(*values);
                    assert(Schema::Array(schemas_of(toml_values@)).well_formed());
                    assert(Doc::Array(docs_of(values@)).well_formed());
                }
                if toml_values.len() == 0 {
                    return toml.clone();
                }
                let ghost first = schemas_of(toml_values@)[0];
                assert(first == toml_values[0]@);
                let mut done: Vec<Item> = Vec::new();
                let mut i: usize = 0;
                while i < values.len()
                    invariant
                        i <= values.len(),
                        done.len() == i,
                        forall|j: int| 0 <= j < i ==> (#[trigger] done[j])@ == filled(first, values[j]@),
                    decreases values.len() - i,
                {
                    assert(docs_of(values@)[i as int] == values[i as int]@);
                    assert(docs_of(values@)[i as int].well_formed());
                    assert(conforms(first, docs_of(values@)[i as int]));
                    done.push(toml_values[0].filled(&values[i]));
                    i += 1;
                }
                proof {
                    lemma_doc_array(done);
                    assert(docs_of(done@) =~= filled(self@, toml@)->Array_0);
                }
                Item::Array(done)
            },
            (TomlValue::Table(hash_map), Item::Table(map)) => {
                let ghost xs = table_of(map@);
                let ghost ys = entries_of(hash_map@);
                proof {
                    lemma_view_table(*hash_map);
                    lemma_doc_table(*map);
                    assert(Schema::Table(ys).well_formed());
                    assert(Doc::Table(xs).well_formed());
                    lemma_overlay_none(xs, ys, fill_values(), fresh_values());
                }
                let mut done = clone_table(map);
                let mut j: usize = 0;
                while j < hash_map.len()
                    invariant
                        j <= hash_map.len(),
                        table_of(done@) == overlay_prefix(
                            xs,
                            ys,
                            j as int,
                            fill_values(),
                            fresh_values(),
                        ),
                    decreases hash_map.len() - j,
                {
                    let key = &hash_map[j].0;
                    let value = &hash_map[j].1;
                    let ghost before = table_of(done@);
                    assert(ys[j as int] == (key@, value@));
                    assert(ys[j as int].1.well_formed());
                    match find_key(map, key) {
                        Some(at) => {
                            assert(xs[at as int] == (map[at as int].0@, map[at as int].1@));
                            assert(xs[at as int].1.well_formed());
                            proof {
                                lemma_key_index(xs, at as int);
                                lemma_overlay_hit(
                                    xs,
                                    ys,
                                    j as int,
                                    at as int,
                                    fill_values(),
                                    fresh_values(),
                                );
                            }
                            let replacement = value.filled(&map[at].1);
                            done[at] = (map[at].0.clone(), replacement);
                            assert(table_of(done@) =~= before.update(
                                at as int,
                                (xs[at as int].0, filled(ys[j as int].1, xs[at as int].1)),
                            ));
                        },
                        None => {
                            proof {
                                assert(!has_key(xs, ys[j as int].0)) by {
                                    if has_key(xs, ys[j as int].0) {
                                        let t = key_index(xs, ys[j as int].0);
                                        assert(xs[t].0 == map[t].0@);
                                    }
                                }
                                lemma_overlay_miss(xs, ys, j as int, fill_values(), fresh_values());
                            }
                            done.push((key.clone(), value.fresh()));
                            assert(table_of(done@) =~= before.push(
                                (ys[j as int].0, fresh_value(ys[j as int].1)),
                            ));
                        },
                    }
                    j += 1;
                }
                proof {
                    lemma_overlay_all(xs, ys, fill_values(), fresh_values());
                    lemma_filled_table(ys, xs);
                    lemma_doc_table(done);
                }
                Item::Table(done)
            },
            (TomlValue::TableMap { keys, value_type }, Item::Table(map)) => {
                let ghost xs = table_of(map@);
                let ghost ys = keyed(texts(keys@), value_type@);
                proof {
                    lemma_doc_table(*map);
                    assert(Doc::Table(xs).well_formed());
                    assert(unique_keys(ys)) by {
                        assert forall|i: int, j: int| 0 <= i < j < ys.len() implies (
                        #[trigger] ys[i]).0 != (#[trigger] ys[j]).0 by {
                            assert(texts(keys@)[i] != texts(keys@)[j]);
                        }
                    }
                    lemma_overlay_none(xs, ys, fill_values(), fresh_values());
                }
                let mut done = clone_table(map);
                let mut j: usize = 0;
                while j < keys.len()
                    invariant
                        j <= keys.len(),
                        table_of(done@) == overlay_prefix(
                            xs,
                            ys,
                            j as int,
                            fill_values(),
                            fresh_values(),
                        ),
                    decreases keys.len() - j,
                {
                    let key = &keys[j];
                    let ghost before = table_of(done@);
                    assert(ys[j as int] == (key@, value_type@));
                    match find_key(map, key) {
                        Some(at) => {
                            assert(xs[at as int] == (map[at as int].0@, map[at as int].1@));
                            assert(xs[at as int].1.well_formed());
                            assert(texts(keys@)[j as int] == xs[at as int].0);
                            assert(texts(keys@).contains(xs[at as int].0));
                            proof {
                                lemma_key_index(xs, at as int);
                                lemma_overlay_hit(
                                    xs,
                                    ys,
                                    j as int,
                                    at as int,
                                    fill_values(),
                                    fresh_values(),
                                );
                            }
                            let replacement = value_type.filled(&map[at].1);
                            done[at] = (map[at].0.clone(), replacement);
                            assert(table_of(done@) =~= before.update(
                                at as int,
                                (xs[at as int].0, filled(ys[j as int].1, xs[at as int].1)),
                            ));
                        },
                        None => {
                            proof {
                                assert(!has_key(xs, ys[j as int].0)) by {
                                    if has_key(xs, ys[j as int].0) {
                                        let t = key_index(xs, ys[j as int].0);
                                        assert(xs[t].0 == map[t].0@);
                                    }
                                }
                                lemma_overlay_miss(xs, ys, j as int, fill_values(), fresh_values());
                            }
                            done.push((key.clone(), value_type.fresh()));
                            assert(table_of(done@) =~= before.push(
                                (ys[j as int].0, fresh_value(ys[j as int].1)),
                            ));
                        },
                    }
                    j += 1;
                }
                proof {
                    lemma_overlay_all(xs, ys, fill_values(), fresh_values());
                    lemma_filled_map(texts(keys@), value_type@, xs);
                    lemma_doc_table(done);
                }
                Item::Table(done)
            },
            (_, other) => other.clone(),
        }
    }
}

} // verus!
