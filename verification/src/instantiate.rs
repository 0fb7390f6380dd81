//! The constant value tree: a document written out as literals of the record
//! types of its schema.

use vstd::prelude::*;
use vstd::string::*;
use crate::entries::{find_key, has_key, key_index, lemma_key_index, value_of};
use crate::ident::{module_ident, to_module_ident, to_type_ident, type_ident};
use crate::schema::{
    clone_strings, entries_of, lemma_view_array, lemma_view_table, schemas_of, texts, Schema,
    TomlValue,
};
use crate::typedef::DatetimeKind;
use crate::value::{
    docs_of, lemma_doc_array, lemma_doc_table, table_of, Datetime, Doc, Item, Table,
};

verus! {

/// The mathematical model of a literal.
pub enum LiteralModel {
    Str(Seq<char>),
    Int(i64),
    Float(u64),
    Bool(bool),
    Datetime(DatetimeKind, Datetime),
    Array(Seq<LiteralModel>),
    Struct { path: Seq<Seq<char>>, name: Seq<char>, fields: Seq<(Seq<char>, LiteralModel)> },
    Record {
        path: Seq<Seq<char>>,
        name: Seq<char>,
        args: Seq<LiteralModel>,
        map: Option<Seq<(Seq<char>, LiteralModel)>>,
    },
}

/// A literal expression.
#[derive(Debug)]
pub enum Literal {
    Str(String),
    Int(i64),
    /// A 64-bit float, by its IEEE 754 bit pattern
    Float(u64),
    Bool(bool),
    /// A datetime record of the given shape
    Datetime(DatetimeKind, Datetime),
    /// A slice of literals
    Array(Vec<Literal>),
    /// A record written out field by field: the modules that lead to its
    /// type, the name of the type, and each field with its value
    Struct { path: Vec<String>, name: String, fields: Vec<(String, Literal)> },
    /// The construction of a record: the modules that lead to its type, the
    /// name of the type, the arguments in the order of the fields and, for a
    /// table map, the entries of its lookup
    Record { path: Vec<String>, name: String, args: Vec<Literal>, map: Option<Vec<(String, Literal)>> },
}

/// The literal that a `Literal` stands for.
pub open spec fn literal_of(l: Literal) -> LiteralModel
    decreases l,
{
    match l {
        Literal::Str(s) => LiteralModel::Str(s@),
        Literal::Int(i) => LiteralModel::Int(i),
        Literal::Float(bits) => LiteralModel::Float(bits),
        Literal::Bool(b) => LiteralModel::Bool(b),
        Literal::Datetime(kind, dt) => LiteralModel::Datetime(kind, dt),
        Literal::Array(items) => LiteralModel::Array(
            Seq::new(
                items.len() as nat,
                |i: int|
                    if 0 <= i < items.len() {
                        literal_of(items[i])
                    } else {
                        arbitrary()
                    },
            ),
        ),
        Literal::Struct { path, name, fields } => LiteralModel::Struct {
            path: texts(path@),
            name: name@,
            fields: Seq::new(
                fields.len() as nat,
                |i: int|
                    if 0 <= i < fields.len() {
                        (fields[i].0@, literal_of(fields[i].1))
                    } else {
                        arbitrary()
                    },
            ),
        },
        Literal::Record { path, name, args, map } => LiteralModel::Record {
            path: texts(path@),
            name: name@,
            args: Seq::new(
                args.len() as nat,
                |i: int|
                    if 0 <= i < args.len() {
                        literal_of(args[i])
                    } else {
                        arbitrary()
                    },
            ),
            map: match map {
                Some(pairs) => Some(
                    Seq::new(
                        pairs.len() as nat,
                        |i: int|
                            if 0 <= i < pairs.len() {
                                (pairs[i].0@, literal_of(pairs[i].1))
                            } else {
                                arbitrary()
                            },
                    ),
                ),
                None => None,
            },
        },
    }
}

impl View for Literal {
    type V = LiteralModel;

    open spec fn view(&self) -> LiteralModel {
        literal_of(*self)
    }
}

/// The literals that a list of `Literal`s stands for.
pub open spec fn literals_of(items: Seq<Literal>) -> Seq<LiteralModel> {
    Seq::new(items.len(), |i: int| items[i]@)
}

/// The entries of a lookup, each key by its text.
pub open spec fn pairs_of(pairs: Seq<(String, Literal)>) -> Seq<(Seq<char>, LiteralModel)> {
    Seq::new(pairs.len(), |i: int| (pairs[i].0@, pairs[i].1@))
}

/// An array of literals stands for the array of what they stand for.
pub proof fn lemma_literal_array(items: Vec<Literal>)
    ensures
        Literal::Array(items)@ == LiteralModel::Array(literals_of(items@)),
{
    assert(Literal::Array(items)@->Array_0 =~= literals_of(items@));
}

/// A record written out field by field stands for the record of what its
/// fields stand for.
pub proof fn lemma_literal_struct(path: Vec<String>, name: String, fields: Vec<(String, Literal)>)
    ensures
        (Literal::Struct { path, name, fields })@ == (LiteralModel::Struct {
            path: texts(path@),
            name: name@,
            fields: pairs_of(fields@),
        }),
{
    let l = Literal::Struct { path, name, fields };
    assert(l@->Struct_fields =~= pairs_of(fields@));
}

/// The construction of a record stands for the construction from what its
/// arguments and the entries of its lookup stand for.
pub proof fn lemma_literal_record(
    path: Vec<String>,
    name: String,
    args: Vec<Literal>,
    map: Option<Vec<(String, Literal)>>,
)
    ensures
        (Literal::Record { path, name, args, map })@ == (LiteralModel::Record {
            path: texts(path@),
            name: name@,
            args: literals_of(args@),
            map: match map {
                Some(pairs) => Some(pairs_of(pairs@)),
                None => None,
            },
        }),
{
    let l = Literal::Record { path, name, args, map };
    assert(l@->Record_args =~= literals_of(args@));
    if let Some(pairs) = map {
        assert(l@->Record_map->Some_0 =~= pairs_of(pairs@));
    }
}

/// Whether a datetime has one of the four shapes: with an offset it has a
/// date and a time, and it has a date or a time.
pub open spec fn has_shape(dt: Datetime) -> bool {
    (dt.date is Some || dt.time is Some) && (dt.offset is Some ==> dt.date is Some && dt.time is Some)
}

/// The shape of a datetime.
pub open spec fn kind_of(dt: Datetime) -> DatetimeKind {
    if dt.offset is Some {
        DatetimeKind::OffsetDateTime
    } else if dt.date is Some && dt.time is Some {
        DatetimeKind::LocalDateTime
    } else if dt.date is Some {
        DatetimeKind::LocalDate
    } else {
        DatetimeKind::LocalTime
    }
}

/// Whether a document can be written out along a schema: every datetime has
/// one of the four shapes, an array whose schema is an array has an element
/// schema if it has elements, a table whose schema is a table has only keys
/// of that table, and a table whose schema is a table map has all its keys.
pub open spec fn instantiable(s: Schema, d: Doc) -> bool
    decreases d,
{
    match d {
        Doc::Datetime(dt) => has_shape(dt),
        Doc::Array(values) => match s {
            Schema::Array(arr) => values.len() > 0 ==> arr.len() > 0 && forall|i: int|
                0 <= i < values.len() ==> instantiable(arr[0], #[trigger] values[i]),
            _ => false,
        },
        Doc::Table(map) => match s {
            Schema::Table(tab) => forall|i: int|
                0 <= i < map.len() ==> has_key(tab, (#[trigger] map[i]).0) && instantiable(
                    value_of(tab, map[i].0),
                    map[i].1,
                ),
            Schema::TableMap { keys, shared } => {
                &&& keys.len() > 0
                &&& forall|i: int| 0 <= i < keys.len() ==> has_key(map, #[trigger] keys[i])
                &&& forall|i: int| 0 <= i < map.len() ==> instantiable(*shared, (#[trigger] map[i]).1)
            },
            _ => false,
        },
        _ => true,
    }
}

/// The literal of a document value that stands under `key`, along its
/// schema, in the modules `parents`.
///
/// A scalar is its own literal and a datetime the record of its shape.  An
/// array is the slice of the literals of its elements, each along the element
/// schema.  A table is the construction of the record named after the key:
/// along a table, with the literal of each value along the schema of its key;
/// along a table map, with the literal of each value along the shared schema
/// under the first key, and with the lookup from each key to the literal of
/// its value.  The values of a table stand in the module named after the
/// key.
pub open spec fn instance(d: Doc, key: Seq<char>, s: Schema, parents: Seq<Seq<char>>) -> LiteralModel
    decreases d, 0nat,
{
    match d {
        Doc::Str(v) => LiteralModel::Str(v),
        Doc::Int(v) => LiteralModel::Int(v),
        Doc::Float(v) => LiteralModel::Float(v),
        Doc::Bool(v) => LiteralModel::Bool(v),
        Doc::Datetime(dt) => LiteralModel::Datetime(kind_of(dt), dt),
        Doc::Array(values) => match s {
            Schema::Array(arr) => LiteralModel::Array(
                Seq::new(
                    values.len(),
                    |i: int|
                        if 0 <= i < values.len() && arr.len() > 0 {
                            instance(values[i], key, arr[0], parents)
                        } else {
                            arbitrary()
                        },
                ),
            ),
            _ => arbitrary(),
        },
        Doc::Table(map) => match s {
            Schema::Table(tab) => LiteralModel::Record {
                path: parents,
                name: type_ident(key),
                args: Seq::new(
                    map.len(),
                    |i: int|
                        if 0 <= i < map.len() {
                            instance(
                                map[i].1,
                                map[i].0,
                                value_of(tab, map[i].0),
                                parents.push(module_ident(key)),
                            )
                        } else {
                            arbitrary()
                        },
                ),
                map: None,
            },
            Schema::TableMap { keys, shared } => LiteralModel::Record {
                path: parents,
                name: type_ident(key),
                args: Seq::new(
                    map.len(),
                    |i: int|
                        if 0 <= i < map.len() {
                            instance(map[i].1, keys[0], *shared, parents.push(module_ident(key)))
                        } else {
                            arbitrary()
                        },
                ),
                map: Some(
                    Seq::new(
                        keys.len(),
                        |i: int|
                            if has_key(map, keys[i]) {
                                (
                                    keys[i],
                                    instance(
                                        value_of(map, keys[i]),
                                        keys[0],
                                        *shared,
                                        parents.push(module_ident(key)),
                                    ),
                                )
                            } else {
                                arbitrary()
                            },
                    ),
                ),
            },
            _ => arbitrary(),
        },
    }
}

/// The literal of a datetime: the record of its shape.
pub fn instantiate_datetime(datetime: &Datetime) -> (literal: Literal)
    requires
        has_shape(*datetime),
    ensures
        literal@ == LiteralModel::Datetime(kind_of(*datetime), *datetime),
{
    let kind = match (datetime.date, datetime.time, datetime.offset) {
        (Some(_), Some(_), Some(_)) => DatetimeKind::OffsetDateTime,
        (Some(_), Some(_), None) => DatetimeKind::LocalDateTime,
        (Some(_), None, None) => DatetimeKind::LocalDate,
        (_, _, _) => DatetimeKind::LocalTime,
    };
    Literal::Datetime(kind, *datetime)
}

impl Item {
    /// Generate the instantiation of an item along its schema.
    #[verifier::loop_isolation(false)]
    pub fn instantiate(&self, key: &str, toml_value: &TomlValue, parents: &Vec<String>) -> (literal:
        Literal)
        requires
            self@.well_formed(),
            toml_value@.well_formed(),
            instantiable(toml_value@, self@),
        ensures
            literal@ == instance(self@, key@, toml_value@, texts(parents@)),
        decreases self, 1nat,
    {
        match self {
            // cases when items are instantiated as fields in an array
            Item::String(val) => Literal::Str(val.clone()),
            Item::Integer(val) => Literal::Int(*val),
            Item::Float(val) => Literal::Float(*val),
            Item::Boolean(val) => Literal::Bool(*val),
            // items with inner impls
            Item::Datetime(datetime) => instantiate_datetime(datetime),
            Item::Array(values) => {
                proof {
                    lemma_doc_array(*values);
                }
                instantiate_array(values, key, toml_value, parents)
            },
            Item::Table(map) => {
                proof {
                    lemma_doc_table(*map);
                }
                instantiate_table(map, key, toml_value, parents)
            },
        }
    }
}

/// Generate the instantiation of an array along its schema.
#[verifier::loop_isolation(false)]
pub fn instantiate_array(values: &Vec<Item>, key: &str, toml_value: &TomlValue, parents: &Vec<String>) -> (literal:
    Literal)
    requires
        Doc::Array(docs_of(values@)).well_formed(),
        toml_value@.well_formed(),
        instantiable(toml_value@, Doc::Array(docs_of(values@))),
    ensures
        literal@ == instance(Doc::Array(docs_of(values@)), key@, toml_value@, texts(parents@)),
    decreases values, 0nat,
{
    let ghost docs = docs_of(values@);
    match toml_value {
        TomlValue::Array(arr) => {
            proof {
                lemma_view_array(*arr);
                assert(Schema::Array(schemas_of(arr@)).well_formed());
            }
            let mut elements: Vec<Literal> = Vec::new();
            let mut i: usize = 0;
            while i < values.len()
                invariant
                    i <= values.len(),
                    elements.len() == i,
                    forall|j: int|
                        0 <= j < i ==> (#[trigger] elements[j])@ == instance(
                            docs[j],
                            key@,
                            schemas_of(arr@)[0],
                            texts(parents@),
                        ),
                decreases values.len() - i,
            {
                assert(docs[i as int] == values[i as int]@);
                assert(docs[i as int].well_formed());
                assert(instantiable(schemas_of(arr@)[0], docs[i as int]));
                assert(schemas_of(arr@)[0] == arr[0]@);
                assert(schemas_of(arr@)[0].well_formed());
                elements.push(values[i].instantiate(key, &arr[0], parents));
                i += 1;
            }
            proof {
                lemma_literal_array(elements);
                assert(literals_of(elements@) =~= instance(
                    Doc::Array(docs),
                    key@,
                    toml_value@,
                    texts(parents@),
                )->Array_0);
            }
            Literal::Array(elements)
        },
        _ => {
            proof {
                assert(false);
            }
            Literal::Array(Vec::new())
        },
    }
}

/// Generate the instantiation of a table along its schema.
#[verifier::loop_isolation(false)]
pub fn instantiate_table(map: &Table, key: &str, toml_value: &TomlValue, parents: &Vec<String>) -> (literal:
    Literal)
    requires
        Doc::Table(table_of(map@)).well_formed(),
        toml_value@.well_formed(),
        instantiable(toml_value@, Doc::Table(table_of(map@))),
    ensures
        literal@ == instance(Doc::Table(table_of(map@)), key@, toml_value@, texts(parents@)),
    decreases map, 0nat,
{
    let ghost docs = table_of(map@);
    let ghost expected = instance(Doc::Table(docs), key@, toml_value@, texts(parents@));
    let table_type = to_type_ident(key);
    let table_mod = to_module_ident(key);
    let path = clone_strings(parents);
    let mut inner_parents = clone_strings(parents);
    inner_parents.push(table_mod);
    assert(texts(inner_parents@) =~= texts(parents@).push(module_ident(key@)));
    match toml_value {
        TomlValue::Table(tab) => {
            let ghost entries = entries_of(tab@);
            proof {
                lemma_view_table(*tab);
                assert(Schema::Table(entries).well_formed());
            }
            let mut new_params: Vec<Literal> = Vec::new();
            let mut i: usize = 0;
            while i < map.len()
                invariant
                    i <= map.len(),
                    new_params.len() == i,
                    forall|j: int|
                        0 <= j < i ==> (#[trigger] new_params[j])@ == expected->Record_args[j],
                decreases map.len() - i,
            {
                assert(docs[i as int] == (map[i as int].0@, map[i as int].1@));
                assert(docs[i as int].1.well_formed());
                assert(has_key(entries, docs[i as int].0));
                match find_key(tab, &map[i].0) {
                    Some(at) => {
                        assert(entries[at as int] == (tab[at as int].0@, tab[at as int].1@));
                        assert(entries[at as int].1.well_formed());
                        proof {
                            lemma_key_index(entries, at as int);
                        }
                        new_params.push(
                            map[i].1.instantiate(map[i].0.as_str(), &tab[at].1, &inner_parents),
                        );
                    },
                    None => {
                        proof {
                            let t = key_index(entries, docs[i as int].0);
                            assert(entries[t].0 == tab[t].0@);
                            assert(false);
                        }
                    },
                }
                i += 1;
            }
            proof {
                lemma_literal_record(path, table_type, new_params, None);
                assert(literals_of(new_params@) =~= expected->Record_args);
            }
            Literal::Record { path, name: table_type, args: new_params, map: None }
        },
        TomlValue::TableMap { keys, value_type } => {
            let ghost names = texts(keys@);
            let first = keys[0].as_str();
            assert(names[0] == first@);
            let mut new_params: Vec<Literal> = Vec::new();
            let mut i: usize = 0;
            while i < map.len()
                invariant
                    i <= map.len(),
                    new_params.len() == i,
                    forall|j: int|
                        0 <= j < i ==> (#[trigger] new_params[j])@ == expected->Record_args[j],
                decreases map.len() - i,
            {
                assert(docs[i as int] == (map[i as int].0@, map[i as int].1@));
                assert(docs[i as int].1.well_formed());
                assert(instantiable(value_type@, docs[i as int].1));
                new_params.push(map[i].1.instantiate(first, value_type, &inner_parents));
                i += 1;
            }
            let mut map_vals: Vec<(String, Literal)> = Vec::new();
            let mut j: usize = 0;
            while j < keys.len()
                invariant
                    j <= keys.len(),
                    map_vals.len() == j,
                    forall|t: int|
                        0 <= t < j ==> ((#[trigger] map_vals[t]).0@, map_vals[t].1@)
                            == expected->Record_map->Some_0[t],
                decreases keys.len() - j,
            {
                assert(names[j as int] == keys[j as int]@);
                assert(has_key(docs, names[j as int]));
                match find_key(map, &keys[j]) {
                    Some(at) => {
                        assert(docs[at as int] == (map[at as int].0@, map[at as int].1@));
                        assert(docs[at as int].1.well_formed());
                        assert(instantiable(value_type@, docs[at as int].1));
                        proof {
                            lemma_key_index(docs, at as int);
                        }
                        let value = map[at].1.instantiate(first, value_type, &inner_parents);
                        map_vals.push((keys[j].clone(), value));
                    },
                    None => {
                        proof {
                            let t = key_index(docs, names[j as int]);
                            assert(docs[t].0 == map[t].0@);
                            assert(false);
                        }
                    },
                }
                j += 1;
            }
            proof {
                lemma_literal_record(path, table_type, new_params, Some(map_vals));
                assert(literals_of(new_params@) =~= expected->Record_args);
                assert(pairs_of(map_vals@) =~= expected->Record_map->Some_0);
            }
            Literal::Record { path, name: table_type, args: new_params, map: Some(map_vals) }
        },
        _ => {
            proof {
                assert(false);
            }
            Literal::Array(Vec::new())
        },
    }
}

/// Generate the instantiation of an item. This can be a record or a simple
/// value.
pub trait Instantiate {
    /// The document value that is written out.
    spec fn document(&self) -> Doc;

    /// The literal of the value under `key`, along its schema, in the
    /// modules `parents`.
    fn instantiate(&self, key: &str, toml_value: &TomlValue, parents: &Vec<String>) -> (literal:
        Literal)
        requires
            self.document().well_formed(),
            toml_value@.well_formed(),
            instantiable(toml_value@, self.document()),
        ensures
            literal@ == instance(self.document(), key@, toml_value@, texts(parents@)),
    ;
}

impl Instantiate for Item {
    open spec fn document(&self) -> Doc {
        self@
    }

    fn instantiate(&self, key: &str, toml_value: &TomlValue, parents: &Vec<String>) -> (literal:
        Literal) {
        Item::instantiate(self, key, toml_value, parents)
    }
}

impl Instantiate for Vec<(String, Item)> {
    open spec fn document(&self) -> Doc {
        Doc::Table(table_of(self@))
    }

    fn instantiate(&self, key: &str, toml_value: &TomlValue, parents: &Vec<String>) -> (literal:
        Literal) {
        instantiate_table(self, key, toml_value, parents)
    }
}

impl Instantiate for Vec<Item> {
    open spec fn document(&self) -> Doc {
        Doc::Array(docs_of(self@))
    }

    fn instantiate(&self, key: &str, toml_value: &TomlValue, parents: &Vec<String>) -> (literal:
        Literal) {
        instantiate_array(self, key, toml_value, parents)
    }
}

impl Instantiate for Datetime {
    open spec fn document(&self) -> Doc {
        Doc::Datetime(*self)
    }

    fn instantiate(&self, key: &str, toml_value: &TomlValue, parents: &Vec<String>) -> (literal:
        Literal) {
        instantiate_datetime(self)
    }
}

} // verus!
