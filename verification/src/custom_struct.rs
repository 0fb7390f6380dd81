//! Record types and literals taken from a document alone, without a schema.

use vstd::prelude::*;
use vstd::string::*;
use crate::ident::{
    module_ident, to_module_ident, to_type_ident, to_variable_ident, type_ident, variable_ident,
};
use crate::instantiate::{
    has_shape, instantiate_datetime, kind_of, lemma_literal_array, lemma_literal_struct,
    literals_of, pairs_of, Literal, LiteralModel,
};
use crate::schema::{clone_strings, texts};
use crate::typedef::{
    defs_of, lemma_def_view, DatetimeKind, DefModel, Definition, FieldType, TypeModel,
};
use crate::value::{docs_of, lemma_doc_array, lemma_doc_table, table_of, Doc, Item, Table};

verus! {

/// A key that accompanies an instantiation
#[derive(Clone, Debug)]
pub enum Key {
    /// The item is instantiated as an element in an array.
    ///
    /// For these cases, the element type identifier depends on the parent key.
    Element(String),
    /// The key is a struct field name.
    Field(String),
    /// The key is a variable identifier.
    /// This only applies to tables.
    Var(String),
}

/// The model of a key: what it is for, and its text.
pub enum KeyModel {
    Element(Seq<char>),
    Field(Seq<char>),
    Var(Seq<char>),
}

impl View for Key {
    type V = KeyModel;

    open spec fn view(&self) -> KeyModel {
        match self {
            Key::Element(v) => KeyModel::Element(v@),
            Key::Field(v) => KeyModel::Field(v@),
            Key::Var(v) => KeyModel::Var(v@),
        }
    }
}

impl KeyModel {
    /// The text of the key.
    pub open spec fn value(self) -> Seq<char> {
        match self {
            KeyModel::Element(v) => v,
            KeyModel::Field(v) => v,
            KeyModel::Var(v) => v,
        }
    }

    /// The name of the record type of a table under the key: the array type
    /// identifier for an element, else the type identifier.
    pub open spec fn record_name(self) -> Seq<char> {
        match self {
            KeyModel::Element(e) => array_type_ident(e),
            KeyModel::Field(f) => type_ident(f),
            KeyModel::Var(v) => type_ident(v),
        }
    }
}

impl Key {
    /// Return the value contained in the key.
    pub fn value(&self) -> (text: &str)
        ensures
            text@ == self@.value(),
    {
        match self {
            Key::Element(v) => v.as_str(),
            Key::Field(v) => v.as_str(),
            Key::Var(v) => v.as_str(),
        }
    }
}

/// The array type identifier of a key: its type identifier followed by
/// `Item`.
pub open spec fn array_type_ident(key: Seq<char>) -> Seq<char> {
    type_ident(key) + "Item"@
}

/// Create an array type identifier formatted as PascalCase.
pub fn to_array_type_ident(key: &str) -> (ident: String)
    ensures
        ident@ == array_type_ident(key@),
{
    let mut ident = to_type_ident(key);
    ident.append("Item");
    ident
}

/// Whether the type of a value can be told: where datetimes are to be
/// unwrapped, a datetime has one of the four shapes, and so has what the
/// first element of an array leads to.
pub open spec fn typable(d: Doc, unwrap: bool) -> bool
    decreases d,
{
    match d {
        Doc::Datetime(dt) => unwrap ==> has_shape(dt),
        Doc::Array(values) => values.len() > 0 ==> typable(values[0], unwrap),
        _ => true,
    }
}

/// The type of a field that holds the value `d` under `key`, in the module
/// `parent`.
///
/// A datetime is the record of its shape where datetimes are unwrapped, else
/// the general datetime.  An array is the array of the type of its first
/// element under the array type identifier of the key, or of the empty type.
/// A table is the record named after the key.
pub open spec fn value_type_of(d: Doc, key: Seq<char>, parent: Seq<char>, unwrap: bool) -> TypeModel
    decreases d,
{
    match d {
        Doc::Str(_) => TypeModel::Str,
        Doc::Int(_) => TypeModel::Int,
        Doc::Float(_) => TypeModel::Float,
        Doc::Bool(_) => TypeModel::Bool,
        Doc::Datetime(dt) => if unwrap {
            TypeModel::Datetime(kind_of(dt))
        } else {
            TypeModel::AnyDatetime
        },
        Doc::Array(values) => TypeModel::Slice(
            Box::new(
                if values.len() == 0 {
                    TypeModel::Empty
                } else {
                    value_type_of(values[0], array_type_ident(key), parent, unwrap)
                },
            ),
        ),
        Doc::Table(_) => TypeModel::Record { module: Some(parent), name: type_ident(key) },
    }
}

/// Return the type of the value.
pub fn value_type(value: &Item, key: &str, parent_ident: &str, unwrap: bool) -> (t: FieldType)
    requires
        typable(value@, unwrap),
    ensures
        t@ == value_type_of(value@, key@, parent_ident@, unwrap),
    decreases value,
{
    match value {
        Item::String(_) => FieldType::Str,
        Item::Integer(_) => FieldType::Int,
        Item::Float(_) => FieldType::Float,
        Item::Boolean(_) => FieldType::Bool,
        Item::Datetime(dt) => {
            if unwrap {
                match (dt.date, dt.time, dt.offset) {
                    (Some(_), Some(_), Some(_)) => FieldType::Datetime(DatetimeKind::OffsetDateTime),
                    (Some(_), Some(_), None) => FieldType::Datetime(DatetimeKind::LocalDateTime),
                    (Some(_), None, None) => FieldType::Datetime(DatetimeKind::LocalDate),
                    (_, _, _) => FieldType::Datetime(DatetimeKind::LocalTime),
                }
            } else {
                FieldType::AnyDatetime
            }
        },
        // array types have "Item" as a suffix
        Item::Array(values) => {
            proof {
                lemma_doc_array(*values);
            }
            let ghost docs = docs_of(values@);
            let inner = if values.len() == 0 {
                FieldType::Empty
            } else {
                assert(docs[0] == values[0]@);
                let element_key = to_array_type_ident(key);
                value_type(&values[0], element_key.as_str(), parent_ident, unwrap)
            };
            assert(inner@ == if docs.len() == 0 {
                TypeModel::Empty
            } else {
                value_type_of(docs[0], array_type_ident(key@), parent_ident@, unwrap)
            });
            let t = FieldType::Slice(Box::new(inner));
            assert(t@ == TypeModel::Slice(Box::new(inner@)));
            assert(value_type_of(Doc::Array(docs), key@, parent_ident@, unwrap) == TypeModel::Slice(
                Box::new(
                    if docs.len() == 0 {
                        TypeModel::Empty
                    } else {
                        value_type_of(docs[0], array_type_ident(key@), parent_ident@, unwrap)
                    },
                ),
            ));
            t
        },
        Item::Table(_) => {
            let t = FieldType::Record {
                module: Some(parent_ident.to_owned()),
                name: to_type_ident(key),
            };
            assert(t@ == value_type_of(value@, key@, parent_ident@, unwrap));
            t
        },
    }
}

/// The definition of the record type of a table under `key`, without the
/// definitions of the types of its fields: one field for each entry, named
/// by the variable identifier of its key.
pub open spec fn table_type(table: Seq<(Seq<char>, Doc)>, key: KeyModel, unwrap: bool) -> DefModel {
    DefModel {
        name: key.record_name(),
        module: module_ident(key.value()),
        fields: Seq::new(
            table.len(),
            |i: int|
                (
                    variable_ident(table[i].0),
                    value_type_of(table[i].1, table[i].0, module_ident(key.value()), unwrap),
                ),
        ),
        map: None,
        inner: Seq::empty(),
    }
}

/// Whether the types of all values of a table can be told.
pub open spec fn all_typable(table: Seq<(Seq<char>, Doc)>, unwrap: bool) -> bool {
    forall|i: int| 0 <= i < table.len() ==> typable((#[trigger] table[i]).1, unwrap)
}

/// Generate the struct definition for a table.
pub fn table_type_def(table: &Table, key: &Key, unwrap: bool) -> (def: Definition)
    requires
        all_typable(table_of(table@), unwrap),
    ensures
        def@ == table_type(table_of(table@), key@, unwrap),
{
    let ghost entries = table_of(table@);
    let mod_self = to_module_ident(key.value());
    let mut fields: Vec<(String, FieldType)> = Vec::new();
    let mut i: usize = 0;
    while i < table.len()
        invariant
            i <= table.len(),
            entries == table_of(table@),
            all_typable(entries, unwrap),
            mod_self@ == module_ident(key@.value()),
            fields.len() == i,
            forall|j: int|
                0 <= j < i ==> (#[trigger] fields[j]).0@ == variable_ident(entries[j].0)
                    && fields[j].1@ == value_type_of(
                    entries[j].1,
                    entries[j].0,
                    module_ident(key@.value()),
                    unwrap,
                ),
        decreases table.len() - i,
    {
        assert(entries[i as int] == (table[i as int].0@, table[i as int].1@));
        assert(typable(entries[i as int].1, unwrap));
        let field_name = to_variable_ident(table[i].0.as_str());
        let field_type = value_type(&table[i].1, table[i].0.as_str(), mod_self.as_str(), unwrap);
        fields.push((field_name, field_type));
        i += 1;
    }
    let name = match key {
        Key::Element(e) => to_array_type_ident(e.as_str()),
        Key::Field(f) => to_type_ident(f.as_str()),
        Key::Var(ident) => to_type_ident(ident.as_str()),
    };
    let def = Definition { name, module: mod_self, fields, map: None, inner: Vec::new() };
    proof {
        lemma_def_view(def);
        assert(def@.fields =~= table_type(entries, key@, unwrap).fields);
        assert(def@.inner =~= Seq::empty());
    }
    def
}

/// Whether a table and the tables in it can be defined: the types of all
/// values can be told, and no array begins with an array.
pub open spec fn definable(table: Seq<(Seq<char>, Doc)>, unwrap: bool) -> bool
    decreases table,
{
    forall|i: int|
        0 <= i < table.len() ==> typable((#[trigger] table[i]).1, unwrap) && match table[i].1 {
            Doc::Array(arr) => arr.len() > 0 ==> match arr[0] {
                Doc::Table(t) => definable(t, unwrap),
                Doc::Array(_) => false,
                _ => true,
            },
            Doc::Table(tab) => definable(tab, unwrap),
            _ => true,
        }
}

/// The definition of the record type of a table under `key` with, in its
/// module, the definitions of the tables in it: of each value that is a
/// table, as a field, and of the first element of each array that begins
/// with a table, as an element.
pub open spec fn inner_tables(table: Seq<(Seq<char>, Doc)>, key: KeyModel, unwrap: bool) -> DefModel
    decreases table, table.len() + 1,
{
    DefModel {
        name: table_type(table, key, unwrap).name,
        module: table_type(table, key, unwrap).module,
        fields: table_type(table, key, unwrap).fields,
        map: None,
        inner: inner_defs(table, table.len(), unwrap),
    }
}

/// The definitions that the values of the first `n` entries ask for, in
/// order.
pub open spec fn inner_defs(table: Seq<(Seq<char>, Doc)>, n: nat, unwrap: bool) -> Seq<DefModel>
    decreases table, n,
{
    if n == 0 || n > table.len() {
        Seq::empty()
    } else {
        match table[n - 1].1 {
            Doc::Array(arr) => {
                if arr.len() > 0 {
                    match arr[0] {
                        Doc::Table(t) => inner_defs(table, (n - 1) as nat, unwrap).push(
                            inner_tables(t, KeyModel::Element(table[n - 1].0), unwrap),
                        ),
                        _ => inner_defs(table, (n - 1) as nat, unwrap),
                    }
                } else {
                    inner_defs(table, (n - 1) as nat, unwrap)
                }
            },
            Doc::Table(tab) => inner_defs(table, (n - 1) as nat, unwrap).push(
                inner_tables(tab, KeyModel::Field(table[n - 1].0), unwrap),
            ),
            _ => inner_defs(table, (n - 1) as nat, unwrap),
        }
    }
}

/// Descend down the current toml table and define self and all inner tables
/// as structs.
///
/// Inner tables are defined in a module named after their parent table.
/// This is done so identically named sub-tables can co-exist in the same file.
#[verifier::loop_isolation(false)]
pub fn def_inner_tables(table: &Table, key: &Key, unwrap: bool) -> (def: Definition)
    requires
        definable(table_of(table@), unwrap),
    ensures
        def@ == inner_tables(table_of(table@), key@, unwrap),
    decreases table,
{
    let ghost entries = table_of(table@);
    assert(all_typable(entries, unwrap));
    let self_def = table_type_def(table, key, unwrap);
    let mut inner_defs: Vec<Definition> = Vec::new();
    let mut i: usize = 0;
    while i < table.len()
        invariant
            i <= table.len(),
            defs_of(inner_defs@) == self::inner_defs(entries, i as nat, unwrap),
        decreases table.len() - i,
    {
        assert(entries[i as int] == (table[i as int].0@, table[i as int].1@));
        let ghost before = defs_of(inner_defs@);
        match &table[i].1 {
            Item::Array(arr) => {
                proof {
                    lemma_doc_array(*arr);
                }
                if arr.len() > 0 {
                    assert(docs_of(arr@)[0] == arr[0]@);
                    match &arr[0] {
                        Item::Table(t) => {
                            proof {
                                lemma_doc_table(*t);
                            }
                            let inner = def_inner_tables(t, &Key::Element(table[i].0.clone()), unwrap);
                            inner_defs.push(inner);
                            assert(defs_of(inner_defs@) =~= before.push(inner@));
                        },
                        _ => {},
                    }
                }
            },
            Item::Table(tab) => {
                proof {
                    lemma_doc_table(*tab);
                }
                let inner = def_inner_tables(tab, &Key::Field(table[i].0.clone()), unwrap);
                inner_defs.push(inner);
                assert(defs_of(inner_defs@) =~= before.push(inner@));
            },
            _ => {},
        }
        i += 1;
    }
    let def = Definition {
        name: self_def.name,
        module: self_def.module,
        fields: self_def.fields,
        map: None,
        inner: inner_defs,
    };
    proof {
        lemma_def_view(def);
    }
    def
}

/// Whether every datetime of a document has one of the four shapes.
pub open spec fn all_shaped(d: Doc) -> bool
    decreases d,
{
    match d {
        Doc::Datetime(dt) => has_shape(dt),
        Doc::Array(values) => forall|i: int|
            0 <= i < values.len() ==> all_shaped(#[trigger] values[i]),
        Doc::Table(map) => forall|i: int| 0 <= i < map.len() ==> all_shaped((#[trigger] map[i]).1),
        _ => true,
    }
}

/// The literal of a document value that stands under `key`, in the modules
/// `parents`: a scalar is its own literal, a datetime the record of its
/// shape, an array the slice of the literals of its elements, and a table
/// the record named after the key, written out field by field, each field
/// named by the module identifier of its key.
pub open spec fn plain_instance(d: Doc, key: Seq<char>, parents: Seq<Seq<char>>) -> LiteralModel
    decreases d,
{
    match d {
        Doc::Str(v) => LiteralModel::Str(v),
        Doc::Int(v) => LiteralModel::Int(v),
        Doc::Float(v) => LiteralModel::Float(v),
        Doc::Bool(v) => LiteralModel::Bool(v),
        Doc::Datetime(dt) => LiteralModel::Datetime(kind_of(dt), dt),
        Doc::Array(values) => LiteralModel::Array(
            Seq::new(
                values.len(),
                |i: int|
                    if 0 <= i < values.len() {
                        plain_instance(values[i], key, parents)
                    } else {
                        arbitrary()
                    },
            ),
        ),
        Doc::Table(map) => LiteralModel::Struct {
            path: parents,
            name: type_ident(key),
            fields: Seq::new(
                map.len(),
                |i: int|
                    if 0 <= i < map.len() {
                        (
                            module_ident(map[i].0),
                            plain_instance(map[i].1, map[i].0, parents.push(module_ident(key))),
                        )
                    } else {
                        arbitrary()
                    },
            ),
        },
    }
}

/// Generate the instantiation of an item.
#[verifier::loop_isolation(false)]
pub fn instantiate(value: &Item, key: &str, parents: &Vec<String>) -> (literal: Literal)
    requires
        all_shaped(value@),
    ensures
        literal@ == plain_instance(value@, key@, texts(parents@)),
    decreases value,
{
    match value {
        // cases when items are instantiated as fields in an array
        Item::String(val) => Literal::Str(val.clone()),
        Item::Integer(val) => Literal::Int(*val),
        Item::Float(val) => Literal::Float(*val),
        Item::Boolean(val) => Literal::Bool(*val),
        // items with inner impls
        Item::Datetime(datetime) => instantiate_datetime(datetime),
        Item::Array(values) => {
            let ghost docs = docs_of(values@);
            proof {
                lemma_doc_array(*values);
                assert(all_shaped(Doc::Array(docs)));
            }
            let mut elements: Vec<Literal> = Vec::new();
            let mut i: usize = 0;
            while i < values.len()
                invariant
                    i <= values.len(),
                    elements.len() == i,
                    forall|j: int|
                        0 <= j < i ==> (#[trigger] elements[j])@ == plain_instance(
                            docs[j],
                            key@,
                            texts(parents@),
                        ),
                decreases values.len() - i,
            {
                assert(docs[i as int] == values[i as int]@);
                assert(all_shaped(docs[i as int]));
                elements.push(instantiate(&values[i], key, parents));
                i += 1;
            }
            proof {
                lemma_literal_array(elements);
                assert(literals_of(elements@) =~= plain_instance(
                    value@,
                    key@,
                    texts(parents@),
                )->Array_0);
            }
            Literal::Array(elements)
        },
        Item::Table(map) => {
            let ghost docs = table_of(map@);
            proof {
                lemma_doc_table(*map);
                assert(all_shaped(Doc::Table(docs)));
            }
            let table_type = to_type_ident(key);
            let table_mod = to_module_ident(key);
            let path = clone_strings(parents);
            let mut inner_parents = clone_strings(parents);
            inner_parents.push(table_mod);
            assert(texts(inner_parents@) =~= texts(parents@).push(module_ident(key@)));
            let mut fields: Vec<(String, Literal)> = Vec::new();
            let mut i: usize = 0;
            while i < map.len()
                invariant
                    i <= map.len(),
                    fields.len() == i,
                    forall|j: int|
                        0 <= j < i ==> ((#[trigger] fields[j]).0@, fields[j].1@) == plain_instance(
                            value@,
                            key@,
                            texts(parents@),
                        )->Struct_fields[j],
                decreases map.len() - i,
            {
                assert(docs[i as int] == (map[i as int].0@, map[i as int].1@));
                assert(all_shaped(docs[i as int].1));
                let f_key = map[i].0.as_str();
                let field_value = instantiate(&map[i].1, f_key, &inner_parents);
                fields.push((to_module_ident(f_key), field_value));
                i += 1;
            }
            proof {
                lemma_literal_struct(path, table_type, fields);
                assert(pairs_of(fields@) =~= plain_instance(
                    value@,
                    key@,
                    texts(parents@),
                )->Struct_fields);
            }
            Literal::Struct { path, name: table_type, fields }
        },
    }
}

/// Generate the struct definition for a table.
pub trait TableTypeDef {
    /// The entries of the table.
    spec fn entries(&self) -> Seq<(Seq<char>, Doc)>;

    /// The definition of the record type of the table under `key`.
    fn table_type_def(&self, key: &Key, unwrap: bool) -> (def: Definition)
        requires
            all_typable(self.entries(), unwrap),
        ensures
            def@ == table_type(self.entries(), key@, unwrap),
    ;
}

impl TableTypeDef for Vec<(String, Item)> {
    open spec fn entries(&self) -> Seq<(Seq<char>, Doc)> {
        table_of(self@)
    }

    fn table_type_def(&self, key: &Key, unwrap: bool) -> (def: Definition) {
        self::table_type_def(self, key, unwrap)
    }
}

/// Return the type of the value.
pub trait ValueType {
    /// The document value whose type is told.
    spec fn document(&self) -> Doc;

    /// The type of a field that holds the value under `key`, in the module
    /// `parent_ident`.
    fn value_type(&self, key: &str, parent_ident: &str, unwrap: bool) -> (t: FieldType)
        requires
            typable(self.document(), unwrap),
        ensures
            t@ == value_type_of(self.document(), key@, parent_ident@, unwrap),
    ;
}

impl ValueType for Item {
    open spec fn document(&self) -> Doc {
        self@
    }

    fn value_type(&self, key: &str, parent_ident: &str, unwrap: bool) -> (t: FieldType) {
        self::value_type(self, key, parent_ident, unwrap)
    }
}

/// Generate the instantiation of an item from the item alone.
pub trait Instantiate {
    /// The document value that is written out.
    spec fn document(&self) -> Doc;

    /// The literal of the value under `key`, in the modules `parents`.
    fn instantiate(&self, key: &str, parents: &Vec<String>) -> (literal: Literal)
        requires
            all_shaped(self.document()),
        ensures
            literal@ == plain_instance(self.document(), key@, texts(parents@)),
    ;
}

impl Instantiate for Item {
    open spec fn document(&self) -> Doc {
        self@
    }

    fn instantiate(&self, key: &str, parents: &Vec<String>) -> (literal: Literal) {
        self::instantiate(self, key, parents)
    }
}

} // verus!
