//! The record types that a schema asks for.

use vstd::prelude::*;
use vstd::string::*;
use crate::ident::{module_ident, to_module_ident, to_type_ident, type_ident};
use crate::schema::{entries_of, lemma_view_array, lemma_view_table, schemas_of, texts, Schema, TomlValue};

verus! {

/// The name of the field of a table map that holds the lookup from key to
/// value.
pub const MAP_FIELD: &'static str = "map";

/// The four shapes of a datetime.
#[derive(Clone, Copy, Debug, PartialEq, Eq, Structural)]
pub enum DatetimeKind {
    OffsetDateTime,
    LocalDateTime,
    LocalDate,
    LocalTime,
}

/// The shape of a datetime with the given components: with an offset it is an
/// offset date-time, whatever else it has.
pub open spec fn datetime_kind(date: bool, time: bool, offset: bool) -> DatetimeKind {
    if offset {
        DatetimeKind::OffsetDateTime
    } else if date && time {
        DatetimeKind::LocalDateTime
    } else if date {
        DatetimeKind::LocalDate
    } else {
        DatetimeKind::LocalTime
    }
}

/// The shape of a datetime with the given components.
pub fn date_time_struct_ident(date: bool, time: bool, offset: bool) -> (kind: DatetimeKind)
    requires
        date || time || offset,
    ensures
        kind == datetime_kind(date, time, offset),
{
    match (date, time, offset) {
        (_, _, true) => DatetimeKind::OffsetDateTime,
        (true, true, false) => DatetimeKind::LocalDateTime,
        (true, false, false) => DatetimeKind::LocalDate,
        (_, _, _) => DatetimeKind::LocalTime,
    }
}

impl DatetimeKind {
    /// The name of the record type of the shape.
    pub fn name(&self) -> (name: &'static str)
        ensures
            name@ == match self {
                DatetimeKind::OffsetDateTime => "OffsetDateTime"@,
                DatetimeKind::LocalDateTime => "LocalDateTime"@,
                DatetimeKind::LocalDate => "LocalDate"@,
                DatetimeKind::LocalTime => "LocalTime"@,
            },
    {
        match self {
            DatetimeKind::OffsetDateTime => "OffsetDateTime",
            DatetimeKind::LocalDateTime => "LocalDateTime",
            DatetimeKind::LocalDate => "LocalDate",
            DatetimeKind::LocalTime => "LocalTime",
        }
    }
}

/// The mathematical model of a field type.
pub enum TypeModel {
    Str,
    Int,
    Float,
    Bool,
    Datetime(DatetimeKind),
    AnyDatetime,
    Empty,
    Slice(Box<TypeModel>),
    Record { module: Option<Seq<char>>, name: Seq<char> },
}

/// The type of a field of a record.
#[derive(Debug)]
pub enum FieldType {
    /// A string slice
    Str,
    /// A 64-bit integer
    Int,
    /// A 64-bit float
    Float,
    /// A boolean
    Bool,
    /// One of the four datetime records
    Datetime(DatetimeKind),
    /// A datetime whose components may each be absent
    AnyDatetime,
    /// The type of the elements of an array without elements
    Empty,
    /// A slice of elements of one type
    Slice(Box<FieldType>),
    /// The record type of a table, by its name and the module it stands in
    Record { module: Option<String>, name: String },
}

/// The type that a `FieldType` stands for.
pub open spec fn type_of(t: FieldType) -> TypeModel
    decreases t,
{
    match t {
        FieldType::Str => TypeModel::Str,
        FieldType::Int => TypeModel::Int,
        FieldType::Float => TypeModel::Float,
        FieldType::Bool => TypeModel::Bool,
        FieldType::Datetime(kind) => TypeModel::Datetime(kind),
        FieldType::AnyDatetime => TypeModel::AnyDatetime,
        FieldType::Empty => TypeModel::Empty,
        FieldType::Slice(inner) => TypeModel::Slice(Box::new(type_of(*inner))),
        FieldType::Record { module, name } => TypeModel::Record {
            module: match module {
                Some(m) => Some(m@),
                None => None,
            },
            name: name@,
        },
    }
}

impl View for FieldType {
    type V = TypeModel;

    open spec fn view(&self) -> TypeModel {
        type_of(*self)
    }
}

impl Clone for FieldType {
    fn clone(&self) -> (copy: Self)
        ensures
            copy@ == self@,
        decreases self,
    {
        match self {
            FieldType::Str => FieldType::Str,
            FieldType::Int => FieldType::Int,
            FieldType::Float => FieldType::Float,
            FieldType::Bool => FieldType::Bool,
            FieldType::Datetime(kind) => FieldType::Datetime(*kind),
            FieldType::AnyDatetime => FieldType::AnyDatetime,
            FieldType::Empty => FieldType::Empty,
            FieldType::Slice(inner) => FieldType::Slice(Box::new((**inner).clone())),
            FieldType::Record { module, name } => FieldType::Record {
                module: match module {
                    Some(m) => Some(m.clone()),
                    None => None,
                },
                name: name.clone(),
            },
        }
    }
}

/// The type of a field that holds a value of schema `s` under `key`, seen
/// from the record whose fields live in `parent`.
///
/// A scalar has its fixed type and a datetime the record of its shape.  An
/// array is a slice of the type of its element schema, or of strings where
/// it has none.  A table or table map is the record named after the key, in
/// the parent's module.
pub open spec fn field_type(s: Schema, key: Seq<char>, parent: Option<Seq<char>>) -> TypeModel
    decreases s,
{
    match s {
        Schema::Str => TypeModel::Str,
        Schema::Int => TypeModel::Int,
        Schema::Float => TypeModel::Float,
        Schema::Bool => TypeModel::Bool,
        Schema::Datetime { date, time, offset } => TypeModel::Datetime(
            datetime_kind(date, time, offset),
        ),
        Schema::Array(items) => {
            if items.len() > 0 {
                TypeModel::Slice(Box::new(field_type(items[0], key, parent)))
            } else {
                TypeModel::Slice(Box::new(TypeModel::Str))
            }
        },
        Schema::Table(_) => TypeModel::Record { module: parent, name: type_ident(key) },
        Schema::TableMap { .. } => TypeModel::Record { module: parent, name: type_ident(key) },
    }
}

/// The text of an optional string slice.
pub open spec fn text_of_slice(s: Option<&str>) -> Option<Seq<char>> {
    match s {
        Some(s) => Some(s@),
        None => None,
    }
}

impl TomlValue {
    /// Return the type of a value.
    /// Arrays will descend and return their inner type.
    pub fn ty(&self, key: &str, parent_mod: Option<&str>) -> (t: FieldType)
        requires
            self@.datetimes_present(),
        ensures
            t@ == field_type(self@, key@, text_of_slice(parent_mod)),
        decreases self,
    {
        match self {
            TomlValue::String => FieldType::Str,
            TomlValue::Integer => FieldType::Int,
            TomlValue::Float => FieldType::Float,
            TomlValue::Boolean => FieldType::Bool,
            TomlValue::Datetime { date, time, offset } => FieldType::Datetime(
                date_time_struct_ident(*date, *time, *offset),
            ),
            TomlValue::Array(toml_values) => {
                proof {
                    lemma_view_array(*toml_values);
                    assert(Schema::Array(schemas_of(toml_values@)).datetimes_present());
                }
                if toml_values.len() > 0 {
                    assert(schemas_of(toml_values@)[0] == toml_values[0]@);
                    assert(schemas_of(toml_values@)[0].datetimes_present());
                    let inner_type = toml_values[0].ty(key, parent_mod);
                    let t = FieldType::Slice(Box::new(inner_type));
                    assert(t@ == field_type(self@, key@, text_of_slice(parent_mod)));
                    t
                } else {
                    // default to string array
                    let t = FieldType::Slice(Box::new(FieldType::Str));
                    assert(t@ == field_type(self@, key@, text_of_slice(parent_mod)));
                    t
                }
            },
            TomlValue::Table(_) | TomlValue::TableMap { .. } => {
                let self_type = to_type_ident(key);
                let module = match parent_mod {
                    Some(parent) => Some(parent.to_owned()),
                    None => None,
                };
                let t = FieldType::Record { module, name: self_type };
                assert(t@ == field_type(self@, key@, text_of_slice(parent_mod)));
                t
            },
        }
    }
}

/// The mathematical model of a record definition.
pub struct DefModel {
    pub name: Seq<char>,
    pub module: Seq<char>,
    pub fields: Seq<(Seq<char>, TypeModel)>,
    pub map: Option<TypeModel>,
    pub inner: Seq<DefModel>,
}

/// The definition of the record type of a table.
#[derive(Debug)]
pub struct Definition {
    /// The name of the record type
    pub name: String,
    /// The name of the module that holds the definitions of the fields' types
    pub module: String,
    /// The fields in their order, each with its type
    pub fields: Vec<(String, FieldType)>,
    /// For a table map, the type of the values of its lookup, which is held
    /// in one more field named `MAP_FIELD`
    pub map: Option<FieldType>,
    /// The definitions that stand in the module
    pub inner: Vec<Definition>,
}

/// The types of a list of fields.
pub open spec fn fields_of(fields: Seq<(String, FieldType)>) -> Seq<(Seq<char>, TypeModel)> {
    Seq::new(fields.len(), |i: int| (fields[i].0@, fields[i].1@))
}

/// The definition that a `Definition` stands for.
pub open spec fn def_of(d: Definition) -> DefModel
    decreases d,
{
    DefModel {
        name: d.name@,
        module: d.module@,
        fields: fields_of(d.fields@),
        map: match d.map {
            Some(t) => Some(t@),
            None => None,
        },
        inner: Seq::new(
            d.inner.len() as nat,
            |i: int|
                if 0 <= i < d.inner.len() {
                    def_of(d.inner[i])
                } else {
                    arbitrary()
                },
        ),
    }
}

impl View for Definition {
    type V = DefModel;

    open spec fn view(&self) -> DefModel {
        def_of(*self)
    }
}

/// The definitions that a list of `Definition`s stands for.
pub open spec fn defs_of(defs: Seq<Definition>) -> Seq<DefModel> {
    Seq::new(defs.len(), |i: int| defs[i]@)
}

/// What an optional definition stands for.
pub open spec fn defined(d: Option<Definition>) -> Option<DefModel> {
    match d {
        Some(d) => Some(d@),
        None => None,
    }
}

/// The definition of the record type that a schema under `key` asks for.
///
/// A table asks for a record named after the key, with one field for each of
/// its keys, and for a module named after the key that holds the definitions
/// that its values ask for.  A table map asks for a record with one field for
/// each of its keys, all of the type of the shared schema under the first
/// key, with the lookup field, and for a module that holds the definition
/// that the shared schema asks for under the first key.  An array asks for
/// what its element schema asks for.  Nothing else asks for a definition.
pub open spec fn definition(s: Schema, key: Seq<char>) -> Option<DefModel>
    decreases s, 0nat,
{
    match s {
        Schema::Array(arr) => {
            if arr.len() == 1 {
                definition(arr[0], key)
            } else {
                None
            }
        },
        Schema::Table(tab) => Some(
            DefModel {
                name: type_ident(key),
                module: module_ident(key),
                fields: Seq::new(
                    tab.len(),
                    |i: int|
                        (module_ident(tab[i].0), field_type(tab[i].1, tab[i].0, Some(module_ident(key)))),
                ),
                map: None,
                inner: inner_definitions(tab, tab.len()),
            },
        ),
        Schema::TableMap { keys, shared } => {
            if keys.len() > 0 {
                Some(
                    DefModel {
                        name: type_ident(key),
                        module: module_ident(key),
                        fields: Seq::new(
                            keys.len(),
                            |i: int|
                                (
                                    module_ident(keys[i]),
                                    field_type(*shared, keys[0], Some(module_ident(key))),
                                ),
                        ),
                        map: Some(field_type(*shared, keys[0], Some(module_ident(key)))),
                        inner: match definition(*shared, keys[0]) {
                            Some(d) => seq![d],
                            None => Seq::empty(),
                        },
                    },
                )
            } else {
                None
            }
        },
        _ => None,
    }
}

/// The definitions that the values of the first `n` entries ask for, in
/// order.
pub open spec fn inner_definitions(tab: Seq<(Seq<char>, Schema)>, n: nat) -> Seq<DefModel>
    decreases tab, n,
{
    if n == 0 || n > tab.len() {
        Seq::empty()
    } else {
        match definition(tab[n - 1].1, tab[n - 1].0) {
            Some(d) => inner_definitions(tab, (n - 1) as nat).push(d),
            None => inner_definitions(tab, (n - 1) as nat),
        }
    }
}

/// The inner definitions of a definition stand for what each stands for.
pub proof fn lemma_def_view(d: Definition)
    ensures
        d@.inner == defs_of(d.inner@),
{
    assert(d@.inner =~= defs_of(d.inner@));
}

impl TomlValue {
    /// Recursively define array and table types.
    ///
    /// `Self` should be normalized and reduced first.
    #[verifier::loop_isolation(false)]
    pub fn definition(&self, key: &str) -> (def: Option<Definition>)
        requires
            self@.well_formed(),
            self@.arrays_unified(),
            self@.datetimes_present(),
        ensures
            defined(def) == definition(self@, key@),
        decreases self,
    {
        match self {
            TomlValue::Array(arr) => {
                proof {
                    lemma_view_array(*arr);
                    assert(Schema::Array(schemas_of(arr@)).well_formed());
                    assert(Schema::Array(schemas_of(arr@)).arrays_unified());
                    assert(Schema::Array(schemas_of(arr@)).datetimes_present());
                }
                if arr.len() == 1 {
                    assert(schemas_of(arr@)[0] == arr[0]@);
                    assert(schemas_of(arr@)[0].well_formed());
                    assert(schemas_of(arr@)[0].arrays_unified());
                    assert(schemas_of(arr@)[0].datetimes_present());
                    arr[0].definition(key)
                } else {
                    None
                }
            },
            TomlValue::Table(tab) => {
                let ghost entries = entries_of(tab@);
                proof {
                    lemma_view_table(*tab);
                    assert(Schema::Table(entries).well_formed());
                    assert(Schema::Table(entries).arrays_unified());
                    assert(Schema::Table(entries).datetimes_present());
                }
                let self_ident = to_type_ident(key);
                let self_mod = to_module_ident(key);
                let mut fields: Vec<(String, FieldType)> = Vec::new();
                let mut inner: Vec<Definition> = Vec::new();
                let mut i: usize = 0;
                while i < tab.len()
                    invariant
                        i <= tab.len(),
                        fields.len() == i,
                        forall|j: int|
                            0 <= j < i ==> (#[trigger] fields[j]).0@ == module_ident(entries[j].0)
                                && fields[j].1@ == field_type(
                                entries[j].1,
                                entries[j].0,
                                Some(module_ident(key@)),
                            ),
                        defs_of(inner@) == inner_definitions(entries, i as nat),
                    decreases tab.len() - i,
                {
                    assert(entries[i as int] == (tab[i as int].0@, tab[i as int].1@));
                    assert(entries[i as int].1.well_formed());
                    assert(entries[i as int].1.arrays_unified());
                    assert(entries[i as int].1.datetimes_present());
                    let k = tab[i].0.as_str();
                    let field_ident = to_module_ident(k);
                    let field_type = tab[i].1.ty(k, Some(self_mod.as_str()));
                    fields.push((field_ident, field_type));
                    let ghost before = defs_of(inner@);
                    match tab[i].1.definition(k) {
                        Some(d) => {
                            inner.push(d);
                            assert(defs_of(inner@) =~= before.push(d@));
                        },
                        None => {},
                    }
                    i += 1;
                }
                let def = Definition { name: self_ident, module: self_mod, fields, map: None, inner };
                proof {
                    lemma_def_view(def);
                    assert(def@.fields =~= definition(self@, key@)->Some_0.fields);
                }
                Some(def)
            },
            TomlValue::TableMap { keys, value_type } => {
                let self_ident = to_type_ident(key);
                let self_mod = to_module_ident(key);
                let first = keys[0].as_str();
                assert(texts(keys@)[0] == first@);
                let mut fields: Vec<(String, FieldType)> = Vec::new();
                let mut i: usize = 0;
                while i < keys.len()
                    invariant
                        i <= keys.len(),
                        fields.len() == i,
                        forall|j: int|
                            0 <= j < i ==> (#[trigger] fields[j]).0@ == module_ident(keys[j]@)
                                && fields[j].1@ == field_type(
                                value_type@,
                                first@,
                                Some(module_ident(key@)),
                            ),
                    decreases keys.len() - i,
                {
                    let field_ident = to_module_ident(keys[i].as_str());
                    let all_field_type = value_type.ty(first, Some(self_mod.as_str()));
                    fields.push((field_ident, all_field_type));
                    i += 1;
                }
                let map_type = value_type.ty(first, Some(self_mod.as_str()));
                let mut inner: Vec<Definition> = Vec::new();
                match value_type.definition(first) {
                    Some(d) => {
                        inner.push(d);
                        assert(defs_of(inner@) =~= seq![d@]);
                    },
                    None => {
                        assert(defs_of(inner@) =~= Seq::empty());
                    },
                }
                let def = Definition {
                    name: self_ident,
                    module: self_mod,
                    fields,
                    map: Some(map_type),
                    inner,
                };
                proof {
                    lemma_def_view(def);
                    assert(def@.fields =~= definition(self@, key@)->Some_0.fields);
                }
                Some(def)
            },
            // do not need to define primitive/provided types
            _ => None,
        }
    }
}

/// Whether the identifiers of a definition are told apart: no two fields
/// have the same name, no field of a table map has the name of the lookup
/// field, no two definitions in the module have the same name, and the same
/// holds of the first `n` definitions in the module.
pub open spec fn distinct_names(d: DefModel, n: nat) -> bool
    decreases d, n,
{
    if n == 0 || n > d.inner.len() {
        &&& forall|i: int, j: int|
            0 <= i < j < d.fields.len() ==> (#[trigger] d.fields[i]).0 != (#[trigger] d.fields[j]).0
        &&& d.map is Some ==> forall|i: int|
            0 <= i < d.fields.len() ==> (#[trigger] d.fields[i]).0 != MAP_FIELD@
        &&& forall|i: int, j: int|
            0 <= i < j < d.inner.len() ==> (#[trigger] d.inner[i]).name != (#[trigger] d.inner[j]).name
    } else {
        distinct_names(d.inner[n - 1], d.inner[n - 1].inner.len()) && distinct_names(
            d,
            (n - 1) as nat,
        )
    }
}

impl Definition {
    /// Whether the identifiers that were derived from the keys are told
    /// apart, here and in every definition of the module.
    pub fn has_distinct_names(&self) -> (distinct: bool)
        ensures
            distinct == distinct_names(self@, self@.inner.len()),
        decreases self,
    {
        let ghost model = self@;
        proof {
            lemma_def_view(*self);
        }
        if !crate::validate::keys_are_distinct(&self.fields) {
            proof {
                let (a, b) = choose|a: int, b: int|
                    0 <= a < b < self.fields.len() && (#[trigger] self.fields[a]).0@ == (
                    #[trigger] self.fields[b]).0@;
                assert(model.fields[a].0 == model.fields[b].0);
                lemma_indistinct(model, model.inner.len());
            }
            return false;
        }
        if self.map.is_some() {
            let map_field = String::from_str(MAP_FIELD);
            let mut i: usize = 0;
            while i < self.fields.len()
                invariant
                    i <= self.fields.len(),
                    model == self@,
                    self.map is Some,
                    map_field@ == MAP_FIELD@,
                    forall|j: int| 0 <= j < i ==> (#[trigger] model.fields[j]).0 != MAP_FIELD@,
                decreases self.fields.len() - i,
            {
                assert(model.fields[i as int].0 == self.fields[i as int].0@);
                if self.fields[i].0 == map_field {
                    proof {
                        assert(model.map is Some);
                        assert(model.fields[i as int].0 == MAP_FIELD@);
                        assert(!distinct_names(model, 0));
                        lemma_indistinct(model, model.inner.len());
                    }
                    return false;
                }
                i += 1;
            }
        }
        let mut j: usize = 0;
        while j < self.inner.len()
            invariant
                j <= self.inner.len(),
                model == self@,
                model.inner == defs_of(self.inner@),
                forall|a: int, b: int|
                    0 <= a < b < j ==> (#[trigger] model.inner[a]).name != (
                    #[trigger] model.inner[b]).name,
            decreases self.inner.len() - j,
        {
            let mut i: usize = 0;
            while i < j
                invariant
                    i <= j < self.inner.len(),
                    model == self@,
                    model.inner == defs_of(self.inner@),
                    forall|a: int|
                        0 <= a < i ==> (#[trigger] model.inner[a]).name != model.inner[j as int].name,
                decreases j - i,
            {
                assert(model.inner[i as int] == self.inner[i as int]@);
                assert(model.inner[j as int] == self.inner[j as int]@);
                if self.inner[i].name == self.inner[j].name {
                    proof {
                        lemma_indistinct(model, model.inner.len());
                    }
                    return false;
                }
                i += 1;
            }
            j += 1;
        }
        assert(distinct_names(model, 0));
        let mut k: usize = 0;
        while k < self.inner.len()
            invariant
                k <= self.inner.len(),
                model == self@,
                model.inner == defs_of(self.inner@),
                distinct_names(model, 0),
                distinct_names(model, k as nat),
            decreases self.inner.len() - k,
        {
            assert(model.inner[k as int] == self.inner[k as int]@);
            if !self.inner[k].has_distinct_names() {
                proof {
                    lemma_indistinct_inner(model, model.inner.len(), k as int);
                }
                return false;
            }
            k += 1;
        }
        true
    }
}

/// Names that clash in the definition itself clash whatever the module
/// holds.
pub proof fn lemma_indistinct(d: DefModel, n: nat)
    requires
        !distinct_names(d, 0),
    ensures
        !distinct_names(d, n),
    decreases n,
{
    if n > 0 && n <= d.inner.len() {
        lemma_indistinct(d, (n - 1) as nat);
    }
}

/// Names that clash in one of the first `n` definitions of the module clash
/// in the whole.
pub proof fn lemma_indistinct_inner(d: DefModel, n: nat, at: int)
    requires
        0 <= at < n <= d.inner.len(),
        !distinct_names(d.inner[at], d.inner[at].inner.len()),
    ensures
        !distinct_names(d, n),
    decreases n,
{
    if at < n - 1 {
        lemma_indistinct_inner(d, (n - 1) as nat, at);
    }
}

} // verus!
