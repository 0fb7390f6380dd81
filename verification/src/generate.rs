//! From a merged document to the definitions of its record types and its
//! constant value.

use vstd::prelude::*;
use crate::check::{check_unauthorized_keys, has_empty_key};
use crate::fill::{filled, lemma_shape_is_plain, shape};
use crate::instantiate::{instance, Literal};
use crate::normalize::{
    lemma_normalize_gives_normal_form, normalize, NormalizationError,
};
use crate::pipeline::{lemma_document_conforms, lemma_filled_is_instantiable};
use crate::reduce::{lemma_reduce_preserves, reduce};
use crate::schema::{Schema, TomlValue};
use crate::typedef::{defined, definition, Definition};
use crate::validate::table_is_well_formed;
use crate::value::{clone_table, lemma_doc_table, table_of, Doc, Item, Table};

verus! {

/// Why nothing is generated from a document.
#[derive(Debug)]
pub enum GenerationError {
    /// A key occurs twice in a table.
    DuplicateKey,
    /// The empty string is used as a key.
    InvalidKey,
    /// A datetime has no component.
    UnsupportedDatetime,
    /// The elements of an array do not unify.
    ValueMismatch(NormalizationError),
}

/// What is generated from a document.
#[derive(Debug)]
pub struct Generated {
    /// The normalized and reduced schema of the document
    pub schema: TomlValue,
    /// The document filled up to the normalized schema
    pub value: Item,
    /// The definition of the record type of the document, with those of the
    /// tables in it
    pub definitions: Option<Definition>,
    /// The constant value
    pub instantiation: Literal,
}

/// Resolved datetimes have a component.
pub proof fn lemma_resolved_is_present(s: Schema)
    requires
        s.datetimes_resolved(),
    ensures
        s.datetimes_present(),
    decreases s,
{
    match s {
        Schema::Array(items) => {
            assert forall|i: int| 0 <= i < items.len() implies (
            #[trigger] items[i]).datetimes_present() by {
                lemma_resolved_is_present(items[i]);
            }
        },
        Schema::Table(entries) => {
            assert forall|i: int| 0 <= i < entries.len() implies (
            #[trigger] entries[i]).1.datetimes_present() by {
                lemma_resolved_is_present(entries[i].1);
            }
        },
        Schema::TableMap { keys, shared } => {
            lemma_resolved_is_present(*shared);
        },
        _ => {},
    }
}

/// Generates the definitions and the constant value of a document, which is
/// given the name `name`.
///
/// The document is refused where a key occurs twice, where a key is empty,
/// where a datetime has no component, and where normalization fails.
/// Otherwise its schema is normalized and reduced, the document is filled
/// up to the normalized schema, the definitions are those that the reduced
/// schema asks for, and the value is the filled document written out along
/// the reduced schema.
pub fn generate(table: &Table, name: &str) -> (res: Result<Generated, GenerationError>)
    ensures
        match res {
            Ok(generated) => {
                &&& Doc::Table(table_of(table@)).well_formed()
                &&& !has_empty_key(table_of(table@))
                &&& shape(Doc::Table(table_of(table@))).datetimes_present()
                &&& normalize(shape(Doc::Table(table_of(table@)))) is Ok
                &&& generated.schema@ == reduce(normalize(shape(Doc::Table(table_of(table@))))->Ok_0)
                &&& generated.value@ == filled(
                    normalize(shape(Doc::Table(table_of(table@))))->Ok_0,
                    Doc::Table(table_of(table@)),
                )
                &&& defined(generated.definitions) == definition(generated.schema@, name@)
                &&& generated.instantiation@ == instance(
                    generated.value@,
                    name@,
                    generated.schema@,
                    Seq::empty(),
                )
            },
            Err(GenerationError::DuplicateKey) => !Doc::Table(table_of(table@)).well_formed(),
            Err(GenerationError::InvalidKey) => Doc::Table(table_of(table@)).well_formed()
                && has_empty_key(table_of(table@)),
            Err(GenerationError::UnsupportedDatetime) => Doc::Table(table_of(table@)).well_formed()
                && !has_empty_key(table_of(table@)) && !shape(
                Doc::Table(table_of(table@)),
            ).datetimes_present(),
            Err(GenerationError::ValueMismatch(e)) => Doc::Table(table_of(table@)).well_formed()
                && !has_empty_key(table_of(table@)) && shape(
                Doc::Table(table_of(table@)),
            ).datetimes_present() && normalize(shape(Doc::Table(table_of(table@))))
                == Err::<Schema, crate::normalize::Mismatch>(e@),
        },
{
    let ghost d = Doc::Table(table_of(table@));
    if !table_is_well_formed(table) {
        return Err(GenerationError::DuplicateKey);
    }
    if check_unauthorized_keys(table).is_err() {
        return Err(GenerationError::InvalidKey);
    }
    let schema = TomlValue::from_table(table);
    proof {
        lemma_shape_is_plain(d);
    }
    if !schema.has_present_datetimes() {
        return Err(GenerationError::UnsupportedDatetime);
    }
    let normalized = match schema.normalized() {
        Ok(normalized) => normalized,
        Err(e) => {
            return Err(GenerationError::ValueMismatch(e));
        },
    };
    let copy = clone_table(table);
    proof {
        lemma_doc_table(copy);
    }
    let mut value = Item::Table(copy);
    proof {
        assert(value@ == d);
        lemma_normalize_gives_normal_form(shape(d));
        lemma_document_conforms(d);
        lemma_filled_is_instantiable(d);
        lemma_reduce_preserves(normalized@);
        lemma_resolved_is_present(reduce(normalized@));
    }
    normalized.normalize_toml(&mut value);
    let reduced = normalized.reduced();
    let definitions = reduced.definition(name);
    let parents: Vec<String> = Vec::new();
    assert(crate::schema::texts(parents@) =~= Seq::empty());
    let instantiation = value.instantiate(name, &reduced, &parents);
    Ok(Generated { schema: reduced, value, definitions, instantiation })
}

} // verus!
