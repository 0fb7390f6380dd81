//! Typed constants from TOML documents.
//!
//! A template document and at most one of several override documents are
//! merged; the shape of the merged document is taken as a schema; every
//! array of the schema is unified to a single element schema; tables whose
//! values all have the same schema become table maps; and the schema and the
//! document together give the definitions of record types and one constant
//! value of those types.
//!
//! - [`value`] holds the document, [`schema`] its type-level projection, and
//!   [`entries`] what both know of ordered tables.
//! - [`parse`] reads documents, [`merge`] merges them and chooses the
//!   override, [`generator`] does the same for the documents of a build.
//! - [`fill`] goes from documents to schemas and back, [`normalize`] unifies
//!   arrays, [`reduce`] finds table maps with the equality of [`equality`],
//!   and [`check`] compares documents for shape drift.
//! - [`ident`], [`typedef`] and [`instantiate`] derive identifiers, record
//!   definitions and literals; [`generate`] runs all steps on a document,
//!   which [`pipeline`] shows to fit together; [`custom_struct`] derives
//!   definitions and literals from a document alone; [`datetime`] holds the
//!   records that the constants are made of.
//! - [`message`] writes errors out, [`validate`] tests what the functions
//!   ask of their arguments, and [`cli`], [`input`] and [`paths`] serve the
//!   command-line tool and the macros.

pub mod check;
pub mod cli;
pub mod consts;
pub mod custom_struct;
pub mod datetime;
pub mod entries;
pub mod equality;
pub mod fill;
pub mod generate;
pub mod generator;
pub mod ident;
pub mod input;
pub mod instantiate;
pub mod merge;
pub mod message;
pub mod normalize;
pub mod parse;
pub mod paths;
pub mod pipeline;
pub mod reduce;
pub mod schema;
pub mod typedef;
pub mod validate;
pub mod value;

pub use check::{check, check_unauthorized_keys, compare_table_schema, CheckError};
pub use datetime::{Array, Empty, LocalDate, LocalDateTime, LocalTime, OffsetDateTime};
pub use normalize::NormalizationError;
pub use schema::TomlValue;
pub use value::{Date, Datetime, Item, Offset, Table, Time};
