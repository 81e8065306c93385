//! Update builders for MongoDB documents, synthesized from annotated structure
//! definitions.
//!
//! A structure definition lists its fields, and each field may carry a
//! `mongo_ops(..)` annotation naming the update operations that are wanted for
//! it. From such a definition the library synthesizes the description of an
//! update builder, and a builder made from that description collects values and
//! assembles them into an update document with the buckets `$set`, `$push` and
//! `$pull`.
//!
//! - [`lexer`] and [`annotation`]: the grammar of the annotations' arguments.
//! - [`shape`]: which declared types are ordered sequences.
//! - [`synth`]: from a structure definition to the description of its builder,
//!   and the methods for nested fields.
//! - [`builder`]: the builder itself and the assembly of the document.
//! - [`document`]: what is taken from the `bson` crate.
//! - [`laws`]: what holds of every builder.

pub mod annotation;
pub mod builder;
pub mod document;
pub mod laws;
pub mod lexer;
pub mod shape;
pub mod synth;
pub mod text;

pub use crate::annotation::{FieldTypePair, MongoOps, NestedFieldsArgs, ParseError};
pub use crate::builder::{UpdateBuilder, UpdateError};
pub use crate::lexer::{is_identifier_text, tokenize, Token};
pub use crate::shape::{
    get_vec_inner_type, GenericArgument, PathArguments, PathSegment, TypeShape,
};
pub use crate::synth::{
    derive_mongo_update_builder, field_operations, mongo_nested_fields, slot_value_type,
    Attribute, BuilderSpec, Data, DeriveInput, Field, Fields, NestedField, NestedMethods,
    Operation, Slot, SynthError,
};
