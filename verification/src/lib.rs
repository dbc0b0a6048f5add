//! Ontology-driven extraction: schema generation, validation, normalisation and
//! Cypher query generation over a JSON document model.
use vstd::prelude::*;

pub mod text;
pub mod json;
pub mod persistence;
pub mod document;
pub mod baml_converter;
pub mod ontology;
pub mod extraction;

verus! {
}
