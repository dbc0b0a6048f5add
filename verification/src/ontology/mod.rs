//! The ontology: its typed model, the normaliser of extracted payloads, and the
//! converter over raw ontology documents.
pub mod baml_converter;
pub mod model;
pub mod normalizer;

pub use model::{Entity, Ontology, OntologyError, PropertySpec, Relationship};
pub use normalizer::OntologyNormalizer;
