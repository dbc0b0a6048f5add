//! Extraction: the BAML schema of a typed ontology, and the converter over raw
//! ontology documents that the extraction layer uses.
use vstd::prelude::*;

pub mod baml;
pub mod baml_converter;

pub use baml::BamlExtractor;

verus! {

/// A property of an extracted entity schema.
#[derive(Debug, Clone)]
pub struct PropertySpec {
    pub data_type: String,
    pub description: Option<String>,
}

/// The schema of one extracted entity: its name and properties by name.
#[derive(Debug, Clone)]
pub struct EntitySchema {
    pub name: String,
    pub properties: Vec<(String, PropertySpec)>,
}

impl EntitySchema {
    /// No two properties share a name, as in a map from names to properties.
    pub open spec fn has_distinct_property_names(&self) -> bool {
        forall|i: int, j: int|
            0 <= i < j < self.properties.len() ==> #[trigger] self.properties@[i].0@
                != #[trigger] self.properties@[j].0@
    }
}

} // verus!
