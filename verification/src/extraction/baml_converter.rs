//! Converts a raw ontology document into the BAML adapter that the extraction layer
//! feeds to the model. The document stays the source of truth; the adapter is
//! generated from it.
use vstd::prelude::*;
use crate::json::{JsonParseError, parsed_json, read_json, well_formed};
use crate::json::{Json, JsonValue};
use crate::document::{
    members_exec, relationships, relationship_descriptions, relationship_descriptions_exec,
    source_schema, source_schema_exec,
};
use crate::text::views;

verus! {

/// A converter over one ontology document.
#[derive(Debug, Clone)]
pub struct BamlConverter {
    data: JsonValue,
}

impl Default for BamlConverter {
    /// A converter over the `null` document.
    fn default() -> (r: Self)
        ensures
            r.document() == Json::Null,
    {
        BamlConverter { data: JsonValue::Null }
    }
}

impl BamlConverter {
    /// The ontology document this converter reads.
    pub closed spec fn document(&self) -> Json {
        self.data@
    }

    /// A converter over an ontology document.
    pub fn from_json(data: JsonValue) -> (r: Self)
        ensures
            r.document() == data@,
    {
        BamlConverter { data }
    }

    /// A converter over the ontology document that a JSON text holds, or the
    /// parser's error where the text is not JSON.
    pub fn from_text(text: &str) -> (r: Result<Self, JsonParseError>)
        ensures
            match r {
                Ok(c) => parsed_json(text@) == Some(c.document()) && well_formed(c.document()),
                Err(_) => parsed_json(text@) is None,
            },
    {
        match read_json(text) {
            Ok(data) => Ok(BamlConverter { data }),
            Err(e) => Err(e),
        }
    }

    /// The relationship descriptions of one node.
    fn relationship_descriptions_for_node(&self, node_name: &str) -> (r: Vec<String>)
        ensures
            views(r@) == relationship_descriptions(relationships(self.document()), node_name@),
    {
        let empty: Vec<(String, JsonValue)> = Vec::new();
        let rels = members_exec(&self.data, "relationships", &empty);
        relationship_descriptions_exec(rels, node_name)
    }

    /// The BAML adapter of the document (see `source_schema`).
    pub fn generate(&self) -> (r: String)
        ensures
            r@ == source_schema(self.document()),
    {
        source_schema_exec(&self.data)
    }
}

} // verus!
