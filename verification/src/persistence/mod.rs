//! Turning normalised extraction payloads into database statements.
use vstd::prelude::*;
use crate::json::JsonValue;

pub mod cypher;

pub use cypher::CypherAdapter;

verus! {

/// A target that can turn a normalised payload into statements.
pub trait PersistenceAdapter {
    fn generate_queries(&self, payload: &JsonValue) -> String;
}

} // verus!
