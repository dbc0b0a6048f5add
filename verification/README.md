# rust_baml

Ontology-driven extraction: an ontology describes node and relationship types;
from it the library generates the BAML schema that an extraction run fills in,
normalises the extracted payload (one UUID per logical `source_id`) and turns it
into Cypher statements for Neo4j.

The library under `src/` is written in Verus. Every function there carries a
contract over a mathematical model of its inputs (JSON values as `Json`, strings
as `Seq<char>`), and the laws that tie the functions together are public proof
functions:

- `json`: the JSON model, reading a JSON text into it (through `serde_json`), its
  compact text form, map-style `object_insert` and
  its laws (`well_formed`: every object has sorted, distinct keys, and inserts
  keep it so; a read after a write gives what was written).
- `text`: character-sequence helpers (joining, ASCII case, quote escaping).
- `ontology`: the typed ontology (`has_distinct_names`) and its validation,
  whose outcome does not depend on the order of the entries; the payload
  normaliser with its laws (one UUID per logical identifier, different
  identifiers get different UUIDs from distinct fresh ids, well-formed payloads
  stay well formed); and the converter over raw ontology documents with
  source-linked records, whose slugs have a fixed shape and are their own slugs.
- `extraction`: the BAML schema of a typed ontology and the converter used by
  the extraction layer.
- `baml_converter`, `document`: the converter over raw ontology documents and
  the document logic the converters share.
- `persistence`: the Cypher adapter for normalised payloads.

`app/` holds the command-line program, reading files into text, the serde and thiserror
types, and the call into the generated BAML client.
