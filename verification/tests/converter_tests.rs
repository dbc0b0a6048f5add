use rust_baml::json::JsonValue;

const ONTOLOGY: &str = r#"{
  "nodes": {
    "Person": {
      "description": "A person",
      "properties": {
        "name": { "type": "string", "description": "Full name" },
        "email": { "type": "string", "description": "Email address" }
      }
    },
    "Company": {
      "description": "A company",
      "properties": {
        "name": { "type": "string", "description": "Company name" }
      }
    },
    "Skill": {
      "description": "A skill",
      "properties": {
        "name": { "type": "string", "description": "Skill name" }
      }
    }
  },
  "relationships": {
    "worksAt": { "from": "Person", "to": "Company" },
    "hasSkills": { "from": "Person", "to": "Skill" }
  }
}"#;

fn to_model(v: &serde_json::Value) -> JsonValue {
    match v {
        serde_json::Value::Null => JsonValue::Null,
        serde_json::Value::Bool(b) => JsonValue::Bool(*b),
        serde_json::Value::Number(n) => JsonValue::Number(n.to_string()),
        serde_json::Value::String(s) => JsonValue::String(s.clone()),
        serde_json::Value::Array(items) => JsonValue::Array(items.iter().map(to_model).collect()),
        serde_json::Value::Object(map) => {
            JsonValue::Object(map.iter().map(|(k, v)| (k.clone(), to_model(v))).collect())
        }
    }
}

fn parse(text: &str) -> JsonValue {
    to_model(&serde_json::from_str::<serde_json::Value>(text).unwrap())
}

fn ontology() -> JsonValue {
    parse(ONTOLOGY)
}

#[test]
fn baml_converter_generates_cypher_layer_from_ontology() {
    let converter = rust_baml::baml_converter::BamlConverter::from_json(ontology());
    let cypher = converter.generate_cypher_creation_layer();

    assert!(cypher.contains("MERGE (n:Person"));
    assert!(cypher.contains("MERGE (n:Company"));
    assert!(cypher.contains("MATCH (a:Person), (b:Company) MERGE (a)-[:WORKS_AT]->(b);"));
    assert!(cypher.contains("MATCH (a:Person), (b:Skill) MERGE (a)-[:HAS_SKILLS]->(b);"));
}

#[test]
fn baml_converter_generates_cypher_from_extracted_values() {
    let converter = rust_baml::baml_converter::BamlConverter::from_json(ontology());
    let extracted = parse(
        r#"{
            "person": [{ "name": "John Doe", "email": "john.doe@acme.com" }],
            "company": [{ "name": "Acme Corp" }],
            "skill": [{ "name": "Rust" }]
        }"#,
    );

    let cypher = converter.generate_cypher_from_extracted(&extracted);

    assert!(cypher.contains("MERGE (n:Person"));
    assert!(cypher.contains("name: \"John Doe\""));
    assert!(cypher.contains("email: \"john.doe@acme.com\""));
    assert!(cypher.contains("MERGE (n:Company"));
    assert!(cypher.contains("name: \"Acme Corp\""));
    assert!(cypher.contains("MATCH (a:Person), (b:Company) MERGE (a)-[:WORKS_AT]->(b);"));
}

#[test]
fn generates_cypher_layer_from_ontology() {
    let converter = rust_baml::ontology::baml_converter::BamlConverter::from_json(ontology());
    let cypher = converter.generate_cypher_creation_layer();

    assert!(cypher.contains("MERGE (n:Person"));
    assert!(cypher.contains("MERGE (n:Company"));
    assert!(cypher.contains("MATCH (a:Person), (b:Company) MERGE (a)-[:WORKS_AT]->(b);"));
    assert!(cypher.contains("MATCH (a:Person), (b:Skill) MERGE (a)-[:HAS_SKILLS]->(b);"));
}

#[test]
fn generates_cypher_from_extracted_values() {
    let converter = rust_baml::ontology::baml_converter::BamlConverter::from_json(ontology());
    let extracted = parse(
        r#"{
            "person": [{ "name": "John Doe", "email": "john.doe@acme.com" }],
            "company": [{ "name": "Acme Corp" }],
            "skill": [{ "name": "Rust" }]
        }"#,
    );
    assert!(converter.accepts_extraction(&extracted));

    let cypher = converter.generate_cypher_from_extracted(&extracted);

    assert!(cypher.contains("MERGE (n:Person"));
    assert!(cypher.contains("name: \"John Doe\""));
    assert!(cypher.contains("email: \"john.doe@acme.com\""));
    assert!(cypher.contains("MERGE (n:Company"));
    assert!(cypher.contains("name: \"Acme Corp\""));
    assert!(cypher.contains("MATCH (a:Person), (b:Company) MERGE (a)-[:WORKS_AT]->(b);"));
}

#[test]
fn generates_cypher_from_source_linked_objects() {
    let converter = rust_baml::ontology::baml_converter::BamlConverter::from_json(ontology());
    let extracted = parse(
        r#"{
            "company": {
                "source_id": "company:acme-corp",
                "name": "Acme Corporation"
            },
            "person": {
                "source_id": "person:john-doe",
                "name": "John Doe",
                "email": "john.doe@acme.com",
                "worksat": {
                    "source_id": "company:acme-corp",
                    "name": "Acme Corporation"
                },
                "hasskills": [
                    { "source_id": "skill:python", "name": "Python" },
                    { "source_id": "skill:rust", "name": "Rust" }
                ]
            }
        }"#,
    );
    assert!(converter.accepts_extraction(&extracted));

    let cypher = converter.generate_cypher_from_extracted(&extracted);

    assert!(cypher.contains("MERGE (n:Person {source_id: \"person:john-doe\""));
    assert!(cypher.contains("MERGE (n:Company {source_id: \"company:acme-corp\""));
    assert!(cypher.contains("MATCH (p:Person {source_id: \"person:john-doe\"}), (s:Skill {source_id: \"skill:python\"}) MERGE (p)-[:HAS_SKILLS]->(s);"));
    assert!(cypher.contains("MATCH (p:Person {source_id: \"person:john-doe\"}), (c:Company {source_id: \"company:acme-corp\"}) MERGE (p)-[:WORKS_AT]->(c);"));
}

#[test]
fn baml_converter_generates_normalized_entity_shape_for_person_company_and_skills() {
    let converter = rust_baml::extraction::baml_converter::BamlConverter::from_json(ontology());
    let generated = converter.generate();

    assert!(generated.contains("class Person"));
    assert!(!generated.contains("hasskills Skill[]"));
    assert!(!generated.contains("worksat Company"));
    assert!(generated.contains("parent_source_ids string[]"));
    assert!(generated.contains("worksAt -> Company"));
    assert!(generated.contains("hasSkills -> Skill"));
    assert!(generated.contains("person Person[]"));
    assert!(generated.contains("company Company[]"));
    assert!(generated.contains("skills Skill[]"));
    assert!(!generated.contains("skill Skill"));
}

#[test]
fn generates_normalized_entity_shape_for_person_company_and_skills() {
    let converter = rust_baml::ontology::baml_converter::BamlConverter::from_json(ontology());
    let generated = converter.generate();

    assert!(generated.contains("class Person"));
    assert!(!generated.contains("hasskills Skill[]"));
    assert!(!generated.contains("worksat Company"));
    assert!(generated.contains("parent_source_ids string[]"));
    assert!(generated.contains("worksAt -> Company"));
    assert!(generated.contains("hasSkills -> Skill"));
    assert!(generated.contains("person Person[]"));
    assert!(generated.contains("company Company[]"));
    assert!(generated.contains("skills Skill[]"));
    assert!(!generated.contains("skill Skill"));
}

#[test]
fn source_schema_is_exact_for_one_node() {
    let doc = parse(
        r#"{ "nodes": { "Skill": { "properties": { "name": { "type": "string", "description": "Skill name" } } } },
             "relationships": { "hasSkills": { "from": "Person", "to": "Skill" } } }"#,
    );
    let generated = rust_baml::extraction::baml_converter::BamlConverter::from_json(doc).generate();
    let expected = "class Skill {\n  name string @description(#\"Skill name\"#)\n  parent_source_ids string[] @description(#\"Stable source identifiers of all parent nodes via relationships: hasSkills <- Person\"#)\n  source_id string @description(#\"Stable source identifier for deduplication and parent mapping\"#)\n}\n\ndynamic class Result {\n  skills Skill[]\n}\n";
    assert_eq!(generated, expected);
}

#[test]
fn source_schema_keeps_declared_source_members() {
    let doc = parse(
        r#"{ "nodes": { "Thing": { "properties": { "source_id": { "type": "int" } } } } }"#,
    );
    let generated = rust_baml::ontology::baml_converter::BamlConverter::from_json(doc).generate();
    assert!(generated.contains("  source_id int @description(#\"\"#)"));
    assert!(generated.contains("Stable source identifiers of all parent nodes\"#)"));
    assert!(generated.contains("  thing Thing[]"));
}

#[test]
fn annotated_schema_is_exact() {
    let generated = rust_baml::baml_converter::BamlConverter::from_json(ontology()).generate();
    let expected = "/// A company\nclass Company {\n  /// Company name\n  name string\n}\n\n/// A person\nclass Person {\n  /// Email address\n  email string\n  /// Full name\n  name string\n  hasskills Skill[]\n  worksat Company\n}\n\n/// A skill\nclass Skill {\n  /// Skill name\n  name string\n}\n\n// Connect new classes to the @@dynamic Result class\ndynamic class Result {\n  company Company\n  person Person\n  skill Skill\n}\n";
    assert_eq!(generated, expected);
}

#[test]
fn creation_layers_are_exact() {
    let root = rust_baml::baml_converter::BamlConverter::from_json(ontology()).generate_cypher_creation_layer();
    assert_eq!(
        root,
        "MERGE (n:Company {name: $name});\nMERGE (n:Person {email: $email, name: $name});\nMERGE (n:Skill {name: $name});\nMATCH (a:Person), (b:Skill) MERGE (a)-[:HAS_SKILLS]->(b);\nMATCH (a:Person), (b:Company) MERGE (a)-[:WORKS_AT]->(b);"
    );
    let linked = rust_baml::ontology::baml_converter::BamlConverter::from_json(ontology()).generate_cypher_creation_layer();
    assert!(linked.starts_with("MERGE (n:Company {name: $name, parent_source_id: $parent_source_id, source_id: $source_id});"));
    let bare = rust_baml::baml_converter::BamlConverter::from_json(parse(r#"{ "nodes": { "Tag": {} } }"#))
        .generate_cypher_creation_layer();
    assert_eq!(bare, "MERGE (n:Tag);");
}

#[test]
fn extracted_without_anything_gives_the_comment() {
    let empty = parse("{}");
    let root = rust_baml::baml_converter::BamlConverter::from_json(empty).generate_cypher_from_extracted(&parse("{}"));
    assert_eq!(root, "// No extracted nodes or relationships were available.");
}

#[test]
fn extracted_record_without_known_properties_gives_bare_merge() {
    let converter = rust_baml::baml_converter::BamlConverter::from_json(ontology());
    let cypher = converter.generate_cypher_from_extracted(&parse(r#"{ "Skill": { "level": 3 } }"#));
    assert!(cypher.contains("MERGE (n:Skill));"));
}

#[test]
fn cypher_literals_cover_every_value() {
    let converter = rust_baml::baml_converter::BamlConverter::from_json(parse(
        r#"{ "nodes": { "T": { "properties": { "a": {}, "b": {}, "c": {}, "d": {}, "e": {}, "f": {} } } } }"#,
    ));
    let cypher = converter.generate_cypher_from_extracted(&parse(
        r#"{ "t": [{ "a": "say \"hi\"", "b": 42, "c": true, "d": null, "e": [1, "x", [false]], "f": { "k": 1 } }] }"#,
    ));
    assert_eq!(
        cypher,
        "MERGE (n:T {a: \"say \\\"hi\\\"\", b: 42, c: true, d: null, e: [1, \"x\", [false]], f: {}});"
    );
}

#[test]
fn relationship_names_become_upper_snake_case() {
    let doc = parse(
        r#"{ "nodes": {}, "relationships": {
            "worksAt": { "from": "A", "to": "B" },
            "HTTPLink": { "from": "A", "to": "B" },
            "has_skill": { "from": "A", "to": "B" },
            "dangling": { "from": "A" } } }"#,
    );
    let cypher = rust_baml::baml_converter::BamlConverter::from_json(doc).generate_cypher_creation_layer();
    assert_eq!(
        cypher,
        "MATCH (a:A), (b:B) MERGE (a)-[:HTTPLINK]->(b);\nMATCH (a:A), (b:B) MERGE (a)-[:HAS_SKILL]->(b);\nMATCH (a:A), (b:B) MERGE (a)-[:WORKS_AT]->(b);"
    );
}

#[test]
fn source_ids_fall_back_to_slugged_names() {
    let converter = rust_baml::ontology::baml_converter::BamlConverter::from_json(ontology());
    let extracted = parse(
        r#"{ "company": [{ "name": "  Acme, Corp.! " }, { "id": "   ", "name": "Beta" }, { "slug": "gamma" }],
             "person": [{ "sourceId": "p-1", "parent_source_id": "company:x", "email": "e@x" }] }"#,
    );
    assert!(converter.accepts_extraction(&extracted));
    let cypher = converter.generate_cypher_from_extracted(&extracted);
    assert!(cypher.contains("MERGE (n:Company {source_id: \"Company:acme-corp\", name: \"  Acme, Corp.! \"});"));
    assert!(cypher.contains("MERGE (n:Company {source_id: \"Company:beta\", name: \"Beta\"});"));
    assert!(cypher.contains("MERGE (n:Company {source_id: \"gamma\"});"));
    assert!(cypher.contains("MERGE (n:Person {source_id: \"p-1\", parent_source_ids: [\"company:x\"], email: \"e@x\"});"));
}

#[test]
fn parent_ids_need_a_first_pair() {
    let converter = rust_baml::ontology::baml_converter::BamlConverter::from_json(ontology());
    let extracted = parse(r#"{ "skill": [{ "parent_source_ids": ["person:1"] }] }"#);
    assert!(!converter.accepts_extraction(&extracted));
}

#[test]
fn converters_read_their_document_from_text() {
    let linking = rust_baml::ontology::baml_converter::BamlConverter::from_text(ONTOLOGY).unwrap();
    assert_eq!(
        linking.generate(),
        rust_baml::ontology::baml_converter::BamlConverter::from_json(ontology()).generate()
    );
    let annotated = rust_baml::baml_converter::BamlConverter::from_text(ONTOLOGY).unwrap();
    assert_eq!(
        annotated.generate(),
        rust_baml::baml_converter::BamlConverter::from_json(ontology()).generate()
    );
    let extraction = rust_baml::extraction::baml_converter::BamlConverter::from_text(ONTOLOGY).unwrap();
    assert_eq!(
        extraction.generate(),
        rust_baml::extraction::baml_converter::BamlConverter::from_json(ontology()).generate()
    );
}

#[test]
fn converters_reject_text_that_is_not_json() {
    let err = rust_baml::ontology::baml_converter::BamlConverter::from_text("{ \"nodes\": ").unwrap_err();
    assert!(err.error.is_eof());
    assert!(rust_baml::baml_converter::BamlConverter::from_text("nodes").is_err());
    assert!(rust_baml::extraction::baml_converter::BamlConverter::from_text("[1,]").is_err());
}
