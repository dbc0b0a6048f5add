use rust_baml::json::{json_text_exec, JsonValue};
use rust_baml::persistence::{CypherAdapter, PersistenceAdapter};

fn to_model(v: &serde_json::Value) -> JsonValue {
    match v {
        serde_json::Value::Null => JsonValue::Null,
        serde_json::Value::Bool(b) => JsonValue::Bool(*b),
        serde_json::Value::Number(n) => JsonValue::Number(n.to_string()),
        serde_json::Value::String(s) => JsonValue::String(s.clone()),
        serde_json::Value::Array(items) => JsonValue::Array(items.iter().map(to_model).collect()),
        serde_json::Value::Object(map) => {
            JsonValue::Object(map.iter().map(|(k, v)| (k.clone(), to_model(v))).collect())
        }
    }
}

fn parse(text: &str) -> JsonValue {
    to_model(&serde_json::from_str::<serde_json::Value>(text).unwrap())
}

#[test]
fn queries_are_exact() {
    let payload = parse(
        r#"{
            "Company": [ { "source_id": "c1", "name": "Acme", "parent_source_ids": [] } ],
            "Person": [ { "source_id": "p1", "name": "John \"JD\"", "age": 41, "tags": ["a"], "parent_source_ids": ["c1", "s1", "zz", 5] } ],
            "Skill": { "source_id": "s1", "name": "Rust", "verified": true, "level": null }
        }"#,
    );
    let out = CypherAdapter::new().generate_queries(&payload);
    let sp24 = " ".repeat(24);
    let sp26 = " ".repeat(26);
    let expected = format!(
        "MERGE (n:Company {{ source_id: \"c1\" }});\n\
SET n += {{ name: \"Acme\" }};\n\
MERGE (n:Person {{ source_id: \"p1\" }});\n\
SET n += {{ age: 41, name: \"John \\\"JD\\\"\", tags: \"[\\\"a\\\"]\" }};\n\
MERGE (n:Skill {{ source_id: \"s1\" }});\n\
SET n += {{ level: null, name: \"Rust\", verified: true }};\n\
MATCH (a:Person {{ source_id: \"p1\" }}),\n{sp24}(b:Company {{ source_id: \"c1\" }}){sp26}MERGE (a)-[:WORKS_AT]->(b);\n\
MATCH (a:Person {{ source_id: \"p1\" }}),\n{sp24}(b:Skill {{ source_id: \"s1\" }}){sp26}MERGE (a)-[:HAS_SKILL]->(b);"
    );
    assert_eq!(out, expected);
}

#[test]
fn records_without_source_id_are_skipped() {
    let payload = parse(r#"{ "Thing": [ { "name": "x" }, 3, "s" ] }"#);
    assert_eq!(CypherAdapter::new().generate_queries(&payload), "");
}

#[test]
fn non_object_payload_gives_no_text() {
    assert_eq!(CypherAdapter::default().generate_queries(&parse("[1, 2]")), "");
}

#[test]
fn later_records_win_the_label_of_an_id() {
    let payload = parse(
        r#"{ "A": { "source_id": "x" }, "B": { "source_id": "x" }, "C": { "source_id": "c", "parent_source_ids": ["x"] } }"#,
    );
    let out = CypherAdapter::new().generate_queries(&payload);
    assert!(out.contains("(b:B { source_id: \"x\" })"));
    assert!(out.contains("MERGE (a)-[:RELATED_TO]->(b);"));
}

#[test]
fn json_text_matches_serde_json() {
    for text in [
        r#"{"b":[1,2.5,-3,"x\"y\\z"],"a":{"n":null,"t":true,"f":false},"c":"tab\there\u0001\u001f\u007f é"}"#,
        r#"[]"#,
        r#"{}"#,
        r#""\b\f\n\r""#,
    ] {
        let value: serde_json::Value = serde_json::from_str(text).unwrap();
        assert_eq!(json_text_exec(&to_model(&value)), value.to_string());
    }
}
