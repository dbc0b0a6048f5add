use rust_baml::json::JsonValue;
use rust_baml::ontology::OntologyNormalizer;

fn to_model(v: &serde_json::Value) -> JsonValue {
    match v {
        serde_json::Value::Null => JsonValue::Null,
        serde_json::Value::Bool(b) => JsonValue::Bool(*b),
        serde_json::Value::Number(n) => JsonValue::Number(n.to_string()),
        serde_json::Value::String(s) => JsonValue::String(s.clone()),
        serde_json::Value::Array(items) => JsonValue::Array(items.iter().map(to_model).collect()),
        serde_json::Value::Object(map) => {
            JsonValue::Object(map.iter().map(|(k, v)| (k.clone(), to_model(v))).collect())
        }
    }
}

fn from_model(v: &JsonValue) -> serde_json::Value {
    match v {
        JsonValue::Null => serde_json::Value::Null,
        JsonValue::Bool(b) => serde_json::Value::Bool(*b),
        JsonValue::Number(n) => serde_json::from_str(n).unwrap(),
        JsonValue::String(s) => serde_json::Value::String(s.clone()),
        JsonValue::Array(items) => serde_json::Value::Array(items.iter().map(from_model).collect()),
        JsonValue::Object(fields) => serde_json::Value::Object(
            fields.iter().map(|(k, v)| (k.clone(), from_model(v))).collect(),
        ),
    }
}

fn parse(text: &str) -> JsonValue {
    to_model(&serde_json::from_str::<serde_json::Value>(text).unwrap())
}

fn is_uuid_v4(s: &str) -> bool {
    let b: Vec<char> = s.chars().collect();
    b.len() == 36
        && b.iter().enumerate().all(|(i, c)| {
            if [8, 13, 18, 23].contains(&i) {
                *c == '-'
            } else {
                c.is_ascii_digit() || ('a'..='f').contains(c)
            }
        })
        && b[14] == '4'
        && ['8', '9', 'a', 'b'].contains(&b[19])
}

const PAYLOAD: &str = r#"{
    "company": { "source_id": "company_1", "name": "Acme" },
    "person": [
        { "source_id": "person_1", "name": "John", "parent_source_ids": ["company_1", 7, "skill_1"] },
        { "name": "Jane" }
    ],
    "skill": [ { "source_id": "skill_1", "name": "Rust" } ],
    "note": "dropped"
}"#;

#[test]
fn normalize_with_ids_is_exact() {
    let ids: Vec<String> = ["u1", "u2", "u3", "u4", "u5"].iter().map(|s| s.to_string()).collect();
    let out = OntologyNormalizer::new().normalize_with_ids(&parse(PAYLOAD), &ids).unwrap();
    let expected: serde_json::Value = serde_json::from_str(
        r#"{
            "company": [ { "source_id": "u1", "name": "Acme", "parent_source_ids": [] } ],
            "person": [
                { "source_id": "u2", "name": "John", "parent_source_ids": ["u1", "u3"] },
                { "source_id": "u4", "name": "Jane", "parent_source_ids": [] }
            ],
            "skill": [ { "source_id": "u3", "name": "Rust", "parent_source_ids": [] } ]
        }"#,
    )
    .unwrap();
    assert_eq!(from_model(&out), expected);
}

#[test]
fn normalize_with_too_few_ids_gives_nothing() {
    let ids: Vec<String> = ["u1", "u2", "u3"].iter().map(|s| s.to_string()).collect();
    assert!(OntologyNormalizer::new().normalize_with_ids(&parse(PAYLOAD), &ids).is_none());
    let four: Vec<String> = ["u1", "u2", "u3", "u4"].iter().map(|s| s.to_string()).collect();
    assert!(OntologyNormalizer::new().normalize_with_ids(&parse(PAYLOAD), &four).is_some());
}

#[test]
fn normalize_gives_one_uuid_per_logical_id() {
    let out = from_model(&OntologyNormalizer::new().normalize(&parse(PAYLOAD)));
    let company = out["company"][0]["source_id"].as_str().unwrap();
    let john = &out["person"][0];
    let jane = &out["person"][1];
    let skill = out["skill"][0]["source_id"].as_str().unwrap();
    assert!(is_uuid_v4(company));
    assert!(is_uuid_v4(skill));
    assert!(is_uuid_v4(jane["source_id"].as_str().unwrap()));
    assert_eq!(john["parent_source_ids"][0].as_str().unwrap(), company);
    assert_eq!(john["parent_source_ids"][1].as_str().unwrap(), skill);
    assert_ne!(company, skill);
    assert_ne!(jane["source_id"], john["source_id"]);
    assert!(out.get("note").is_none());
}

#[test]
fn same_source_id_in_one_array_gets_same_uuid() {
    let payload = parse(r#"{ "person": [ { "source_id": "p" }, { "source_id": "p" }, { "source_id": "q" } ] }"#);
    let out = from_model(&OntologyNormalizer::new().normalize(&payload));
    assert_eq!(out["person"][0]["source_id"], out["person"][1]["source_id"]);
    assert_ne!(out["person"][0]["source_id"], out["person"][2]["source_id"]);
}

#[test]
fn parent_seen_before_its_record_gets_the_same_uuid() {
    let payload = parse(r#"{ "a": [ { "parent_source_ids": ["x"] } ], "b": { "source_id": "x" } }"#);
    let ids: Vec<String> = ["r1", "x1", "r2"].iter().map(|s| s.to_string()).collect();
    let out = from_model(&OntologyNormalizer::new().normalize_with_ids(&payload, &ids).unwrap());
    assert_eq!(out["a"][0]["source_id"], "r1");
    assert_eq!(out["a"][0]["parent_source_ids"][0], "x1");
    assert_eq!(out["b"][0]["source_id"], "x1");
}

#[test]
fn non_object_payloads_are_unchanged() {
    let payload = parse(r#"[1, "two", null]"#);
    let ids: Vec<String> = vec![];
    let out = OntologyNormalizer::new().normalize_with_ids(&payload, &ids).unwrap();
    assert_eq!(from_model(&out), serde_json::from_str::<serde_json::Value>(r#"[1, "two", null]"#).unwrap());
}

#[test]
fn non_object_records_are_kept_as_they_are() {
    let payload = parse(r#"{ "tags": ["plain", 3] }"#);
    let ids: Vec<String> = vec![];
    let out = OntologyNormalizer::new().normalize_with_ids(&payload, &ids).unwrap();
    assert_eq!(from_model(&out), serde_json::from_str::<serde_json::Value>(r#"{ "tags": ["plain", 3] }"#).unwrap());
}

#[test]
fn same_source_id_in_different_members_gets_same_uuid() {
    let payload = parse(
        r#"{ "employer": { "source_id": "acme" }, "company": [ { "source_id": "acme" } ], "person": [ { "parent_source_ids": ["acme"] } ] }"#,
    );
    let out = from_model(&OntologyNormalizer::new().normalize(&payload));
    let company = out["company"][0]["source_id"].as_str().unwrap();
    assert!(is_uuid_v4(company));
    assert_eq!(out["employer"][0]["source_id"].as_str().unwrap(), company);
    assert_eq!(out["person"][0]["parent_source_ids"][0].as_str().unwrap(), company);
    assert_ne!(out["person"][0]["source_id"].as_str().unwrap(), company);
}
