use rust_baml::json::{object_insert_exec, JsonValue};

fn keys(fields: &[(String, JsonValue)]) -> Vec<&str> {
    fields.iter().map(|(k, _)| k.as_str()).collect()
}

#[test]
fn insert_keeps_keys_in_order_and_replaces() {
    let mut fields: Vec<(String, JsonValue)> = Vec::new();
    for k in ["source_id", "name", "parent_source_ids", "age", "name"] {
        object_insert_exec(&mut fields, k.to_string(), JsonValue::String(k.to_uppercase()));
    }
    assert_eq!(keys(&fields), vec!["age", "name", "parent_source_ids", "source_id"]);
    object_insert_exec(&mut fields, "age".to_string(), JsonValue::Bool(true));
    assert!(matches!(fields[0].1, JsonValue::Bool(true)));
    assert_eq!(fields.len(), 4);
}

#[test]
fn insert_orders_like_a_sorted_map() {
    let mut fields: Vec<(String, JsonValue)> = Vec::new();
    let mut map = std::collections::BTreeMap::new();
    for k in ["b", "B", "ab", "a", "é", "z", "", "aa"] {
        object_insert_exec(&mut fields, k.to_string(), JsonValue::Null);
        map.insert(k.to_string(), ());
    }
    let expected: Vec<&str> = map.keys().map(|k| k.as_str()).collect();
    assert_eq!(keys(&fields), expected);
}

#[test]
fn get_reads_members_of_objects_only() {
    let mut fields: Vec<(String, JsonValue)> = Vec::new();
    object_insert_exec(&mut fields, "k".to_string(), JsonValue::String("v".to_string()));
    let obj = JsonValue::Object(fields);
    assert_eq!(obj.get_str("k"), Some("v"));
    assert!(obj.get("missing").is_none());
    assert!(JsonValue::Array(vec![]).get("k").is_none());
    assert_eq!(obj.copy().get_str("k"), Some("v"));
}

#[test]
fn read_json_gives_sorted_objects_and_number_text() {
    let v = rust_baml::json::read_json(r#"{ "b": 1.5, "a": [true, null, "x"], "a": {"z": 2, "y": -3} }"#).unwrap();
    match v {
        JsonValue::Object(fields) => {
            assert_eq!(keys(&fields), vec!["a", "b"]);
            match &fields[1].1 {
                JsonValue::Number(n) => assert_eq!(n, "1.5"),
                _ => panic!("number expected"),
            }
            match &fields[0].1 {
                JsonValue::Object(inner) => assert_eq!(keys(inner), vec!["y", "z"]),
                _ => panic!("object expected"),
            }
        }
        _ => panic!("object expected"),
    }
    assert!(rust_baml::json::read_json("{").is_err());
}
