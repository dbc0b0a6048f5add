use rust_baml::baml_converter::BamlConverter as Annotated;
use rust_baml::extraction::baml_converter::BamlConverter as Extraction;
use rust_baml::json::JsonValue;
use rust_baml::ontology::baml_converter::BamlConverter as Linking;
use rust_baml::ontology::baml_converter::slugify_exec;
use rust_baml::ontology::OntologyNormalizer;

fn s(text: &str) -> JsonValue {
    JsonValue::String(text.to_string())
}

fn obj(fields: Vec<(&str, JsonValue)>) -> JsonValue {
    JsonValue::Object(fields.into_iter().map(|(k, v)| (k.to_string(), v)).collect())
}

fn keys(v: &JsonValue) -> Vec<String> {
    match v {
        JsonValue::Object(fields) => fields.iter().map(|(k, _)| k.clone()).collect(),
        _ => Vec::new(),
    }
}

fn member<'a>(v: &'a JsonValue, key: &str) -> &'a JsonValue {
    match v {
        JsonValue::Object(fields) => &fields.iter().find(|(k, _)| k == key).unwrap().1,
        _ => panic!("not an object"),
    }
}

fn item(v: &JsonValue, i: usize) -> &JsonValue {
    match v {
        JsonValue::Array(items) => &items[i],
        _ => panic!("not an array"),
    }
}

fn text(v: &JsonValue) -> String {
    match v {
        JsonValue::String(t) => t.clone(),
        _ => panic!("not a string"),
    }
}

#[test]
fn slug_has_slug_shape_and_is_its_own_slug() {
    let slug = slugify_exec("  --Acme   Corp.!  Ünïon 42-- ");
    assert_eq!(slug, "acme-corp-n-on-42");
    assert_eq!(slugify_exec(&slug), slug);
    assert_eq!(slugify_exec("---"), "");
    assert_eq!(slugify_exec(""), "");
}

#[test]
fn different_source_ids_get_different_uuids_from_distinct_ids() {
    let payload = obj(vec![
        ("person", JsonValue::Array(vec![obj(vec![("source_id", s("p"))]), obj(vec![("source_id", s("q"))])])),
        ("company", obj(vec![("source_id", s("c"))])),
    ]);
    let ids: Vec<String> = ["u1", "u2", "u3"].iter().map(|t| t.to_string()).collect();
    let out = OntologyNormalizer::new().normalize_with_ids(&payload, &ids).unwrap();
    let p = text(member(item(member(&out, "person"), 0), "source_id"));
    let q = text(member(item(member(&out, "person"), 1), "source_id"));
    let c = text(member(item(member(&out, "company"), 0), "source_id"));
    assert_ne!(p, q);
    assert_ne!(p, c);
    assert_ne!(q, c);
}

#[test]
fn normalized_objects_keep_keys_in_order() {
    let payload = obj(vec![
        ("alpha", JsonValue::Array(vec![obj(vec![("name", s("A")), ("zz", s("z"))])])),
        ("zeta", obj(vec![("age", JsonValue::Number("3".to_string()))])),
    ]);
    let ids: Vec<String> = ["u1", "u2"].iter().map(|t| t.to_string()).collect();
    let out = OntologyNormalizer::new().normalize_with_ids(&payload, &ids).unwrap();
    assert_eq!(keys(&out), vec!["alpha", "zeta"]);
    assert_eq!(keys(item(member(&out, "alpha"), 0)), vec!["name", "parent_source_ids", "source_id", "zz"]);
    assert_eq!(keys(item(member(&out, "zeta"), 0)), vec!["age", "parent_source_ids", "source_id"]);
}

#[test]
fn default_converters_read_the_null_document() {
    assert_eq!(Annotated::default().generate(), Annotated::from_json(JsonValue::Null).generate());
    assert_eq!(Extraction::default().generate(), Extraction::from_json(JsonValue::Null).generate());
    assert_eq!(Linking::default().generate(), Linking::from_json(JsonValue::Null).generate());
    let copy = Linking::default().clone();
    assert_eq!(copy.generate(), Linking::default().generate());
}
