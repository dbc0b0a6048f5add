use rust_baml::extraction::BamlExtractor;
use rust_baml::ontology::{Entity, Ontology, PropertySpec, Relationship};

fn property(data_type: &str, description: Option<&str>) -> PropertySpec {
    PropertySpec {
        data_type: data_type.to_string(),
        description: description.map(|d| d.to_string()),
    }
}

fn ontology() -> Ontology {
    Ontology {
        nodes: vec![
            (
                "Person".to_string(),
                Entity {
                    description: Some("A person".to_string()),
                    properties: vec![
                        ("name".to_string(), property("string", Some("Full name"))),
                        ("age".to_string(), property("integer", None)),
                    ],
                },
            ),
            (
                "Company".to_string(),
                Entity {
                    description: None,
                    properties: vec![("name".to_string(), property("string", None))],
                },
            ),
        ],
        relationships: vec![(
            "worksAt".to_string(),
            Relationship { from: "Person".to_string(), to: "Company".to_string() },
        )],
    }
}

#[test]
fn generates_baml_from_ontology() {
    let ontology = ontology();
    let extractor = BamlExtractor::new(&ontology);

    let schema = extractor.generate_schema();

    assert!(schema.contains("class Person"));
    assert!(schema.contains("class Company"));
    assert!(schema.contains("source_id string"));
    assert!(schema.contains("class ExtractionResult"));
    assert!(schema.contains("person Person[]"));
}

#[test]
fn baml_schema_is_exact() {
    let ontology = ontology();
    let schema = BamlExtractor::new(&ontology).generate_schema();
    let expected = "class Person {\n  name string @description(#\"Full name\"#)\n  age int\n  source_id string\n  parent_source_ids string[]\n}\n\nclass Company {\n  name string\n  source_id string\n  parent_source_ids string[]\n}\n\ndynamic class ExtractionResult {\n  person Person[]\n  company Company[]\n}\n";
    assert_eq!(schema, expected);
}

#[test]
fn baml_schema_maps_every_property_type() {
    let ontology = Ontology {
        nodes: vec![(
            "Thing".to_string(),
            Entity {
                description: None,
                properties: vec![
                    ("a".to_string(), property("integer", None)),
                    ("b".to_string(), property("float", None)),
                    ("c".to_string(), property("boolean", None)),
                    ("d".to_string(), property("integer[]", None)),
                    ("e".to_string(), property("float[]", None)),
                    ("f".to_string(), property("boolean[]", None)),
                    ("g".to_string(), property("string[]", None)),
                    ("h".to_string(), property("date", None)),
                ],
            },
        )],
        relationships: vec![],
    };
    let schema = BamlExtractor::new(&ontology).generate_schema();
    for line in [
        "  a int\n", "  b float\n", "  c bool\n", "  d int[]\n", "  e float[]\n", "  f bool[]\n",
        "  g string[]\n", "  h string\n",
    ] {
        assert!(schema.contains(line), "missing {line:?}");
    }
    assert!(schema.contains("  thing Thing[]\n"));
}

#[test]
fn field_name_lowercases_the_first_character_only() {
    let ontology = Ontology {
        nodes: vec![
            ("ÉCOLE".to_string(), Entity { description: None, properties: vec![] }),
            ("JobTitle".to_string(), Entity { description: None, properties: vec![] }),
        ],
        relationships: vec![],
    };
    let schema = BamlExtractor::new(&ontology).generate_schema();
    assert!(schema.contains("  éCOLE ÉCOLE[]\n"));
    assert!(schema.contains("  jobTitle JobTitle[]\n"));
    assert_eq!(BamlExtractor::field_name_from("x", "Xyz"), "xyz");
    assert_eq!(BamlExtractor::field_name_from("x", ""), "");
}

#[test]
fn empty_ontology_has_only_the_result_class() {
    let ontology = Ontology { nodes: vec![], relationships: vec![] };
    let schema = BamlExtractor::new(&ontology).generate_schema();
    assert_eq!(schema, "dynamic class ExtractionResult {\n}\n");
}
