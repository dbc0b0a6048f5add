use rust_baml::ontology::{Entity, Ontology, OntologyError, PropertySpec, Relationship};

fn entity(props: &[(&str, &str)]) -> Entity {
    Entity {
        description: None,
        properties: props
            .iter()
            .map(|(n, t)| (n.to_string(), PropertySpec { data_type: t.to_string(), description: None }))
            .collect(),
    }
}

fn rel(from: &str, to: &str) -> Relationship {
    Relationship { from: from.to_string(), to: to.to_string() }
}

fn valid() -> Ontology {
    Ontology {
        nodes: vec![
            ("Person".to_string(), entity(&[("name", "string"), ("tags", "string[]")])),
            ("Company".to_string(), entity(&[("size", "integer"), ("score", "float"), ("public", "boolean")])),
        ],
        relationships: vec![("worksAt".to_string(), rel("Person", "Company"))],
    }
}

#[test]
fn valid_ontology_is_accepted() {
    assert!(valid().validate().is_ok());
}

#[test]
fn empty_ontology_is_rejected() {
    let o = Ontology { nodes: vec![], relationships: vec![] };
    let err = o.validate().unwrap_err();
    assert!(matches!(err, OntologyError::EmptyOntology));
    assert_eq!(err.message(), "ontology contains no nodes");
}

#[test]
fn blank_entity_name_is_rejected() {
    let mut o = valid();
    o.nodes.push((" \t".to_string(), entity(&[])));
    let err = o.validate().unwrap_err();
    match &err {
        OntologyError::InvalidEntityName(name) => assert_eq!(name, " \t"),
        other => panic!("unexpected {other:?}"),
    }
    assert_eq!(err.message(), "invalid entity name:  \t");
}

#[test]
fn unicode_white_space_counts_as_blank() {
    let o = Ontology { nodes: vec![("\u{3000}\u{a0}".to_string(), entity(&[]))], relationships: vec![] };
    assert!(matches!(o.validate(), Err(OntologyError::InvalidEntityName(_))));
}

#[test]
fn unsupported_property_type_is_rejected() {
    let mut o = valid();
    o.nodes[1].1.properties.push(("founded".to_string(), PropertySpec { data_type: "date".to_string(), description: None }));
    let err = o.validate().unwrap_err();
    match &err {
        OntologyError::UnsupportedPropertyType { entity, property, data_type } => {
            assert_eq!(entity, "Company");
            assert_eq!(property, "founded");
            assert_eq!(data_type, "date");
        }
        other => panic!("unexpected {other:?}"),
    }
    assert_eq!(err.message(), "unsupported property type 'date' for Company.founded");
}

#[test]
fn unknown_relationship_end_is_rejected() {
    let mut o = valid();
    o.relationships.push(("hasSkills".to_string(), rel("Person", "Skill")));
    let err = o.validate().unwrap_err();
    match &err {
        OntologyError::UnknownEntity { relationship, entity } => {
            assert_eq!(relationship, "hasSkills");
            assert_eq!(entity, "Skill");
        }
        other => panic!("unexpected {other:?}"),
    }
    assert_eq!(err.message(), "relationship 'hasSkills' references unknown entity 'Skill'");
}

#[test]
fn from_end_is_checked_before_to_end() {
    let mut o = valid();
    o.relationships = vec![("x".to_string(), rel("Ghost", "Phantom"))];
    match o.validate().unwrap_err() {
        OntologyError::UnknownEntity { entity, .. } => assert_eq!(entity, "Ghost"),
        other => panic!("unexpected {other:?}"),
    }
}

#[test]
fn blank_names_are_reported_before_bad_types() {
    let o = Ontology {
        nodes: vec![
            ("Thing".to_string(), entity(&[("x", "date")])),
            ("".to_string(), entity(&[])),
        ],
        relationships: vec![],
    };
    assert!(matches!(o.validate(), Err(OntologyError::InvalidEntityName(_))));
}
