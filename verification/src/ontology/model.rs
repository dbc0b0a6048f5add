//! The typed ontology: nodes with typed properties, and relationships between nodes.
use vstd::prelude::*;
use crate::text::{is_blank, is_blank_exec, owned, str_eq};

verus! {

/// A property of an entity: its data type and an optional description.
#[derive(Debug, Clone)]
pub struct PropertySpec {
    pub data_type: String,
    pub description: Option<String>,
}

/// A node type of the ontology.
#[derive(Debug, Clone)]
pub struct Entity {
    pub description: Option<String>,
    /// The properties, by name, in the order they are listed.
    pub properties: Vec<(String, PropertySpec)>,
}

/// A relationship type between two node types.
#[derive(Debug, Clone)]
pub struct Relationship {
    pub from: String,
    pub to: String,
}

/// An ontology: node types and relationship types, each by name.
#[derive(Debug, Clone)]
pub struct Ontology {
    pub nodes: Vec<(String, Entity)>,
    pub relationships: Vec<(String, Relationship)>,
}

/// Why an ontology is rejected.
#[derive(Debug, Clone)]
pub enum OntologyError {
    EmptyOntology,
    InvalidEntityName(String),
    UnknownEntity { relationship: String, entity: String },
    UnsupportedPropertyType { entity: String, property: String, data_type: String },
}

/// The property types the ontology accepts.
pub open spec fn supported_type(t: Seq<char>) -> bool {
    ||| t == "string"@
    ||| t == "integer"@
    ||| t == "float"@
    ||| t == "boolean"@
    ||| t == "string[]"@
    ||| t == "integer[]"@
    ||| t == "float[]"@
    ||| t == "boolean[]"@
}

/// A list type is supported exactly when it lists a supported type that is not
/// itself a list: `T[]` for each of the scalar types `string`, `integer`, `float`
/// and `boolean`, and no list of lists.
pub proof fn law_list_types_follow_element_types(t: Seq<char>)
    ensures
        supported_type(t + "[]"@) == (supported_type(t) && (t.len() == 0 || t.last() != ']')),
{
    reveal_strlit("[]");
    reveal_strlit("string");
    reveal_strlit("integer");
    reveal_strlit("float");
    reveal_strlit("boolean");
    reveal_strlit("string[]");
    reveal_strlit("integer[]");
    reveal_strlit("float[]");
    reveal_strlit("boolean[]");
    let u = t + "[]"@;
    assert(u.len() == t.len() + 2);
    assert(u.take(t.len() as int) =~= t);
    assert(u[u.len() - 1] == ']');
    assert(u[u.len() - 2] == '[');
    if t.len() > 0 {
        assert(u[t.len() - 1] == t.last());
    }
    assert("string[]"@.take(6) =~= "string"@);
    assert("integer[]"@.take(7) =~= "integer"@);
    assert("float[]"@.take(5) =~= "float"@);
    assert("boolean[]"@.take(7) =~= "boolean"@);
    if t == "string"@ {
        assert(u =~= "string[]"@);
    }
    if t == "integer"@ {
        assert(u =~= "integer[]"@);
    }
    if t == "float"@ {
        assert(u =~= "float[]"@);
    }
    if t == "boolean"@ {
        assert(u =~= "boolean[]"@);
    }
}

pub fn supported_type_exec(t: &str) -> (r: bool)
    ensures
        r == supported_type(t@),
{
    str_eq(t, "string") || str_eq(t, "integer") || str_eq(t, "float") || str_eq(t, "boolean")
        || str_eq(t, "string[]") || str_eq(t, "integer[]") || str_eq(t, "float[]") || str_eq(
        t,
        "boolean[]",
    )
}

impl Ontology {
    /// The name of node `i`.
    pub open spec fn node_name(&self, i: int) -> Seq<char> {
        self.nodes@[i].0@
    }

    /// Node `i` has a blank name.
    pub open spec fn blank_name(&self, i: int) -> bool {
        0 <= i < self.nodes.len() && is_blank(self.node_name(i))
    }

    /// Property `j` of node `i` has an unsupported type.
    pub open spec fn bad_property(&self, i: int, j: int) -> bool {
        &&& 0 <= i < self.nodes.len()
        &&& 0 <= j < self.nodes@[i].1.properties.len()
        &&& !supported_type(self.nodes@[i].1.properties@[j].1.data_type@)
    }

    /// Some node is named `name`.
    pub open spec fn is_node(&self, name: Seq<char>) -> bool {
        exists|k: int| 0 <= k < self.nodes.len() && self.node_name(k) == name
    }

    /// One end of relationship `i`: its `to` when `to_end`, else its `from`.
    pub open spec fn end(&self, i: int, to_end: bool) -> Seq<char> {
        if to_end {
            self.relationships@[i].1.to@
        } else {
            self.relationships@[i].1.from@
        }
    }

    /// That end of relationship `i` names no node.
    pub open spec fn unknown_end(&self, i: int, to_end: bool) -> bool {
        0 <= i < self.relationships.len() && !self.is_node(self.end(i, to_end))
    }

    pub open spec fn has_blank_name(&self) -> bool {
        exists|i: int| self.blank_name(i)
    }

    pub open spec fn has_bad_property(&self) -> bool {
        exists|i: int, j: int| self.bad_property(i, j)
    }

    pub open spec fn has_unknown_end(&self) -> bool {
        exists|i: int, e: bool| self.unknown_end(i, e)
    }

    /// The ontology is accepted: it has nodes, no blank node name, only supported
    /// property types, and every relationship joins known nodes.
    pub open spec fn is_valid(&self) -> bool {
        &&& self.nodes.len() > 0
        &&& !self.has_blank_name()
        &&& !self.has_bad_property()
        &&& !self.has_unknown_end()
    }

    /// Checks the ontology. The checks run in order: no nodes; then the first node
    /// with a blank name; then the first property (node by node) of an unsupported
    /// type; then the first relationship end (`from` before `to`) that names no node.
    pub fn validate(&self) -> (r: Result<(), OntologyError>)
        ensures
            match r {
                Ok(()) => self.is_valid(),
                Err(OntologyError::EmptyOntology) => self.nodes.len() == 0,
                Err(OntologyError::InvalidEntityName(name)) => {
                    &&& self.nodes.len() > 0
                    &&& exists|i: int|
                        #![trigger self.blank_name(i)]
                        self.blank_name(i) && name@ == self.node_name(i) && forall|k: int|
                            0 <= k < i ==> !self.blank_name(k)
                },
                Err(OntologyError::UnsupportedPropertyType { entity, property, data_type }) => {
                    &&& self.nodes.len() > 0
                    &&& !self.has_blank_name()
                    &&& exists|i: int, j: int|
                        #![trigger self.bad_property(i, j)]
                        {
                            &&& self.bad_property(i, j)
                            &&& entity@ == self.node_name(i)
                            &&& property@ == self.nodes@[i].1.properties@[j].0@
                            &&& data_type@ == self.nodes@[i].1.properties@[j].1.data_type@
                            &&& forall|a: int, b: int|
                                #[trigger] self.bad_property(a, b) ==> (a > i || (a == i && b >= j))
                        }
                },
                Err(OntologyError::UnknownEntity { relationship, entity }) => {
                    &&& self.nodes.len() > 0
                    &&& !self.has_blank_name()
                    &&& !self.has_bad_property()
                    &&& exists|i: int, e: bool|
                        #![trigger self.unknown_end(i, e)]
                        {
                            &&& self.unknown_end(i, e)
                            &&& relationship@ == self.relationships@[i].0@
                            &&& entity@ == self.end(i, e)
                            &&& forall|a: int, f: bool|
                                #[trigger] self.unknown_end(a, f) ==> (a > i || (a == i && (e
                                    ==> f)))
                        }
                },
            },
    {
        if self.nodes.len() == 0 {
            return Err(OntologyError::EmptyOntology);
        }
        let mut i: usize = 0;
        while i < self.nodes.len()
            invariant
                0 <= i <= self.nodes.len(),
                forall|k: int| 0 <= k < i ==> !self.blank_name(k),
            decreases self.nodes.len() - i,
        {
            if is_blank_exec(self.nodes[i].0.as_str()) {
                let name = self.nodes[i].0.clone();
                assert(self.blank_name(i as int));
                return Err(OntologyError::InvalidEntityName(name));
            }
            i = i + 1;
        }
        assert(!self.has_blank_name());
        let mut i: usize = 0;
        while i < self.nodes.len()
            invariant
                0 <= i <= self.nodes.len(),
                self.nodes.len() > 0,
                !self.has_blank_name(),
                forall|a: int, b: int| 0 <= a < i ==> !#[trigger] self.bad_property(a, b),
            decreases self.nodes.len() - i,
        {
            let props = &self.nodes[i].1.properties;
            let mut j: usize = 0;
            while j < props.len()
                invariant
                    0 <= i < self.nodes.len(),
                    self.nodes.len() > 0,
                    !self.has_blank_name(),
                    *props == self.nodes@[i as int].1.properties,
                    0 <= j <= props.len(),
                    forall|a: int, b: int| 0 <= a < i ==> !#[trigger] self.bad_property(a, b),
                    forall|b: int| 0 <= b < j ==> !#[trigger] self.bad_property(i as int, b),
                decreases props.len() - j,
            {
                if !supported_type_exec(props[j].1.data_type.as_str()) {
                    let entity = self.nodes[i].0.clone();
                    let property = props[j].0.clone();
                    let data_type = props[j].1.data_type.clone();
                    assert(self.bad_property(i as int, j as int));
                    assert forall|a: int, b: int| #[trigger]
                        self.bad_property(a, b) implies (a > i || (a == i && b >= j)) by {
                        if a < i {
                            assert(!self.bad_property(a, b));
                        } else if a == i && b < j {
                            assert(!self.bad_property(i as int, b));
                        }
                    }
                    return Err(
                        OntologyError::UnsupportedPropertyType { entity, property, data_type },
                    );
                }
                j = j + 1;
            }
            assert forall|a: int, b: int| 0 <= a < i + 1 implies !#[trigger] self.bad_property(
                a,
                b,
            ) by {
                if a == i && self.bad_property(a, b) {
                    assert(!self.bad_property(i as int, b));
                }
            }
            i = i + 1;
        }
        assert(!self.has_bad_property());
        let mut i: usize = 0;
        while i < self.relationships.len()
            invariant
                0 <= i <= self.relationships.len(),
                self.nodes.len() > 0,
                !self.has_blank_name(),
                !self.has_bad_property(),
                forall|a: int, f: bool| 0 <= a < i ==> !#[trigger] self.unknown_end(a, f),
            decreases self.relationships.len() - i,
        {
            let rel = &self.relationships[i];
            if !self.contains_node(rel.1.from.as_str()) {
                assert(self.unknown_end(i as int, false));
                assert forall|a: int, f: bool| #[trigger]
                    self.unknown_end(a, f) implies (a > i || (a == i && (false ==> f))) by {
                    if a < i {
                        assert(!self.unknown_end(a, f));
                    }
                }
                return Err(
                    OntologyError::UnknownEntity {
                        relationship: rel.0.clone(),
                        entity: rel.1.from.clone(),
                    },
                );
            }
            if !self.contains_node(rel.1.to.as_str()) {
                assert(self.unknown_end(i as int, true));
                assert(!self.unknown_end(i as int, false));
                assert forall|a: int, f: bool| #[trigger]
                    self.unknown_end(a, f) implies (a > i || (a == i && (true ==> f))) by {
                    if a < i {
                        assert(!self.unknown_end(a, f));
                    }
                }
                return Err(
                    OntologyError::UnknownEntity {
                        relationship: rel.0.clone(),
                        entity: rel.1.to.clone(),
                    },
                );
            }
            assert(!self.unknown_end(i as int, false) && !self.unknown_end(i as int, true));
            i = i + 1;
        }
        assert(!self.has_unknown_end());
        Ok(())
    }

    /// Some node is named `name` (`nodes.contains_key(name)`).
    fn contains_node(&self, name: &str) -> (r: bool)
        ensures
            r == self.is_node(name@),
    {
        let mut k: usize = 0;
        while k < self.nodes.len()
            invariant
                0 <= k <= self.nodes.len(),
                forall|m: int| 0 <= m < k ==> self.node_name(m) != name@,
            decreases self.nodes.len() - k,
        {
            if str_eq(self.nodes[k].0.as_str(), name) {
                assert(self.node_name(k as int) == name@);
                return true;
            }
            k = k + 1;
        }
        false
    }
}

impl OntologyError {
    /// The error's message.
    pub open spec fn message_spec(&self) -> Seq<char> {
        match self {
            OntologyError::EmptyOntology => "ontology contains no nodes"@,
            OntologyError::InvalidEntityName(name) => "invalid entity name: "@ + name@,
            OntologyError::UnknownEntity { relationship, entity } => "relationship '"@
                + relationship@ + "' references unknown entity '"@ + entity@ + "'"@,
            OntologyError::UnsupportedPropertyType { entity, property, data_type } =>
                "unsupported property type '"@ + data_type@ + "' for "@ + entity@ + "."@
                + property@,
        }
    }

    /// The error's message, as the error displays it.
    pub fn message(&self) -> (r: String)
        ensures
            r@ == self.message_spec(),
    {
        match self {
            OntologyError::EmptyOntology => owned("ontology contains no nodes"),
            OntologyError::InvalidEntityName(name) => {
                let mut s = owned("invalid entity name: ");
                s.append(name.as_str());
                s
            },
            OntologyError::UnknownEntity { relationship, entity } => {
                let mut s = owned("relationship '");
                s.append(relationship.as_str());
                s.append("' references unknown entity '");
                s.append(entity.as_str());
                s.append("'");
                s
            },
            OntologyError::UnsupportedPropertyType { entity, property, data_type } => {
                let mut s = owned("unsupported property type '");
                s.append(data_type.as_str());
                s.append("' for ");
                s.append(entity.as_str());
                s.append(".");
                s.append(property.as_str());
                s
            },
        }
    }
}

impl Entity {
    /// No two properties share a name, as in a map from names to properties.
    pub open spec fn has_distinct_property_names(&self) -> bool {
        forall|i: int, j: int|
            0 <= i < j < self.properties.len() ==> #[trigger] self.properties@[i].0@
                != #[trigger] self.properties@[j].0@
    }
}

impl Ontology {
    /// No two nodes, and no two relationships, share a name, and no entity has two
    /// properties of one name: the ontology is a map from names, as its JSON form is.
    pub open spec fn has_distinct_names(&self) -> bool {
        &&& forall|i: int, j: int|
            0 <= i < j < self.nodes.len() ==> #[trigger] self.nodes@[i].0@ != #[trigger] self.nodes@[j].0@
        &&& forall|i: int, j: int|
            0 <= i < j < self.relationships.len() ==> #[trigger] self.relationships@[i].0@
                != #[trigger] self.relationships@[j].0@
        &&& forall|i: int| 0 <= i < self.nodes.len() ==> (#[trigger] self.nodes@[i]).1.has_distinct_property_names()
    }
}

/// The entity of the first node named `name`.
pub open spec fn entity_named(nodes: Seq<(String, Entity)>, name: Seq<char>) -> Option<Entity>
    decreases nodes.len(),
{
    if nodes.len() == 0 {
        None
    } else if nodes[0].0@ == name {
        Some(nodes[0].1)
    } else {
        entity_named(nodes.drop_first(), name)
    }
}

proof fn lemma_entity_named(nodes: Seq<(String, Entity)>, i: int)
    requires
        0 <= i < nodes.len(),
        forall|p: int, q: int| 0 <= p < q < nodes.len() ==> #[trigger] nodes[p].0@ != #[trigger] nodes[q].0@,
    ensures
        entity_named(nodes, nodes[i].0@) == Some(nodes[i].1),
    decreases nodes.len(),
{
    if i > 0 {
        assert(nodes[0].0@ != nodes[i].0@);
        let rest = nodes.drop_first();
        assert forall|p: int, q: int| 0 <= p < q < rest.len() implies #[trigger] rest[p].0@
            != #[trigger] rest[q].0@ by {
            assert(rest[p] == nodes[p + 1] && rest[q] == nodes[q + 1]);
        }
        assert(rest[i - 1] == nodes[i]);
        lemma_entity_named(rest, i - 1);
    }
}

/// In an ontology whose names are distinct, looking a node up by its name finds
/// that node's entity, as a map lookup does.
pub proof fn law_entity_found_by_name(o: Ontology, i: int)
    requires
        o.has_distinct_names(),
        0 <= i < o.nodes.len(),
    ensures
        entity_named(o.nodes@, o.node_name(i)) == Some(o.nodes@[i].1),
{
    lemma_entity_named(o.nodes@, i);
}

proof fn lemma_valid_transfer(o1: Ontology, o2: Ontology)
    requires
        o1.nodes@.to_multiset() == o2.nodes@.to_multiset(),
        o1.relationships@.to_multiset() == o2.relationships@.to_multiset(),
        o2.is_valid(),
    ensures
        o1.is_valid(),
{
    o1.nodes@.to_multiset_ensures();
    o2.nodes@.to_multiset_ensures();
    assert(o1.nodes.len() > 0);
    if o1.has_blank_name() {
        let i = choose|i: int| o1.blank_name(i);
        let a = o1.nodes@[i];
        vstd::seq_lib::to_multiset_contains(o1.nodes@, a);
        vstd::seq_lib::to_multiset_contains(o2.nodes@, a);
        assert(o1.nodes@.contains(a));
        assert(o2.nodes@.to_multiset().count(a) > 0);
        assert(o2.nodes@.contains(a));
        let k = choose|k: int| 0 <= k < o2.nodes@.len() && o2.nodes@[k] == a;
        assert(o2.blank_name(k));
    }
    if o1.has_bad_property() {
        let (i, j) = choose|i: int, j: int| o1.bad_property(i, j);
        let a = o1.nodes@[i];
        vstd::seq_lib::to_multiset_contains(o1.nodes@, a);
        vstd::seq_lib::to_multiset_contains(o2.nodes@, a);
        assert(o1.nodes@.contains(a));
        assert(o2.nodes@.to_multiset().count(a) > 0);
        assert(o2.nodes@.contains(a));
        let k = choose|k: int| 0 <= k < o2.nodes@.len() && o2.nodes@[k] == a;
        assert(o2.bad_property(k, j));
    }
    if o1.has_unknown_end() {
        let (i, e) = choose|i: int, e: bool| o1.unknown_end(i, e);
        let r = o1.relationships@[i];
        vstd::seq_lib::to_multiset_contains(o1.relationships@, r);
        vstd::seq_lib::to_multiset_contains(o2.relationships@, r);
        assert(o1.relationships@.contains(r));
        assert(o2.relationships@.to_multiset().count(r) > 0);
        assert(o2.relationships@.contains(r));
        let k = choose|k: int| 0 <= k < o2.relationships@.len() && o2.relationships@[k] == r;
        assert(o2.end(k, e) == o1.end(i, e));
        assert(!o2.unknown_end(k, e));
        let m = choose|m: int| 0 <= m < o2.nodes.len() && o2.node_name(m) == o2.end(k, e);
        let b = o2.nodes@[m];
        vstd::seq_lib::to_multiset_contains(o2.nodes@, b);
        vstd::seq_lib::to_multiset_contains(o1.nodes@, b);
        assert(o2.nodes@.contains(b));
        assert(o1.nodes@.to_multiset().count(b) > 0);
        assert(o1.nodes@.contains(b));
        let m1 = choose|m1: int| 0 <= m1 < o1.nodes@.len() && o1.nodes@[m1] == b;
        assert(o1.node_name(m1) == o1.end(i, e));
    }
}

/// Whether an ontology is accepted does not depend on the order in which its nodes
/// and relationships are listed, as for the maps they stand for.
pub proof fn law_validate_order_free(o1: Ontology, o2: Ontology)
    requires
        o1.nodes@.to_multiset() == o2.nodes@.to_multiset(),
        o1.relationships@.to_multiset() == o2.relationships@.to_multiset(),
    ensures
        o1.is_valid() == o2.is_valid(),
{
    if o2.is_valid() {
        lemma_valid_transfer(o1, o2);
    }
    if o1.is_valid() {
        lemma_valid_transfer(o2, o1);
    }
}


} // verus!
