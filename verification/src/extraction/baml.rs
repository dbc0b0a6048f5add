//! The BAML schema of a typed ontology: one class per entity with its typed
//! properties and the two source members, then the dynamic result class.
use vstd::prelude::*;
use crate::ontology::{Entity, Ontology, PropertySpec};
use crate::ontology::model::supported_type;
use crate::text::{owned, str_eq};

verus! {

/// `char::to_lowercase` of one character, collected into a string.
pub uninterp spec fn char_lowercase(c: char) -> Seq<char>;

/// Calls `char::to_lowercase`: the result is the Unicode lowercase mapping of `c`
/// (the character itself where it has none). The contract names that mapping and
/// says nothing of its content.
#[verifier::external_body]
fn lowercase_char(c: char) -> (r: String)
    ensures
        r@ == char_lowercase(c),
{
    c.to_lowercase().collect()
}

/// The BAML type of an ontology property type.
pub open spec fn map_type(t: Seq<char>) -> Seq<char> {
    if t == "integer"@ {
        "int"@
    } else if t == "float"@ {
        "float"@
    } else if t == "boolean"@ {
        "bool"@
    } else if t == "integer[]"@ {
        "int[]"@
    } else if t == "float[]"@ {
        "float[]"@
    } else if t == "boolean[]"@ {
        "bool[]"@
    } else if t == "string[]"@ {
        "string[]"@
    } else {
        "string"@
    }
}

/// The property types that validation accepts are exactly those with a BAML type
/// of their own: each maps to a type other than the `string` fallback, except
/// `string` itself; every other type falls back to `string`.
pub proof fn law_supported_types_have_baml_types(t: Seq<char>)
    ensures
        supported_type(t) <==> (map_type(t) != "string"@ || t == "string"@),
{
    reveal_strlit("string");
    reveal_strlit("int");
    reveal_strlit("float");
    reveal_strlit("bool");
    reveal_strlit("int[]");
    reveal_strlit("float[]");
    reveal_strlit("bool[]");
    reveal_strlit("string[]");
    assert("int"@ != "string"@) by { assert("int"@.len() != "string"@.len()); }
    assert("float"@ != "string"@) by { assert("float"@.len() != "string"@.len()); }
    assert("bool"@ != "string"@) by { assert("bool"@.len() != "string"@.len()); }
    assert("int[]"@ != "string"@) by { assert("int[]"@[0] != "string"@[0]); }
    assert("float[]"@ != "string"@) by { assert("float[]"@.len() != "string"@.len()); }
    assert("bool[]"@ != "string"@) by { assert("bool[]"@[0] != "string"@[0]); }
    assert("string[]"@ != "string"@) by { assert("string[]"@.len() != "string"@.len()); }
}

/// A name with its first character lowercased, given that character's lowercase.
pub open spec fn field_name_with(first_lowercase: Seq<char>, name: Seq<char>) -> Seq<char> {
    if name.len() == 0 {
        Seq::empty()
    } else {
        first_lowercase + name.drop_first()
    }
}

/// The field of the result class for an entity: its name, first character lowercased.
pub open spec fn field_name(name: Seq<char>) -> Seq<char> {
    if name.len() == 0 {
        Seq::empty()
    } else {
        field_name_with(char_lowercase(name[0]), name)
    }
}

/// `  name type` with an optional ` @description(#"…"#)`, and a newline.
pub open spec fn property_line(name: Seq<char>, p: PropertySpec) -> Seq<char> {
    "  "@ + name + " "@ + map_type(p.data_type@) + match p.description {
        Some(d) => " @description(#\""@ + d@ + "\"#)"@,
        None => Seq::empty(),
    } + "\n"@
}

pub open spec fn property_lines(props: Seq<(String, PropertySpec)>) -> Seq<char>
    decreases props.len(),
{
    if props.len() == 0 {
        Seq::empty()
    } else {
        property_lines(props.drop_last()) + property_line(props.last().0@, props.last().1)
    }
}

/// The class of one entity.
pub open spec fn entity_block(name: Seq<char>, e: Entity) -> Seq<char> {
    "class "@ + name + " {\n"@ + property_lines(e.properties@) + "  source_id string\n"@
        + "  parent_source_ids string[]\n"@ + "}\n\n"@
}

pub open spec fn entity_blocks(nodes: Seq<(String, Entity)>) -> Seq<char>
    decreases nodes.len(),
{
    if nodes.len() == 0 {
        Seq::empty()
    } else {
        entity_blocks(nodes.drop_last()) + entity_block(nodes.last().0@, nodes.last().1)
    }
}

pub open spec fn result_fields(nodes: Seq<(String, Entity)>) -> Seq<char>
    decreases nodes.len(),
{
    if nodes.len() == 0 {
        Seq::empty()
    } else {
        result_fields(nodes.drop_last()) + "  "@ + field_name(nodes.last().0@) + " "@
            + nodes.last().0@ + "[]\n"@
    }
}

/// The BAML schema of an ontology: every entity class, then the dynamic
/// `ExtractionResult` class with one array field per entity.
pub open spec fn baml_schema(o: Ontology) -> Seq<char> {
    entity_blocks(o.nodes@) + "dynamic class ExtractionResult {\n"@ + result_fields(o.nodes@)
        + "}\n"@
}

/// Generates the BAML schema that extraction runs against.
pub struct BamlExtractor<'a> {
    ontology: &'a Ontology,
}

impl<'a> BamlExtractor<'a> {
    /// The ontology this extractor describes.
    pub closed spec fn ontology(&self) -> Ontology {
        *self.ontology
    }

    pub fn new(ontology: &'a Ontology) -> (r: Self)
        ensures
            r.ontology() == *ontology,
    {
        Self { ontology }
    }

    /// The BAML schema of the ontology (see `baml_schema`).
    pub fn generate_schema(&self) -> (r: String)
        ensures
            r@ == baml_schema(self.ontology()),
    {
        let nodes = &self.ontology.nodes;
        let mut output = String::new();
        let mut i: usize = 0;
        while i < nodes.len()
            invariant
                0 <= i <= nodes.len(),
                *nodes == self.ontology.nodes,
                output@ == entity_blocks(nodes@.take(i as int)),
            decreases nodes.len() - i,
        {
            assert(nodes@.take(i as int + 1).drop_last() =~= nodes@.take(i as int));
            Self::generate_entity(&mut output, nodes[i].0.as_str(), &nodes[i].1);
            i = i + 1;
        }
        assert(nodes@.take(nodes.len() as int) =~= nodes@);
        output.append("dynamic class ExtractionResult {\n");
        let ghost head = output@;
        let mut i: usize = 0;
        while i < nodes.len()
            invariant
                0 <= i <= nodes.len(),
                output@ == head + result_fields(nodes@.take(i as int)),
            decreases nodes.len() - i,
        {
            assert(nodes@.take(i as int + 1).drop_last() =~= nodes@.take(i as int));
            let name = nodes[i].0.as_str();
            output.append("  ");
            let field = Self::field_name(name);
            output.append(field.as_str());
            output.append(" ");
            output.append(name);
            output.append("[]\n");
            assert(output@ =~= head + result_fields(nodes@.take(i as int + 1)));
            i = i + 1;
        }
        assert(nodes@.take(nodes.len() as int) =~= nodes@);
        output.append("}\n");
        output
    }

    fn generate_entity(output: &mut String, name: &str, entity: &Entity)
        ensures
            final(output)@ == old(output)@ + entity_block(name@, *entity),
    {
        let ghost start = output@;
        output.append("class ");
        output.append(name);
        output.append(" {\n");
        let ghost head = output@;
        let props = &entity.properties;
        let mut i: usize = 0;
        while i < props.len()
            invariant
                0 <= i <= props.len(),
                output@ == head + property_lines(props@.take(i as int)),
            decreases props.len() - i,
        {
            assert(props@.take(i as int + 1).drop_last() =~= props@.take(i as int));
            let property = &props[i].1;
            output.append("  ");
            output.append(props[i].0.as_str());
            output.append(" ");
            output.append(Self::map_type(property.data_type.as_str()));
            match &property.description {
                Some(description) => {
                    output.append(" @description(#\"");
                    output.append(description.as_str());
                    output.append("\"#)");
                },
                None => {},
            }
            output.append("\n");
            assert(output@ =~= head + property_lines(props@.take(i as int + 1)));
            i = i + 1;
        }
        assert(props@.take(props.len() as int) =~= props@);
        output.append("  source_id string\n");
        output.append("  parent_source_ids string[]\n");
        output.append("}\n\n");
        assert(output@ =~= start + entity_block(name@, *entity));
    }

    fn map_type(data_type: &str) -> (r: &'static str)
        ensures
            r@ == map_type(data_type@),
    {
        if str_eq(data_type, "integer") {
            "int"
        } else if str_eq(data_type, "float") {
            "float"
        } else if str_eq(data_type, "boolean") {
            "bool"
        } else if str_eq(data_type, "integer[]") {
            "int[]"
        } else if str_eq(data_type, "float[]") {
            "float[]"
        } else if str_eq(data_type, "boolean[]") {
            "bool[]"
        } else if str_eq(data_type, "string[]") {
            "string[]"
        } else {
            "string"
        }
    }

    /// A name with its first character lowercased, given that character's lowercase
    /// (see `field_name_with`).
    pub fn field_name_from(first_lowercase: &str, name: &str) -> (r: String)
        ensures
            r@ == field_name_with(first_lowercase@, name@),
    {
        let n = name.unicode_len();
        if n == 0 {
            return String::new();
        }
        let mut out = owned(first_lowercase);
        let rest = name.substring_char(1, n);
        out.append(rest);
        out
    }

    fn field_name(name: &str) -> (r: String)
        ensures
            r@ == field_name(name@),
    {
        if name.unicode_len() == 0 {
            return String::new();
        }
        let lowered = lowercase_char(name.get_char(0));
        Self::field_name_from(lowered.as_str(), name)
    }
}

} // verus!
