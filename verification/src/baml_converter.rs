//! A BAML schema generator and Cypher writer that reads an ontology document as
//! raw JSON: classes carry their documentation comments and their outgoing
//! relationships as fields.
use vstd::prelude::*;
use crate::json::{JsonParseError, parsed_json, read_json, well_formed};
use crate::json::{
    Json, JsonValue, cypher_literal, cypher_literal_exec, fields_model, lookup, field_get,
    get_str, lemma_object_model, str_or_empty,
};
use crate::document::{
    members, members_exec, nodes, relationships, relationship_statements,
    relationship_statements_exec, creation_layer, creation_layer_exec, candidate_items,
    candidate_items_exec, item_statement, item_statement_exec, or_comment, type_or_string,
    str_or_empty_exec, record_members,
};
use crate::text::{ascii_lower, contains, contains_exec, join, join_strings, owned, to_ascii_lowercase, views};

verus! {

/// A converter over one ontology document.
#[derive(Debug, Clone)]
pub struct BamlConverter {
    data: JsonValue,
}

impl Default for BamlConverter {
    /// A converter over the `null` document.
    fn default() -> (r: Self)
        ensures
            r.document() == Json::Null,
    {
        BamlConverter { data: JsonValue::Null }
    }
}

/// `  /// description` and `  name type` for one property.
pub open spec fn annotated_property_line(name: Seq<char>, data: Json) -> Seq<char> {
    "  /// "@ + str_or_empty(data, "description"@) + "\n  "@ + name + " "@ + type_or_string(data)
}

pub open spec fn annotated_property_lines(props: Seq<(Seq<char>, Json)>) -> Seq<Seq<char>>
    decreases props.len(),
{
    if props.len() == 0 {
        Seq::empty()
    } else {
        annotated_property_lines(props.drop_last()).push(
            annotated_property_line(props.last().0, props.last().1),
        )
    }
}

/// `[]` for relationships whose lowercased name mentions `skill` or `has`.
pub open spec fn array_suffix(name: Seq<char>) -> Seq<char> {
    if contains(ascii_lower(name), "skill"@) || contains(ascii_lower(name), "has"@) {
        "[]"@
    } else {
        ""@
    }
}

/// A relationship whose name holds `has` or `skill`, in any letter case and
/// anywhere in the name, is a to-many field: its type gets the `[]` suffix.
pub proof fn law_has_and_skill_relationships_are_lists(p: Seq<char>, w: Seq<char>, s: Seq<char>)
    requires
        ascii_lower(w) == "has"@ || ascii_lower(w) == "skill"@,
    ensures
        array_suffix(p + w + s) == "[]"@,
{
    let l = ascii_lower(p + w + s);
    assert(l =~= ascii_lower(p) + ascii_lower(w) + ascii_lower(s));
    let i = p.len() as int;
    assert(l.subrange(i, i + w.len()) =~= ascii_lower(w));
    if ascii_lower(w) == "has"@ {
        assert(contains(l, "has"@));
    } else {
        assert(contains(l, "skill"@));
    }
}

/// A relationship whose lowercased name holds neither `has` nor `skill` is a
/// single field: its type gets no suffix.
pub proof fn law_other_relationships_are_single(name: Seq<char>)
    requires
        !contains(ascii_lower(name), "has"@),
        !contains(ascii_lower(name), "skill"@),
    ensures
        array_suffix(name) == ""@,
{
}

/// The relationship's target, `Unknown` when it names none.
pub open spec fn target_or_unknown(data: Json) -> Seq<char> {
    match get_str(data, "to"@) {
        Some(t) => t,
        None => "Unknown"@,
    }
}

/// One field per relationship whose `from` is `node`.
pub open spec fn relationship_fields(rels: Seq<(Seq<char>, Json)>, node: Seq<char>) -> Seq<
    Seq<char>,
>
    decreases rels.len(),
{
    if rels.len() == 0 {
        Seq::empty()
    } else {
        let rest = relationship_fields(rels.drop_last(), node);
        let name = rels.last().0;
        if get_str(rels.last().1, "from"@) == Some(node) {
            rest.push(
                "  "@ + ascii_lower(name) + " "@ + target_or_unknown(rels.last().1) + array_suffix(
                    name,
                ),
            )
        } else {
            rest
        }
    }
}

/// The class of one node.
pub open spec fn annotated_block(node: Seq<char>, details: Json, rels: Seq<(Seq<char>, Json)>) -> Seq<
    Seq<char>,
> {
    seq!["/// "@ + str_or_empty(details, "description"@) + "\nclass "@ + node + " {"@]
        + annotated_property_lines(members(details, "properties"@)) + relationship_fields(rels, node)
        + seq!["}\n"@]
}

pub open spec fn annotated_blocks(nodes: Seq<(Seq<char>, Json)>, rels: Seq<(Seq<char>, Json)>) -> Seq<
    Seq<char>,
>
    decreases nodes.len(),
{
    if nodes.len() == 0 {
        Seq::empty()
    } else {
        annotated_blocks(nodes.drop_last(), rels) + annotated_block(
            nodes.last().0,
            nodes.last().1,
            rels,
        )
    }
}

pub open spec fn plain_result_lines(nodes: Seq<(Seq<char>, Json)>) -> Seq<Seq<char>>
    decreases nodes.len(),
{
    if nodes.len() == 0 {
        Seq::empty()
    } else {
        plain_result_lines(nodes.drop_last()).push(
            "  "@ + ascii_lower(nodes.last().0) + " "@ + nodes.last().0,
        )
    }
}

/// The annotated BAML adapter: one documented class per node, then the dynamic
/// result class with one field per node.
pub open spec fn annotated_schema(data: Json) -> Seq<char> {
    join(
        annotated_blocks(nodes(data), relationships(data)) + seq![
            "// Connect new classes to the @@dynamic Result class"@,
            "dynamic class Result {"@,
        ] + plain_result_lines(nodes(data)) + seq!["}\n"@],
        "\n"@,
    )
}

/// `key: literal` for each expected property that the record has.
pub open spec fn literal_pairs(expected: Seq<(Seq<char>, Json)>, props: Seq<(Seq<char>, Json)>) -> Seq<
    Seq<char>,
>
    decreases expected.len(),
{
    if expected.len() == 0 {
        Seq::empty()
    } else {
        let rest = literal_pairs(expected.drop_last(), props);
        let key = expected.last().0;
        match lookup(props, key) {
            Some(v) => rest.push(key + ": "@ + cypher_literal(v)),
            None => rest,
        }
    }
}

pub open spec fn item_statements(node: Seq<char>, details: Json, items: Seq<Json>) -> Seq<Seq<char>>
    decreases items.len(),
{
    if items.len() == 0 {
        Seq::empty()
    } else {
        item_statements(node, details, items.drop_last()).push(
            item_statement(
                node,
                literal_pairs(members(details, "properties"@), record_members(items.last())),
            ),
        )
    }
}

pub open spec fn extracted_node_statements(nodes: Seq<(Seq<char>, Json)>, extracted: Json) -> Seq<
    Seq<char>,
>
    decreases nodes.len(),
{
    if nodes.len() == 0 {
        Seq::empty()
    } else {
        extracted_node_statements(nodes.drop_last(), extracted) + item_statements(
            nodes.last().0,
            nodes.last().1,
            candidate_items(extracted, nodes.last().0),
        )
    }
}

/// The statements for extracted records: one `MERGE` per record with the
/// expected properties it has, then one `MATCH ... MERGE` per relationship with
/// both ends named; a comment line when there are none.
pub open spec fn cypher_from_extracted(data: Json, extracted: Json) -> Seq<char> {
    join(
        or_comment(
            extracted_node_statements(nodes(data), extracted) + relationship_statements(
                relationships(data),
            ),
        ),
        "\n"@,
    )
}

impl BamlConverter {
    /// The ontology document this converter reads.
    pub closed spec fn document(&self) -> Json {
        self.data@
    }

    /// A converter over an ontology document.
    pub fn from_json(data: JsonValue) -> (r: Self)
        ensures
            r.document() == data@,
    {
        BamlConverter { data }
    }

    /// A converter over the ontology document that a JSON text holds, or the
    /// parser's error where the text is not JSON.
    pub fn from_text(text: &str) -> (r: Result<Self, JsonParseError>)
        ensures
            match r {
                Ok(c) => parsed_json(text@) == Some(c.document()) && well_formed(c.document()),
                Err(_) => parsed_json(text@) is None,
            },
    {
        match read_json(text) {
            Ok(data) => Ok(BamlConverter { data }),
            Err(e) => Err(e),
        }
    }

    fn annotated_block_exec(node: &str, details: &JsonValue, rels: &Vec<(String, JsonValue)>) -> (r:
        Vec<String>)
        ensures
            views(r@) == annotated_block(node@, details@, fields_model(rels@)),
    {
        let mut out: Vec<String> = Vec::new();
        let mut head = owned("/// ");
        head.append(str_or_empty_exec(details, "description"));
        head.append("\nclass ");
        head.append(node);
        head.append(" {");
        out.push(head);
        assert(views(out@) =~= seq![head@]);
        let empty: Vec<(String, JsonValue)> = Vec::new();
        let props = members_exec(details, "properties", &empty);
        let ghost pm = fields_model(props@);
        let ghost first = views(out@);
        let mut i: usize = 0;
        while i < props.len()
            invariant
                0 <= i <= props.len(),
                pm == fields_model(props@),
                views(out@) =~= first + annotated_property_lines(pm.take(i as int)),
            decreases props.len() - i,
        {
            let entry = &props[i];
            assert(pm.take(i as int + 1).drop_last() =~= pm.take(i as int));
            assert(pm[i as int] == (entry.0@, entry.1@));
            let t = match entry.1.get_str("type") {
                Some(t) => t,
                None => "string",
            };
            let mut line = owned("  /// ");
            line.append(str_or_empty_exec(&entry.1, "description"));
            line.append("\n  ");
            line.append(entry.0.as_str());
            line.append(" ");
            line.append(t);
            let ghost before = views(out@);
            out.push(line);
            assert(views(out@) =~= before.push(annotated_property_line(entry.0@, entry.1@)));
            i = i + 1;
        }
        assert(pm.take(props.len() as int) =~= pm);
        let ghost rm = fields_model(rels@);
        let ghost second = views(out@);
        let mut i: usize = 0;
        while i < rels.len()
            invariant
                0 <= i <= rels.len(),
                rm == fields_model(rels@),
                views(out@) =~= second + relationship_fields(rm.take(i as int), node@),
            decreases rels.len() - i,
        {
            let entry = &rels[i];
            assert(rm.take(i as int + 1).drop_last() =~= rm.take(i as int));
            assert(rm[i as int] == (entry.0@, entry.1@));
            let is_from = match entry.1.get_str("from") {
                Some(f) => crate::text::str_eq(f, node),
                None => false,
            };
            if is_from {
                let target = match entry.1.get_str("to") {
                    Some(t) => t,
                    None => "Unknown",
                };
                let lower = to_ascii_lowercase(entry.0.as_str());
                let suffix = if contains_exec(lower.as_str(), "skill") || contains_exec(
                    lower.as_str(),
                    "has",
                ) {
                    "[]"
                } else {
                    ""
                };
                let mut line = owned("  ");
                line.append(lower.as_str());
                line.append(" ");
                line.append(target);
                line.append(suffix);
                let ghost before = views(out@);
                out.push(line);
                assert(views(out@) =~= before.push(
                    "  "@ + ascii_lower(entry.0@) + " "@ + target_or_unknown(entry.1@)
                        + array_suffix(entry.0@),
                ));
            }
            i = i + 1;
        }
        assert(rm.take(rels.len() as int) =~= rm);
        let ghost before = views(out@);
        out.push(owned("}\n"));
        assert(views(out@) =~= before.push("}\n"@));
        out
    }

    /// The annotated BAML adapter of the document.
    pub fn generate(&self) -> (r: String)
        ensures
            r@ == annotated_schema(self.document()),
    {
        let data = &self.data;
        let empty_nodes: Vec<(String, JsonValue)> = Vec::new();
        let empty_rels: Vec<(String, JsonValue)> = Vec::new();
        let nodes = members_exec(data, "nodes", &empty_nodes);
        let rels = members_exec(data, "relationships", &empty_rels);
        let ghost nm = fields_model(nodes@);
        let ghost rm = fields_model(rels@);
        let mut out: Vec<String> = Vec::new();
        let mut i: usize = 0;
        while i < nodes.len()
            invariant
                0 <= i <= nodes.len(),
                nm == fields_model(nodes@),
                rm == fields_model(rels@),
                views(out@) =~= annotated_blocks(nm.take(i as int), rm),
            decreases nodes.len() - i,
        {
            let entry = &nodes[i];
            assert(nm.take(i as int + 1).drop_last() =~= nm.take(i as int));
            assert(nm[i as int] == (entry.0@, entry.1@));
            let mut block = Self::annotated_block_exec(entry.0.as_str(), &entry.1, rels);
            let ghost before = views(out@);
            out.append(&mut block);
            assert(views(out@) =~= before + annotated_block(entry.0@, entry.1@, rm));
            i = i + 1;
        }
        assert(nm.take(nodes.len() as int) =~= nm);
        let ghost before = views(out@);
        out.push(owned("// Connect new classes to the @@dynamic Result class"));
        out.push(owned("dynamic class Result {"));
        assert(views(out@) =~= before + seq![
            "// Connect new classes to the @@dynamic Result class"@,
            "dynamic class Result {"@,
        ]);
        let ghost mid = views(out@);
        let mut i: usize = 0;
        while i < nodes.len()
            invariant
                0 <= i <= nodes.len(),
                nm == fields_model(nodes@),
                views(out@) =~= mid + plain_result_lines(nm.take(i as int)),
            decreases nodes.len() - i,
        {
            let name = nodes[i].0.as_str();
            assert(nm.take(i as int + 1).drop_last() =~= nm.take(i as int));
            assert(nm[i as int].0 == name@);
            let mut line = owned("  ");
            let lower = to_ascii_lowercase(name);
            line.append(lower.as_str());
            line.append(" ");
            line.append(name);
            let ghost b = views(out@);
            out.push(line);
            assert(views(out@) =~= b.push("  "@ + ascii_lower(name@) + " "@ + name@));
            i = i + 1;
        }
        assert(nm.take(nodes.len() as int) =~= nm);
        let ghost b = views(out@);
        out.push(owned("}\n"));
        assert(views(out@) =~= b.push("}\n"@));
        assert(views(out@) =~= annotated_blocks(nm, rm) + seq![
            "// Connect new classes to the @@dynamic Result class"@,
            "dynamic class Result {"@,
        ] + plain_result_lines(nm) + seq!["}\n"@]);
        join_strings(&out, "\n")
    }

    /// The creation layer of the document: parameterised `MERGE` statements for
    /// the nodes and direct `MATCH ... MERGE` statements for the relationships.
    pub fn generate_cypher_creation_layer(&self) -> (r: String)
        ensures
            r@ == creation_layer(self.document(), false),
    {
        creation_layer_exec(&self.data, false)
    }

    fn literal_pairs_exec(expected: &Vec<(String, JsonValue)>, props: &Vec<(String, JsonValue)>) -> (r:
        Vec<String>)
        ensures
            views(r@) == literal_pairs(fields_model(expected@), fields_model(props@)),
    {
        let ghost em = fields_model(expected@);
        let mut out: Vec<String> = Vec::new();
        let mut i: usize = 0;
        while i < expected.len()
            invariant
                0 <= i <= expected.len(),
                em == fields_model(expected@),
                views(out@) =~= literal_pairs(em.take(i as int), fields_model(props@)),
            decreases expected.len() - i,
        {
            let key = expected[i].0.as_str();
            assert(em.take(i as int + 1).drop_last() =~= em.take(i as int));
            assert(em[i as int].0 == key@);
            match field_get(props, key) {
                Some(v) => {
                    let mut p = owned(key);
                    p.append(": ");
                    let lit = cypher_literal_exec(v);
                    p.append(lit.as_str());
                    let ghost before = views(out@);
                    out.push(p);
                    assert(views(out@) =~= before.push(key@ + ": "@ + cypher_literal(v@)));
                },
                None => {},
            }
            i = i + 1;
        }
        assert(em.take(expected.len() as int) =~= em);
        out
    }

    /// Cypher statements for extracted records (see `cypher_from_extracted`).
    pub fn generate_cypher_from_extracted(&self, extracted: &JsonValue) -> (r: String)
        ensures
            r@ == cypher_from_extracted(self.document(), extracted@),
    {
        let data = &self.data;
        let empty_nodes: Vec<(String, JsonValue)> = Vec::new();
        let empty_rels: Vec<(String, JsonValue)> = Vec::new();
        let empty_props: Vec<(String, JsonValue)> = Vec::new();
        let nodes = members_exec(data, "nodes", &empty_nodes);
        let rels = members_exec(data, "relationships", &empty_rels);
        let ghost nm = fields_model(nodes@);
        let mut out: Vec<String> = Vec::new();
        let mut i: usize = 0;
        while i < nodes.len()
            invariant
                0 <= i <= nodes.len(),
                nm == fields_model(nodes@),
                empty_props@.len() == 0,
                views(out@) =~= extracted_node_statements(nm.take(i as int), extracted@),
            decreases nodes.len() - i,
        {
            let entry = &nodes[i];
            assert(nm.take(i as int + 1).drop_last() =~= nm.take(i as int));
            assert(nm[i as int] == (entry.0@, entry.1@));
            let node = entry.0.as_str();
            let expected = members_exec(&entry.1, "properties", &empty_props);
            let items = candidate_items_exec(extracted, node);
            let ghost im = Seq::new(items@.len(), |k: int| items@[k]@);
            let ghost base = views(out@);
            let mut j: usize = 0;
            while j < items.len()
                invariant
                    0 <= j <= items.len(),
                    im == Seq::new(items@.len(), |k: int| items@[k]@),
                    empty_props@.len() == 0,
                    fields_model(expected@) == members(entry.1@, "properties"@),
                    views(out@) =~= base + item_statements(node@, entry.1@, im.take(j as int)),
                decreases items.len() - j,
            {
                let item = items[j];
                assert(im.take(j as int + 1).drop_last() =~= im.take(j as int));
                assert(im[j as int] == item@);
                let props = match item {
                    JsonValue::Object(f) => {
                        proof {
                            lemma_object_model(*f);
                        }
                        f
                    },
                    _ => {
                        assert(fields_model(empty_props@) =~= Seq::<(Seq<char>, Json)>::empty());
                        &empty_props
                    },
                };
                let pairs = Self::literal_pairs_exec(expected, props);
                let line = item_statement_exec(node, &pairs);
                let ghost before = views(out@);
                out.push(line);
                assert(views(out@) =~= before.push(line@));
                j = j + 1;
            }
            assert(im.take(items.len() as int) =~= im);
            i = i + 1;
        }
        assert(nm.take(nodes.len() as int) =~= nm);
        let mut rel_lines = relationship_statements_exec(rels);
        let ghost before = views(out@);
        out.append(&mut rel_lines);
        assert(views(out@) =~= before + relationship_statements(relationships(data@)));
        if out.len() == 0 {
            out.push(owned("// No extracted nodes or relationships were available."));
            assert(views(out@) =~= seq!["// No extracted nodes or relationships were available."@]);
        }
        join_strings(&out, "\n")
    }
}

} // verus!
