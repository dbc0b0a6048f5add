//! Reading a raw ontology document: its `nodes` and `relationships` members, and the
//! pieces of text that the converters build from them.
use vstd::prelude::*;
use crate::json::{
    Json, JsonValue, fields_model, get, get_str, lemma_object_model, lookup, object_insert,
    object_insert_exec, field_get, copy_fields, str_or_empty, value_list, value_list_exec,
};
use crate::text::{
    ascii_lower, flat, is_ascii_upper, join, join_strings, lemma_flat_take, owned, push_char,
    str_eq, to_ascii_lowercase, upper_char, upper_char_exec, views,
};

verus! {

/// The members of `v`'s object member `key`, or none.
pub open spec fn members(v: Json, key: Seq<char>) -> Seq<(Seq<char>, Json)> {
    match get(v, key) {
        Some(Json::Object(fields)) => fields,
        _ => Seq::empty(),
    }
}

/// The `nodes` of an ontology document.
pub open spec fn nodes(data: Json) -> Seq<(Seq<char>, Json)> {
    members(data, "nodes"@)
}

/// The `relationships` of an ontology document.
pub open spec fn relationships(data: Json) -> Seq<(Seq<char>, Json)> {
    members(data, "relationships"@)
}

/// The members of `v`'s object member `key` (`empty` when there is none).
pub fn members_exec<'a>(
    v: &'a JsonValue,
    key: &str,
    empty: &'a Vec<(String, JsonValue)>,
) -> (r: &'a Vec<(String, JsonValue)>)
    requires
        empty@.len() == 0,
    ensures
        fields_model(r@) == members(v@, key@),
{
    match v.get(key) {
        Some(JsonValue::Object(fields)) => {
            proof {
                lemma_object_model(*fields);
            }
            fields
        },
        _ => {
            assert(fields_model(empty@) =~= Seq::<(Seq<char>, Json)>::empty());
            empty
        },
    }
}

/// One piece of a Cypher relationship type: a capital that follows a
/// non-capital gets a `_` before it; every letter is written in capitals.
pub open spec fn relationship_name_piece(raw: Seq<char>, i: int) -> Seq<char> {
    if is_ascii_upper(raw[i]) && i > 0 && !is_ascii_upper(raw[i - 1]) {
        seq!['_', raw[i]]
    } else {
        seq![upper_char(raw[i])]
    }
}

/// The Cypher relationship type for a relationship name (`worksAt` gives `WORKS_AT`).
pub open spec fn cypher_relationship_name(raw: Seq<char>) -> Seq<char> {
    flat(Seq::new(raw.len(), |i: int| relationship_name_piece(raw, i)))
}

pub fn cypher_relationship_name_exec(raw: &str) -> (r: String)
    ensures
        r@ == cypher_relationship_name(raw@),
{
    let n = raw.unicode_len();
    let ghost pieces = Seq::new(raw@.len(), |i: int| relationship_name_piece(raw@, i));
    let mut out = String::new();
    let mut i: usize = 0;
    while i < n
        invariant
            n == raw@.len(),
            0 <= i <= n,
            pieces == Seq::new(raw@.len(), |i: int| relationship_name_piece(raw@, i)),
            out@ == flat(pieces.take(i as int)),
        decreases n - i,
    {
        proof {
            lemma_flat_take(pieces, i as int);
        }
        let ch = raw.get_char(i);
        let ghost before = out@;
        if 'A' <= ch && ch <= 'Z' {
            if i > 0 {
                let prev = raw.get_char(i - 1);
                if !('A' <= prev && prev <= 'Z') {
                    push_char(&mut out, '_');
                }
            }
            push_char(&mut out, ch);
        } else {
            push_char(&mut out, upper_char_exec(ch));
        }
        assert(out@ =~= before + pieces[i as int]);
        i = i + 1;
    }
    assert(pieces.take(n as int) =~= pieces);
    out
}

/// `name -> to` for relationships from `node`, `name <- from` for those into it.
pub open spec fn relationship_descriptions(
    rels: Seq<(Seq<char>, Json)>,
    node: Seq<char>,
) -> Seq<Seq<char>>
    decreases rels.len(),
{
    if rels.len() == 0 {
        Seq::empty()
    } else {
        let rest = relationship_descriptions(rels.drop_last(), node);
        let name = rels.last().0;
        let from = str_or_empty(rels.last().1, "from"@);
        let to = str_or_empty(rels.last().1, "to"@);
        if from == node {
            rest.push(name + " -> "@ + to)
        } else if to == node {
            rest.push(name + " <- "@ + from)
        } else {
            rest
        }
    }
}

/// `value.get(key).and_then(Value::as_str).unwrap_or_default()`.
pub fn str_or_empty_exec<'a>(v: &'a JsonValue, key: &str) -> (r: &'a str)
    ensures
        r@ == str_or_empty(v@, key@),
{
    match v.get_str(key) {
        Some(s) => s,
        None => {
            proof {
                reveal_strlit("");
            }
            assert(""@ =~= Seq::<char>::empty());
            ""
        },
    }
}

pub fn relationship_descriptions_exec(rels: &Vec<(String, JsonValue)>, node: &str) -> (r: Vec<
    String,
>)
    ensures
        views(r@) == relationship_descriptions(fields_model(rels@), node@),
{
    let ghost m = fields_model(rels@);
    let mut out: Vec<String> = Vec::new();
    let mut i: usize = 0;
    while i < rels.len()
        invariant
            0 <= i <= rels.len(),
            m == fields_model(rels@),
            views(out@) =~= relationship_descriptions(m.take(i as int), node@),
        decreases rels.len() - i,
    {
        let entry = &rels[i];
        assert(m.take(i as int + 1).drop_last() =~= m.take(i as int));
        assert(m[i as int] == (entry.0@, entry.1@));
        let from = str_or_empty_exec(&entry.1, "from");
        let to = str_or_empty_exec(&entry.1, "to");
        if str_eq(from, node) {
            let mut d = owned(entry.0.as_str());
            d.append(" -> ");
            d.append(to);
            out.push(d);
        } else if str_eq(to, node) {
            let mut d = owned(entry.0.as_str());
            d.append(" <- ");
            d.append(from);
            out.push(d);
        }
        i = i + 1;
    }
    assert(m.take(rels.len() as int) =~= m);
    out
}

/// `MATCH (a:from), (b:to) MERGE (a)-[:TYPE]->(b);` for a relationship whose ends
/// are both named.
pub open spec fn direct_match_line(name: Seq<char>, from: Seq<char>, to: Seq<char>) -> Seq<char> {
    "MATCH (a:"@ + from + "), (b:"@ + to + ") MERGE (a)-[:"@ + cypher_relationship_name(name)
        + "]->(b);"@
}

pub fn direct_match_line_exec(name: &str, from: &str, to: &str) -> (r: String)
    ensures
        r@ == direct_match_line(name@, from@, to@),
{
    let rel = cypher_relationship_name_exec(name);
    let mut s = owned("MATCH (a:");
    s.append(from);
    s.append("), (b:");
    s.append(to);
    s.append(") MERGE (a)-[:");
    s.append(rel.as_str());
    s.append("]->(b);");
    s
}

/// One direct match line per relationship with both ends named.
pub open spec fn relationship_statements(rels: Seq<(Seq<char>, Json)>) -> Seq<Seq<char>>
    decreases rels.len(),
{
    if rels.len() == 0 {
        Seq::empty()
    } else {
        let rest = relationship_statements(rels.drop_last());
        let from = str_or_empty(rels.last().1, "from"@);
        let to = str_or_empty(rels.last().1, "to"@);
        if from.len() > 0 && to.len() > 0 {
            rest.push(direct_match_line(rels.last().0, from, to))
        } else {
            rest
        }
    }
}

pub fn relationship_statements_exec(rels: &Vec<(String, JsonValue)>) -> (r: Vec<String>)
    ensures
        views(r@) == relationship_statements(fields_model(rels@)),
{
    let ghost m = fields_model(rels@);
    let mut out: Vec<String> = Vec::new();
    let mut i: usize = 0;
    while i < rels.len()
        invariant
            0 <= i <= rels.len(),
            m == fields_model(rels@),
            views(out@) =~= relationship_statements(m.take(i as int)),
        decreases rels.len() - i,
    {
        let entry = &rels[i];
        assert(m.take(i as int + 1).drop_last() =~= m.take(i as int));
        assert(m[i as int] == (entry.0@, entry.1@));
        let from = str_or_empty_exec(&entry.1, "from");
        let to = str_or_empty_exec(&entry.1, "to");
        if from.unicode_len() > 0 && to.unicode_len() > 0 {
            out.push(direct_match_line_exec(entry.0.as_str(), from, to));
        }
        i = i + 1;
    }
    assert(m.take(rels.len() as int) =~= m);
    out
}

/// `key: $key` with the key lowercased after the `$`.
pub open spec fn parameter_assignment(key: Seq<char>) -> Seq<char> {
    key + ": $"@ + ascii_lower(key)
}

/// The parameter assignments for a sequence of keys.
pub open spec fn parameter_assignments(fields: Seq<(Seq<char>, Json)>) -> Seq<Seq<char>>
    decreases fields.len(),
{
    if fields.len() == 0 {
        Seq::empty()
    } else {
        parameter_assignments(fields.drop_last()).push(parameter_assignment(fields.last().0))
    }
}

/// The node statement of the creation layer for a node with the given members.
pub open spec fn creation_node_statement(node: Seq<char>, props: Seq<(Seq<char>, Json)>) -> Seq<
    char,
> {
    if props.len() == 0 {
        "MERGE (n:"@ + node + ");"@
    } else {
        "MERGE (n:"@ + node + " {"@ + join(parameter_assignments(props), ", "@) + "});"@
    }
}

pub fn creation_node_statement_exec(node: &str, props: &Vec<(String, JsonValue)>) -> (r: String)
    ensures
        r@ == creation_node_statement(node@, fields_model(props@)),
{
    let ghost m = fields_model(props@);
    if props.len() == 0 {
        let mut s = owned("MERGE (n:");
        s.append(node);
        s.append(");");
        return s;
    }
    let mut parts: Vec<String> = Vec::new();
    let mut i: usize = 0;
    while i < props.len()
        invariant
            0 <= i <= props.len(),
            m == fields_model(props@),
            views(parts@) =~= parameter_assignments(m.take(i as int)),
        decreases props.len() - i,
    {
        let key = props[i].0.as_str();
        assert(m.take(i as int + 1).drop_last() =~= m.take(i as int));
        assert(m[i as int].0 == key@);
        let mut a = owned(key);
        a.append(": $");
        let lower = to_ascii_lowercase(key);
        a.append(lower.as_str());
        parts.push(a);
        i = i + 1;
    }
    assert(m.take(props.len() as int) =~= m);
    let joined = join_strings(&parts, ", ");
    let mut s = owned("MERGE (n:");
    s.append(node);
    s.append(" {");
    s.append(joined.as_str());
    s.append("});");
    s
}

/// The object `{"description": d, "type": t}`.
pub open spec fn description_object(t: Seq<char>, d: Seq<char>) -> Json {
    Json::Object(seq![("description"@, Json::Str(d)), ("type"@, Json::Str(t))])
}

pub fn description_object_exec(t: &str, d: &str) -> (r: JsonValue)
    ensures
        r@ == description_object(t@, d@),
{
    let mut v: Vec<(String, JsonValue)> = Vec::new();
    v.push((owned("description"), JsonValue::String(owned(d))));
    v.push((owned("type"), JsonValue::String(owned(t))));
    proof {
        lemma_object_model(v);
    }
    assert(fields_model(v@) =~= seq![("description"@, Json::Str(d@)), ("type"@, Json::Str(t@))]);
    JsonValue::Object(v)
}

/// The description given to the `parent_source_ids` member of `node`.
pub open spec fn parent_description(rels: Seq<(Seq<char>, Json)>, node: Seq<char>) -> Seq<char> {
    let rd = relationship_descriptions(rels, node);
    if rd.len() == 0 {
        "Stable source identifiers of all parent nodes"@
    } else {
        "Stable source identifiers of all parent nodes via relationships: "@ + join(rd, ", "@)
    }
}

/// `map.entry(key).or_insert(value)`.
pub open spec fn insert_if_absent(
    fields: Seq<(Seq<char>, Json)>,
    key: Seq<char>,
    value: Json,
) -> Seq<(Seq<char>, Json)> {
    if lookup(fields, key) is Some {
        fields
    } else {
        object_insert(fields, key, value)
    }
}

/// A node's properties with `source_id` and `parent_source_ids` added where absent.
pub open spec fn with_source_members(
    props: Seq<(Seq<char>, Json)>,
    parent_desc: Seq<char>,
) -> Seq<(Seq<char>, Json)> {
    insert_if_absent(
        insert_if_absent(
            props,
            "source_id"@,
            description_object(
                "string"@,
                "Stable source identifier for deduplication and parent mapping"@,
            ),
        ),
        "parent_source_ids"@,
        description_object("string[]"@, parent_desc),
    )
}

/// A property's `type`, `string` when it has none.
pub open spec fn type_or_string(data: Json) -> Seq<char> {
    match get_str(data, "type"@) {
        Some(t) => t,
        None => "string"@,
    }
}

/// `  name type @description(#"…"#)`.
pub open spec fn member_line(name: Seq<char>, data: Json) -> Seq<char> {
    "  "@ + name + " "@ + type_or_string(data) + " @description(#\""@ + str_or_empty(
        data,
        "description"@,
    ) + "\"#)"@
}

pub open spec fn member_lines(fields: Seq<(Seq<char>, Json)>) -> Seq<Seq<char>>
    decreases fields.len(),
{
    if fields.len() == 0 {
        Seq::empty()
    } else {
        member_lines(fields.drop_last()).push(member_line(fields.last().0, fields.last().1))
    }
}

/// The class of one node, with its source members.
pub open spec fn node_block(node: Seq<char>, details: Json, rels: Seq<(Seq<char>, Json)>) -> Seq<
    Seq<char>,
> {
    seq!["class "@ + node + " {"@] + member_lines(
        with_source_members(members(details, "properties"@), parent_description(rels, node)),
    ) + seq!["}\n"@]
}

pub open spec fn node_blocks(nodes: Seq<(Seq<char>, Json)>, rels: Seq<(Seq<char>, Json)>) -> Seq<
    Seq<char>,
>
    decreases nodes.len(),
{
    if nodes.len() == 0 {
        Seq::empty()
    } else {
        node_blocks(nodes.drop_last(), rels) + node_block(nodes.last().0, nodes.last().1, rels)
    }
}

/// The field of the result class that holds a node's records.
pub open spec fn result_field(node: Seq<char>) -> Seq<char> {
    if node == "Person"@ {
        "person"@
    } else if node == "Company"@ {
        "company"@
    } else if node == "Skill"@ {
        "skills"@
    } else {
        ascii_lower(node)
    }
}

pub open spec fn result_lines(nodes: Seq<(Seq<char>, Json)>) -> Seq<Seq<char>>
    decreases nodes.len(),
{
    if nodes.len() == 0 {
        Seq::empty()
    } else {
        result_lines(nodes.drop_last()).push(
            "  "@ + result_field(nodes.last().0) + " "@ + nodes.last().0 + "[]"@,
        )
    }
}

/// The BAML adapter of a document: one class per node with its properties and the
/// two source members, then the dynamic result class with one array field per node.
pub open spec fn source_schema(data: Json) -> Seq<char> {
    join(
        node_blocks(nodes(data), relationships(data)) + seq!["dynamic class Result {"@]
            + result_lines(nodes(data)) + seq!["}\n"@],
        "\n"@,
    )
}

fn with_source_members_exec(props: &Vec<(String, JsonValue)>, parent_desc: &str) -> (r: Vec<
    (String, JsonValue),
>)
    ensures
        fields_model(r@) == with_source_members(fields_model(props@), parent_desc@),
{
    let mut out = copy_fields(props);
    if field_get(&out, "source_id").is_none() {
        let d = description_object_exec(
            "string",
            "Stable source identifier for deduplication and parent mapping",
        );
        object_insert_exec(&mut out, owned("source_id"), d);
    }
    if field_get(&out, "parent_source_ids").is_none() {
        let d = description_object_exec("string[]", parent_desc);
        object_insert_exec(&mut out, owned("parent_source_ids"), d);
    }
    out
}

fn member_line_exec(name: &str, data: &JsonValue) -> (r: String)
    ensures
        r@ == member_line(name@, data@),
{
    let t = match data.get_str("type") {
        Some(t) => t,
        None => "string",
    };
    let d = str_or_empty_exec(data, "description");
    let mut s = owned("  ");
    s.append(name);
    s.append(" ");
    s.append(t);
    s.append(" @description(#\"");
    s.append(d);
    s.append("\"#)");
    s
}

fn node_block_exec(node: &str, details: &JsonValue, rels: &Vec<(String, JsonValue)>) -> (r: Vec<
    String,
>)
    ensures
        views(r@) == node_block(node@, details@, fields_model(rels@)),
{
    let empty: Vec<(String, JsonValue)> = Vec::new();
    let props = members_exec(details, "properties", &empty);
    let descriptions = relationship_descriptions_exec(rels, node);
    let parent_desc = if descriptions.len() == 0 {
        owned("Stable source identifiers of all parent nodes")
    } else {
        let mut d = owned("Stable source identifiers of all parent nodes via relationships: ");
        let joined = join_strings(&descriptions, ", ");
        d.append(joined.as_str());
        d
    };
    assert(parent_desc@ == parent_description(fields_model(rels@), node@));
    let all = with_source_members_exec(props, parent_desc.as_str());
    let ghost m = fields_model(all@);
    let mut out: Vec<String> = Vec::new();
    let mut head = owned("class ");
    head.append(node);
    head.append(" {");
    out.push(head);
    assert(views(out@) =~= seq![head@]);
    let ghost first = views(out@);
    let mut i: usize = 0;
    while i < all.len()
        invariant
            0 <= i <= all.len(),
            m == fields_model(all@),
            views(out@) =~= first + member_lines(m.take(i as int)),
        decreases all.len() - i,
    {
        let entry = &all[i];
        assert(m.take(i as int + 1).drop_last() =~= m.take(i as int));
        assert(m[i as int] == (entry.0@, entry.1@));
        assert(member_lines(m.take(i as int + 1)) == member_lines(m.take(i as int)).push(
            member_line(entry.0@, entry.1@),
        ));
        let line = member_line_exec(entry.0.as_str(), &entry.1);
        let ghost before = views(out@);
        out.push(line);
        assert(views(out@) =~= before.push(member_line(entry.0@, entry.1@)));
        i = i + 1;
    }
    assert(m.take(all.len() as int) =~= m);
    let ghost before = views(out@);
    out.push(owned("}\n"));
    assert(views(out@) =~= before.push("}\n"@));
    assert(views(out@) =~= node_block(node@, details@, fields_model(rels@)));
    out
}

fn result_field_exec(node: &str) -> (r: String)
    ensures
        r@ == result_field(node@),
{
    if str_eq(node, "Person") {
        owned("person")
    } else if str_eq(node, "Company") {
        owned("company")
    } else if str_eq(node, "Skill") {
        owned("skills")
    } else {
        to_ascii_lowercase(node)
    }
}

/// The BAML adapter of a document (see `source_schema`).
pub fn source_schema_exec(data: &JsonValue) -> (r: String)
    ensures
        r@ == source_schema(data@),
{
    let empty_nodes: Vec<(String, JsonValue)> = Vec::new();
    let empty_rels: Vec<(String, JsonValue)> = Vec::new();
    let nodes = members_exec(data, "nodes", &empty_nodes);
    let rels = members_exec(data, "relationships", &empty_rels);
    let ghost nm = fields_model(nodes@);
    let ghost rm = fields_model(rels@);
    let mut out: Vec<String> = Vec::new();
    let mut i: usize = 0;
    while i < nodes.len()
        invariant
            0 <= i <= nodes.len(),
            nm == fields_model(nodes@),
            rm == fields_model(rels@),
            views(out@) =~= node_blocks(nm.take(i as int), rm),
        decreases nodes.len() - i,
    {
        let entry = &nodes[i];
        assert(nm.take(i as int + 1).drop_last() =~= nm.take(i as int));
        assert(nm[i as int] == (entry.0@, entry.1@));
        let mut block = node_block_exec(entry.0.as_str(), &entry.1, rels);
        let ghost before = views(out@);
        out.append(&mut block);
        assert(views(out@) =~= before + node_block(entry.0@, entry.1@, rm));
        i = i + 1;
    }
    assert(nm.take(nodes.len() as int) =~= nm);
    let ghost before = views(out@);
    out.push(owned("dynamic class Result {"));
    assert(views(out@) =~= before.push("dynamic class Result {"@));
    let ghost before_fields = views(out@);
    let mut i: usize = 0;
    while i < nodes.len()
        invariant
            0 <= i <= nodes.len(),
            nm == fields_model(nodes@),
            views(out@) =~= before_fields + result_lines(nm.take(i as int)),
        decreases nodes.len() - i,
    {
        let name = nodes[i].0.as_str();
        assert(nm.take(i as int + 1).drop_last() =~= nm.take(i as int));
        assert(nm[i as int].0 == name@);
        assert(result_lines(nm.take(i as int + 1)) == result_lines(nm.take(i as int)).push(
            "  "@ + result_field(name@) + " "@ + name@ + "[]"@,
        ));
        let mut line = owned("  ");
        let field = result_field_exec(name);
        line.append(field.as_str());
        line.append(" ");
        line.append(name);
        line.append("[]");
        let ghost before = views(out@);
        out.push(line);
        assert(views(out@) =~= before.push("  "@ + result_field(name@) + " "@ + name@ + "[]"@));
        i = i + 1;
    }
    assert(nm.take(nodes.len() as int) =~= nm);
    let ghost before = views(out@);
    out.push(owned("}\n"));
    assert(views(out@) =~= before.push("}\n"@));
    assert(views(out@) =~= node_blocks(nm, rm) + seq!["dynamic class Result {"@] + result_lines(nm)
        + seq!["}\n"@]);
    join_strings(&out, "\n")
}

/// The properties a creation statement assigns for a node: its own, and with
/// `with_sources` also `source_id` and `parent_source_id` where absent.
pub open spec fn creation_props(details: Json, with_sources: bool) -> Seq<(Seq<char>, Json)> {
    let props = members(details, "properties"@);
    if with_sources {
        insert_if_absent(
            insert_if_absent(props, "source_id"@, Json::Object(Seq::empty())),
            "parent_source_id"@,
            Json::Object(Seq::empty()),
        )
    } else {
        props
    }
}

pub open spec fn creation_node_statements(nodes: Seq<(Seq<char>, Json)>, with_sources: bool) -> Seq<
    Seq<char>,
>
    decreases nodes.len(),
{
    if nodes.len() == 0 {
        Seq::empty()
    } else {
        creation_node_statements(nodes.drop_last(), with_sources).push(
            creation_node_statement(nodes.last().0, creation_props(nodes.last().1, with_sources)),
        )
    }
}

/// The creation layer: one `MERGE` per node with parameter placeholders for its
/// properties, then one `MATCH ... MERGE` per relationship with both ends named.
pub open spec fn creation_layer(data: Json, with_sources: bool) -> Seq<char> {
    join(
        creation_node_statements(nodes(data), with_sources) + relationship_statements(
            relationships(data),
        ),
        "\n"@,
    )
}

/// `{}`.
pub fn empty_object() -> (r: JsonValue)
    ensures
        r@ == Json::Object(Seq::empty()),
{
    let fields: Vec<(String, JsonValue)> = Vec::new();
    proof {
        lemma_object_model(fields);
        assert(fields_model(fields@) =~= Seq::empty());
    }
    JsonValue::Object(fields)
}

fn creation_props_exec(details: &JsonValue, with_sources: bool) -> (r: Vec<(String, JsonValue)>)
    ensures
        fields_model(r@) == creation_props(details@, with_sources),
{
    let empty: Vec<(String, JsonValue)> = Vec::new();
    let mut out = copy_fields(members_exec(details, "properties", &empty));
    if with_sources {
        if field_get(&out, "source_id").is_none() {
            object_insert_exec(&mut out, owned("source_id"), empty_object());
        }
        if field_get(&out, "parent_source_id").is_none() {
            object_insert_exec(&mut out, owned("parent_source_id"), empty_object());
        }
    }
    out
}

/// The creation layer of a document (see `creation_layer`).
pub fn creation_layer_exec(data: &JsonValue, with_sources: bool) -> (r: String)
    ensures
        r@ == creation_layer(data@, with_sources),
{
    let empty_nodes: Vec<(String, JsonValue)> = Vec::new();
    let empty_rels: Vec<(String, JsonValue)> = Vec::new();
    let nodes = members_exec(data, "nodes", &empty_nodes);
    let rels = members_exec(data, "relationships", &empty_rels);
    let ghost nm = fields_model(nodes@);
    let mut out: Vec<String> = Vec::new();
    let mut i: usize = 0;
    while i < nodes.len()
        invariant
            0 <= i <= nodes.len(),
            nm == fields_model(nodes@),
            views(out@) =~= creation_node_statements(nm.take(i as int), with_sources),
        decreases nodes.len() - i,
    {
        let entry = &nodes[i];
        assert(nm.take(i as int + 1).drop_last() =~= nm.take(i as int));
        assert(nm[i as int] == (entry.0@, entry.1@));
        let props = creation_props_exec(&entry.1, with_sources);
        let line = creation_node_statement_exec(entry.0.as_str(), &props);
        let ghost before = views(out@);
        out.push(line);
        assert(views(out@) =~= before.push(line@));
        i = i + 1;
    }
    assert(nm.take(nodes.len() as int) =~= nm);
    let mut rel_lines = relationship_statements_exec(rels);
    let ghost before = views(out@);
    out.append(&mut rel_lines);
    assert(views(out@) =~= before + relationship_statements(relationships(data@)));
    join_strings(&out, "\n")
}

/// The records that an extraction holds for `node`: under the lowercased name,
/// else under the name itself.
pub open spec fn candidate_items(extracted: Json, node: Seq<char>) -> Seq<Json> {
    match get(extracted, ascii_lower(node)) {
        Some(v) => value_list(v),
        None => match get(extracted, node) {
            Some(v) => value_list(v),
            None => Seq::empty(),
        },
    }
}

pub fn candidate_items_exec<'a>(extracted: &'a JsonValue, node: &str) -> (r: Vec<&'a JsonValue>)
    ensures
        Seq::new(r@.len(), |k: int| r@[k]@) == candidate_items(extracted@, node@),
{
    let lower = to_ascii_lowercase(node);
    match extracted.get(lower.as_str()) {
        Some(v) => value_list_exec(v),
        None => match extracted.get(node) {
            Some(v) => value_list_exec(v),
            None => {
                let out: Vec<&JsonValue> = Vec::new();
                assert(Seq::new(out@.len(), |k: int| out@[k]@) =~= Seq::<Json>::empty());
                out
            },
        },
    }
}

/// The node statement for one extracted record with the given property pairs.
pub open spec fn item_statement(node: Seq<char>, pairs: Seq<Seq<char>>) -> Seq<char> {
    if pairs.len() == 0 {
        "MERGE (n:"@ + node + "));"@
    } else {
        "MERGE (n:"@ + node + " {"@ + join(pairs, ", "@) + "});"@
    }
}

pub fn item_statement_exec(node: &str, pairs: &Vec<String>) -> (r: String)
    ensures
        r@ == item_statement(node@, views(pairs@)),
{
    let mut s = owned("MERGE (n:");
    s.append(node);
    if pairs.len() == 0 {
        s.append("));");
    } else {
        s.append(" {");
        let joined = join_strings(pairs, ", ");
        s.append(joined.as_str());
        s.append("});");
    }
    s
}

/// The statements of a conversion, or a comment line when there are none.
pub open spec fn or_comment(statements: Seq<Seq<char>>) -> Seq<Seq<char>> {
    if statements.len() == 0 {
        seq!["// No extracted nodes or relationships were available."@]
    } else {
        statements
    }
}

/// The members of a record, none when it is not an object.
pub open spec fn record_members(item: Json) -> Seq<(Seq<char>, Json)> {
    match item {
        Json::Object(fields) => fields,
        _ => Seq::empty(),
    }
}

/// The members of a record (none for a non-object), by reference.
pub fn record_members_exec<'a>(item: &'a JsonValue, empty: &'a Vec<(String, JsonValue)>) -> (r: &'a Vec<(String, JsonValue)>)
    requires
        empty@.len() == 0,
    ensures
        fields_model(r@) == record_members(item@),
{
    match item {
        JsonValue::Object(f) => {
            proof {
                lemma_object_model(*f);
            }
            f
        },
        _ => {
            assert(fields_model(empty@) =~= Seq::<(Seq<char>, Json)>::empty());
            empty
        },
    }
}

/// The records that an extraction returns under a node's field of the dynamic
/// result class are the records the Cypher writers read for that node: the field
/// is the node's name lowercased, the first key those writers look under. `Skill`
/// is left out: its field is `skills`, while its records are read under `skill`.
pub proof fn law_result_field_is_lookup_key(extracted: Json, node: Seq<char>, v: Json)
    requires
        node != "Skill"@,
        get(extracted, result_field(node)) == Some(v),
    ensures
        candidate_items(extracted, node) == value_list(v),
{
    reveal_strlit("Person");
    reveal_strlit("person");
    reveal_strlit("Company");
    reveal_strlit("company");
    assert(ascii_lower("Person"@) =~= "person"@);
    assert(ascii_lower("Company"@) =~= "company"@);
    assert(result_field(node) == ascii_lower(node));
}

} // verus!
