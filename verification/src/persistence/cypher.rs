//! Cypher statements for a normalised payload: one `MERGE` per record that has a
//! `source_id`, a `SET` of its other members, and one `MATCH ... MERGE` per parent
//! reference that names a known record.
use vstd::prelude::*;
use crate::json::{
    Json, JsonValue, as_object, as_str, fields_model, get, get_str, items_model, json_text,
    json_text_exec, lemma_array_model, lemma_object_model, value_list, value_list_exec,
};
use crate::text::{escape_quotes, escape_quotes_exec, join, join_strings, owned, str_eq, views};
use super::PersistenceAdapter;

verus! {

/// Writes Cypher statements for normalised payloads.
pub struct CypherAdapter;

impl CypherAdapter {
    pub fn new() -> (r: Self)
        ensures
            r == CypherAdapter,
    {
        CypherAdapter
    }
}

impl Default for CypherAdapter {
    fn default() -> (r: Self)
        ensures
            r == CypherAdapter,
    {
        Self::new()
    }
}

/// Each record paired with `label`.
pub open spec fn label_all(label: Seq<char>, rs: Seq<Json>) -> Seq<(Seq<char>, Json)>
    decreases rs.len(),
{
    if rs.len() == 0 {
        Seq::empty()
    } else {
        label_all(label, rs.drop_last()).push((label, rs.last()))
    }
}

/// Every (label, record) pair of the payload, in the order the adapter walks them.
pub open spec fn labelled_records(entities: Seq<(Seq<char>, Json)>) -> Seq<(Seq<char>, Json)>
    decreases entities.len(),
{
    if entities.len() == 0 {
        Seq::empty()
    } else {
        labelled_records(entities.drop_last()) + label_all(
            entities.last().0,
            value_list(entities.last().1),
        )
    }
}

/// The label of the last record whose `source_id` is `id` (later records win, as
/// in a map filled in walking order).
pub open spec fn id_label(pairs: Seq<(Seq<char>, Json)>, id: Seq<char>) -> Option<Seq<char>>
    decreases pairs.len(),
{
    if pairs.len() == 0 {
        None
    } else if get_str(pairs.last().1, "source_id"@) == Some(id) {
        Some(pairs.last().0)
    } else {
        id_label(pairs.drop_last(), id)
    }
}

/// The relationship type between a child label and a parent label.
pub open spec fn relationship_type(child: Seq<char>, parent: Seq<char>) -> Seq<char> {
    if child == "Person"@ && parent == "Company"@ {
        "WORKS_AT"@
    } else if child == "Person"@ && parent == "Skill"@ {
        "HAS_SKILL"@
    } else {
        "RELATED_TO"@
    }
}

/// A member value written into a `SET` clause.
pub open spec fn format_value(v: Json) -> Seq<char> {
    match v {
        Json::Str(s) => "\""@ + escape_quotes(s) + "\""@,
        Json::Number(n) => n,
        Json::Bool(b) => if b {
            "true"@
        } else {
            "false"@
        },
        Json::Null => "null"@,
        _ => "\""@ + escape_quotes(json_text(v)) + "\""@,
    }
}

/// `key: value` for each member other than `source_id` and `parent_source_ids`.
pub open spec fn property_texts(fields: Seq<(Seq<char>, Json)>) -> Seq<Seq<char>>
    decreases fields.len(),
{
    if fields.len() == 0 {
        Seq::empty()
    } else {
        let rest = property_texts(fields.drop_last());
        let key = fields.last().0;
        if key == "source_id"@ || key == "parent_source_ids"@ {
            rest
        } else {
            rest.push(key + ": "@ + format_value(fields.last().1))
        }
    }
}

pub open spec fn merge_line(label: Seq<char>, source_id: Seq<char>) -> Seq<char> {
    "MERGE (n:"@ + label + " { source_id: \""@ + source_id + "\" });"@
}

pub open spec fn set_line(properties: Seq<Seq<char>>) -> Seq<char> {
    "SET n += { "@ + join(properties, ", "@) + " };"@
}

/// The node statements of one record.
pub open spec fn merge_lines(label: Seq<char>, record: Json) -> Seq<Seq<char>> {
    match as_object(record) {
        Some(fields) => match get_str(record, "source_id"@) {
            Some(sid) => {
                let props = property_texts(fields);
                if props.len() > 0 {
                    seq![merge_line(label, sid), set_line(props)]
                } else {
                    seq![merge_line(label, sid)]
                }
            },
            None => Seq::empty(),
        },
        None => Seq::empty(),
    }
}

pub open spec fn match_line(
    label: Seq<char>,
    source_id: Seq<char>,
    parent_label: Seq<char>,
    parent_id: Seq<char>,
) -> Seq<char> {
    "MATCH (a:"@ + label + " { source_id: \""@ + source_id + "\" }),\n                        (b:"@ + parent_label
        + " { source_id: \""@ + parent_id + "\" })                          MERGE (a)-[:"@ + relationship_type(
        label,
        parent_label,
    ) + "]->(b);"@
}

/// The edge statements for the parent references of one record.
pub open spec fn parent_lines(
    label: Seq<char>,
    source_id: Seq<char>,
    parents: Seq<Json>,
    pairs: Seq<(Seq<char>, Json)>,
) -> Seq<Seq<char>>
    decreases parents.len(),
{
    if parents.len() == 0 {
        Seq::empty()
    } else {
        let rest = parent_lines(label, source_id, parents.drop_last(), pairs);
        match as_str(parents.last()) {
            Some(pid) => match id_label(pairs, pid) {
                Some(pl) => rest.push(match_line(label, source_id, pl, pid)),
                None => rest,
            },
            None => rest,
        }
    }
}

/// The edge statements of one record.
pub open spec fn relation_lines(
    label: Seq<char>,
    record: Json,
    pairs: Seq<(Seq<char>, Json)>,
) -> Seq<Seq<char>> {
    match as_object(record) {
        Some(_) => match get_str(record, "source_id"@) {
            Some(sid) => match get(record, "parent_source_ids"@) {
                Some(Json::Array(parents)) => parent_lines(label, sid, parents, pairs),
                _ => Seq::empty(),
            },
            None => Seq::empty(),
        },
        None => Seq::empty(),
    }
}

pub open spec fn all_merge_lines(pairs: Seq<(Seq<char>, Json)>) -> Seq<Seq<char>>
    decreases pairs.len(),
{
    if pairs.len() == 0 {
        Seq::empty()
    } else {
        all_merge_lines(pairs.drop_last()) + merge_lines(pairs.last().0, pairs.last().1)
    }
}

pub open spec fn all_relation_lines(
    walked: Seq<(Seq<char>, Json)>,
    pairs: Seq<(Seq<char>, Json)>,
) -> Seq<Seq<char>>
    decreases walked.len(),
{
    if walked.len() == 0 {
        Seq::empty()
    } else {
        all_relation_lines(walked.drop_last(), pairs) + relation_lines(
            walked.last().0,
            walked.last().1,
            pairs,
        )
    }
}

/// The statements for a payload, one per line: every node statement, then every
/// edge statement. A payload that is not an object gives no text.
pub open spec fn cypher_queries(payload: Json) -> Seq<char> {
    match payload {
        Json::Object(entities) => {
            let pairs = labelled_records(entities);
            join(all_merge_lines(pairs) + all_relation_lines(pairs, pairs), "\n"@)
        },
        _ => Seq::empty(),
    }
}

/// The models of a vector of (label, record) references.
pub open spec fn pairs_model(v: Seq<(&String, &JsonValue)>) -> Seq<(Seq<char>, Json)> {
    Seq::new(v.len(), |k: int| (v[k].0@, v[k].1@))
}

impl CypherAdapter {
    /// Every (label, record) pair of the payload's members.
    fn labelled<'a>(entities: &'a Vec<(String, JsonValue)>) -> (r: Vec<(&'a String, &'a JsonValue)>)
        ensures
            pairs_model(r@) == labelled_records(fields_model(entities@)),
    {
        let ghost m = fields_model(entities@);
        let mut out: Vec<(&'a String, &'a JsonValue)> = Vec::new();
        let mut i: usize = 0;
        while i < entities.len()
            invariant
                0 <= i <= entities.len(),
                m == fields_model(entities@),
                pairs_model(out@) =~= labelled_records(m.take(i as int)),
            decreases entities.len() - i,
        {
            let entry = &entities[i];
            let label = &entry.0;
            let recs = value_list_exec(&entry.1);
            let ghost rs = value_list(entry.1@);
            let ghost base = pairs_model(out@);
            let mut j: usize = 0;
            while j < recs.len()
                invariant
                    0 <= j <= recs.len(),
                    rs == Seq::new(recs@.len(), |k: int| recs@[k]@),
                    pairs_model(out@) =~= base + label_all(label@, rs.take(j as int)),
                decreases recs.len() - j,
            {
                let ghost old_out = out@;
                out.push((label, recs[j]));
                assert(pairs_model(out@) =~= pairs_model(old_out).push((label@, recs@[j as int]@)));
                assert(rs.take(j as int + 1).drop_last() =~= rs.take(j as int));
                assert(rs.take(j as int + 1).last() == recs@[j as int]@);
                assert(label_all(label@, rs.take(j as int + 1)) == label_all(label@, rs.take(j as int)).push((label@, recs@[j as int]@)));
                assert(pairs_model(out@) =~= base + label_all(label@, rs.take(j as int + 1)));
                j = j + 1;
            }
            assert(rs.take(recs.len() as int) =~= rs);
            assert(m.take(i as int + 1).drop_last() =~= m.take(i as int));
            assert(m[i as int] == (entry.0@, entry.1@));
            i = i + 1;
        }
        assert(m.take(entities.len() as int) =~= m);
        out
    }

    /// The label recorded for `id`, as the map of the walk would hold it.
    fn find_label<'a>(pairs: &Vec<(&'a String, &'a JsonValue)>, id: &str) -> (r: Option<&'a String>)
        ensures
            match r {
                Some(l) => id_label(pairs_model(pairs@), id@) == Some(l@),
                None => id_label(pairs_model(pairs@), id@) is None,
            },
    {
        let ghost m = pairs_model(pairs@);
        let mut i: usize = pairs.len();
        assert(m.take(i as int) =~= m);
        while i > 0
            invariant
                0 <= i <= pairs.len(),
                m == pairs_model(pairs@),
                id_label(m, id@) == id_label(m.take(i as int), id@),
            decreases i,
        {
            let (label, record) = pairs[i - 1];
            assert(m.take(i as int).last() == (label@, record@));
            assert(m.take(i as int).drop_last() =~= m.take(i as int - 1));
            match record.get_str("source_id") {
                Some(s) => {
                    if str_eq(s, id) {
                        return Some(label);
                    }
                },
                None => {},
            }
            i = i - 1;
        }
        None
    }

    fn relationship_type_exec(child: &str, parent: &str) -> (r: &'static str)
        ensures
            r@ == relationship_type(child@, parent@),
    {
        if str_eq(child, "Person") && str_eq(parent, "Company") {
            "WORKS_AT"
        } else if str_eq(child, "Person") && str_eq(parent, "Skill") {
            "HAS_SKILL"
        } else {
            "RELATED_TO"
        }
    }

    fn format_value(value: &JsonValue) -> (r: String)
        ensures
            r@ == format_value(value@),
    {
        match value {
            JsonValue::String(s) => {
                let mut out = owned("\"");
                let e = escape_quotes_exec(s.as_str());
                out.append(e.as_str());
                out.append("\"");
                out
            },
            JsonValue::Number(n) => n.clone(),
            JsonValue::Bool(b) => if *b {
                owned("true")
            } else {
                owned("false")
            },
            JsonValue::Null => owned("null"),
            _ => {
                let text = json_text_exec(value);
                let mut out = owned("\"");
                let e = escape_quotes_exec(text.as_str());
                out.append(e.as_str());
                out.append("\"");
                out
            },
        }
    }

    fn property_texts_exec(fields: &Vec<(String, JsonValue)>) -> (r: Vec<String>)
        ensures
            views(r@) == property_texts(fields_model(fields@)),
    {
        let ghost m = fields_model(fields@);
        let mut out: Vec<String> = Vec::new();
        let mut i: usize = 0;
        while i < fields.len()
            invariant
                0 <= i <= fields.len(),
                m == fields_model(fields@),
                views(out@) =~= property_texts(m.take(i as int)),
            decreases fields.len() - i,
        {
            let entry = &fields[i];
            assert(m.take(i as int + 1).drop_last() =~= m.take(i as int));
            assert(m[i as int] == (entry.0@, entry.1@));
            let key = entry.0.as_str();
            if !(str_eq(key, "source_id") || str_eq(key, "parent_source_ids")) {
                let mut t = owned(key);
                t.append(": ");
                let v = Self::format_value(&entry.1);
                t.append(v.as_str());
                out.push(t);
            }
            i = i + 1;
        }
        assert(m.take(fields.len() as int) =~= m);
        out
    }

    fn merge_lines_exec(label: &String, record: &JsonValue) -> (r: Vec<String>)
        ensures
            views(r@) == merge_lines(label@, record@),
    {
        let mut out: Vec<String> = Vec::new();
        match record.as_object() {
            Some(fields) => match record.get_str("source_id") {
                Some(sid) => {
                    let mut line = owned("MERGE (n:");
                    line.append(label.as_str());
                    line.append(" { source_id: \"");
                    line.append(sid);
                    line.append("\" });");
                    out.push(line);
                    let props = Self::property_texts_exec(fields);
                    if props.len() > 0 {
                        let mut set = owned("SET n += { ");
                        let joined = join_strings(&props, ", ");
                        set.append(joined.as_str());
                        set.append(" };");
                        out.push(set);
                    }
                },
                None => {},
            },
            None => {},
        }
        assert(views(out@) =~= merge_lines(label@, record@));
        out
    }

    fn parent_lines_exec(
        label: &String,
        source_id: &str,
        parents: &Vec<JsonValue>,
        pairs: &Vec<(&String, &JsonValue)>,
    ) -> (r: Vec<String>)
        ensures
            views(r@) == parent_lines(label@, source_id@, items_model(parents@), pairs_model(pairs@)),
    {
        let ghost m = items_model(parents@);
        let ghost pm = pairs_model(pairs@);
        let mut out: Vec<String> = Vec::new();
        let mut i: usize = 0;
        while i < parents.len()
            invariant
                0 <= i <= parents.len(),
                m == items_model(parents@),
                pm == pairs_model(pairs@),
                views(out@) =~= parent_lines(label@, source_id@, m.take(i as int), pm),
            decreases parents.len() - i,
        {
            assert(m.take(i as int + 1).drop_last() =~= m.take(i as int));
            assert(m[i as int] == parents@[i as int]@);
            match parents[i].as_str() {
                Some(pid) => match Self::find_label(pairs, pid) {
                    Some(pl) => {
                        let rel = Self::relationship_type_exec(label.as_str(), pl.as_str());
                        let mut line = owned("MATCH (a:");
                        line.append(label.as_str());
                        line.append(" { source_id: \"");
                        line.append(source_id);
                        line.append("\" }),\n                        (b:");
                        line.append(pl.as_str());
                        line.append(" { source_id: \"");
                        line.append(pid);
                        line.append("\" })                          MERGE (a)-[:");
                        line.append(rel);
                        line.append("]->(b);");
                        out.push(line);
                    },
                    None => {},
                },
                None => {},
            }
            i = i + 1;
        }
        assert(m.take(parents.len() as int) =~= m);
        out
    }

    fn relation_lines_exec(
        label: &String,
        record: &JsonValue,
        pairs: &Vec<(&String, &JsonValue)>,
    ) -> (r: Vec<String>)
        ensures
            views(r@) == relation_lines(label@, record@, pairs_model(pairs@)),
    {
        match record.as_object() {
            Some(_) => match record.get_str("source_id") {
                Some(sid) => match record.get("parent_source_ids") {
                    Some(JsonValue::Array(parents)) => {
                        proof {
                            lemma_array_model(*parents);
                        }
                        Self::parent_lines_exec(label, sid, parents, pairs)
                    },
                    _ => Vec::new(),
                },
                None => Vec::new(),
            },
            None => Vec::new(),
        }
    }
}

impl PersistenceAdapter for CypherAdapter {
    fn generate_queries(&self, payload: &JsonValue) -> (r: String)
        ensures
            r@ == cypher_queries(payload@),
    {
        let entities = match payload {
            JsonValue::Object(e) => e,
            _ => {
                return String::new();
            },
        };
        proof {
            lemma_object_model(*entities);
        }
        let pairs = Self::labelled(entities);
        let ghost pm = pairs_model(pairs@);
        let mut output: Vec<String> = Vec::new();
        let mut i: usize = 0;
        while i < pairs.len()
            invariant
                0 <= i <= pairs.len(),
                pm == pairs_model(pairs@),
                views(output@) =~= all_merge_lines(pm.take(i as int)),
            decreases pairs.len() - i,
        {
            let (label, record) = pairs[i];
            assert(pm.take(i as int + 1).drop_last() =~= pm.take(i as int));
            assert(pm[i as int] == (label@, record@));
            let mut lines = Self::merge_lines_exec(label, record);
            let ghost before = output@;
            output.append(&mut lines);
            assert(views(output@) =~= views(before) + merge_lines(label@, record@));
            i = i + 1;
        }
        assert(pm.take(pairs.len() as int) =~= pm);
        let ghost merges = views(output@);
        let mut i: usize = 0;
        while i < pairs.len()
            invariant
                0 <= i <= pairs.len(),
                pm == pairs_model(pairs@),
                merges == all_merge_lines(pm),
                views(output@) =~= merges + all_relation_lines(pm.take(i as int), pm),
            decreases pairs.len() - i,
        {
            let (label, record) = pairs[i];
            assert(pm.take(i as int + 1).drop_last() =~= pm.take(i as int));
            assert(pm[i as int] == (label@, record@));
            let mut lines = Self::relation_lines_exec(label, record, &pairs);
            let ghost before = output@;
            output.append(&mut lines);
            assert(views(output@) =~= views(before) + relation_lines(label@, record@, pm));
            i = i + 1;
        }
        assert(pm.take(pairs.len() as int) =~= pm);
        join_strings(&output, "\n")
    }
}

/// A scalar member value (`null`, a boolean or a number) is written as its own
/// JSON text: `true` as `true`, `false` as `false`, a number by its digits.
pub proof fn law_scalar_values_written_as_json(v: Json)
    requires
        v is Null || v is Bool || v is Number,
    ensures
        format_value(v) == json_text(v),
{
    reveal_strlit("true");
    reveal_strlit("false");
    reveal_strlit("null");
}

/// Every member of a record other than `source_id` and `parent_source_ids` appears
/// in the record's `SET` properties as `key: value`; a scalar value is written as
/// its own JSON text.
pub proof fn law_scalar_members_set_as_json(fields: Seq<(Seq<char>, Json)>, i: int)
    requires
        0 <= i < fields.len(),
        fields[i].0 != "source_id"@,
        fields[i].0 != "parent_source_ids"@,
        fields[i].1 is Null || fields[i].1 is Bool || fields[i].1 is Number,
    ensures
        property_texts(fields).contains(fields[i].0 + ": "@ + json_text(fields[i].1)),
    decreases fields.len(),
{
    law_scalar_values_written_as_json(fields[i].1);
    let rest = property_texts(fields.drop_last());
    if i < fields.len() - 1 {
        assert(fields.drop_last()[i] == fields[i]);
        law_scalar_members_set_as_json(fields.drop_last(), i);
        let k = choose|k: int| 0 <= k < rest.len() && rest[k] == fields[i].0 + ": "@ + json_text(fields[i].1);
        let key = fields.last().0;
        if !(key == "source_id"@ || key == "parent_source_ids"@) {
            assert(rest.push(key + ": "@ + format_value(fields.last().1))[k] == rest[k]);
        }
    } else {
        let t = fields[i].0 + ": "@ + json_text(fields[i].1);
        assert(rest.push(t)[rest.len() as int] == t);
    }
}

} // verus!
