//! A BAML schema generator and Cypher writer over a raw ontology document that links
//! extracted records through stable source identifiers.
use vstd::prelude::*;
use crate::json::{JsonParseError, parsed_json, read_json, well_formed};
use crate::json::{
    Json, JsonValue, as_str, cypher_literal, cypher_literal_exec, fields_model, field_get, get,
    get_str, items_model, lemma_array_model, lemma_object_model, lookup, value_list,
    value_list_exec,
};
use crate::document::{
    candidate_items, candidate_items_exec, creation_layer, creation_layer_exec, direct_match_line,
    direct_match_line_exec, item_statement, item_statement_exec, members, members_exec, nodes,
    or_comment, record_members, record_members_exec, relationships, source_schema,
    source_schema_exec, str_or_empty_exec, relationship_descriptions,
    relationship_descriptions_exec,
};
use crate::json::str_or_empty;
use crate::text::{
    ascii_lower, escape_quotes, escape_quotes_exec, flat, is_ascii_alphanumeric, is_blank,
    is_blank_exec, join, join_strings, lemma_flat_take, lower_char, lower_char_exec, owned,
    push_char, str_eq, to_ascii_lowercase, views,
};

verus! {

/// A converter over one ontology document.
#[derive(Debug, Clone)]
pub struct BamlConverter {
    data: JsonValue,
}

impl Default for BamlConverter {
    /// A converter over the `null` document.
    fn default() -> (r: Self)
        ensures
            r.document() == Json::Null,
    {
        BamlConverter { data: JsonValue::Null }
    }
}

/// The slug before trimming: ASCII letters and digits lowercased, every other run
/// of characters after the first letter or digit written as one `-`.
pub open spec fn slug_raw(s: Seq<char>) -> Seq<char>
    decreases s.len(),
{
    if s.len() == 0 {
        Seq::empty()
    } else {
        let r = slug_raw(s.drop_last());
        let c = lower_char(s.last());
        if is_ascii_alphanumeric(c) {
            r.push(c)
        } else if r.len() > 0 && r.last() != '-' {
            r.push('-')
        } else {
            r
        }
    }
}

/// `t` without its leading `-` characters.
pub open spec fn strip_front_dashes(t: Seq<char>) -> Seq<char>
    decreases t.len(),
{
    if t.len() > 0 && t[0] == '-' {
        strip_front_dashes(t.drop_first())
    } else {
        t
    }
}

/// `t` without its trailing `-` characters.
pub open spec fn strip_back_dashes(t: Seq<char>) -> Seq<char>
    decreases t.len(),
{
    if t.len() > 0 && t.last() == '-' {
        strip_back_dashes(t.drop_last())
    } else {
        t
    }
}

/// The slug of a name (`Acme Corp.` gives `acme-corp`).
pub open spec fn slugify(s: Seq<char>) -> Seq<char> {
    strip_back_dashes(strip_front_dashes(slug_raw(s)))
}

/// A character a slug may hold: a small ASCII letter, a digit or `-`.
pub open spec fn is_slug_char(c: char) -> bool {
    ('a' <= c && c <= 'z') || ('0' <= c && c <= '9') || c == '-'
}

/// Only slug characters, no `-` first, and no two `-` in a row.
pub open spec fn is_slug_prefix(t: Seq<char>) -> bool {
    &&& forall|i: int| 0 <= i < t.len() ==> is_slug_char(#[trigger] t[i])
    &&& t.len() > 0 ==> t[0] != '-'
    &&& forall|i: int, j: int|
        0 <= i && j == i + 1 && j < t.len() ==> !(#[trigger] t[i] == '-' && #[trigger] t[j] == '-')
}

/// The shape of a slug: small ASCII letters, digits and single `-` separators,
/// with no `-` at either end.
pub open spec fn is_slug(t: Seq<char>) -> bool {
    &&& is_slug_prefix(t)
    &&& t.len() > 0 ==> t.last() != '-'
}

/// `t` without its `-` characters.
pub open spec fn drop_dashes(t: Seq<char>) -> Seq<char>
    decreases t.len(),
{
    if t.len() == 0 {
        Seq::empty()
    } else if t.last() == '-' {
        drop_dashes(t.drop_last())
    } else {
        drop_dashes(t.drop_last()).push(t.last())
    }
}

/// The ASCII letters and digits of `s`, lowercased, in order; all else dropped.
pub open spec fn alnum_lower(s: Seq<char>) -> Seq<char>
    decreases s.len(),
{
    if s.len() == 0 {
        Seq::empty()
    } else if is_ascii_alphanumeric(lower_char(s.last())) {
        alnum_lower(s.drop_last()).push(lower_char(s.last()))
    } else {
        alnum_lower(s.drop_last())
    }
}

proof fn lemma_lower_char_slug(c: char)
    ensures
        is_ascii_alphanumeric(lower_char(c)) ==> is_slug_char(lower_char(c)) && lower_char(c) != '-',
        is_slug_char(c) ==> lower_char(c) == c,
{
}

proof fn lemma_slug_raw(s: Seq<char>)
    ensures
        is_slug_prefix(slug_raw(s)),
        drop_dashes(slug_raw(s)) == alnum_lower(s),
    decreases s.len(),
{
    if s.len() > 0 {
        lemma_slug_raw(s.drop_last());
        let r = slug_raw(s.drop_last());
        let c = lower_char(s.last());
        lemma_lower_char_slug(s.last());
        if is_ascii_alphanumeric(c) {
            assert(r.push(c).drop_last() =~= r);
            assert(is_slug_prefix(r.push(c))) by {
                assert forall|i: int| 0 <= i < r.push(c).len() implies is_slug_char(
                    #[trigger] r.push(c)[i],
                ) by {
                    if i < r.len() {
                        assert(r.push(c)[i] == r[i]);
                    }
                }
                assert forall|i: int, j: int|
                    0 <= i && j == i + 1 && j < r.push(c).len() implies !(#[trigger] r.push(c)[i]
                        == '-' && #[trigger] r.push(c)[j] == '-') by {
                    if j < r.len() {
                        assert(r.push(c)[i] == r[i] && r.push(c)[j] == r[j]);
                    }
                }
            }
        } else if r.len() > 0 && r.last() != '-' {
            let d = r.push('-');
            assert(d.drop_last() =~= r);
            assert(is_slug_prefix(d)) by {
                assert forall|i: int| 0 <= i < d.len() implies is_slug_char(#[trigger] d[i]) by {
                    if i < r.len() {
                        assert(d[i] == r[i]);
                    }
                }
                assert forall|i: int, j: int|
                    0 <= i && j == i + 1 && j < d.len() implies !(#[trigger] d[i] == '-'
                        && #[trigger] d[j] == '-') by {
                    assert(d[i] == r[i]);
                    if j < r.len() {
                        assert(d[j] == r[j]);
                    }
                }
            }
        }
    }
}

proof fn lemma_strip_back_dashes(t: Seq<char>)
    ensures
        strip_back_dashes(t).len() <= t.len(),
        strip_back_dashes(t) == t.take(strip_back_dashes(t).len() as int),
        strip_back_dashes(t).len() > 0 ==> strip_back_dashes(t).last() != '-',
        drop_dashes(strip_back_dashes(t)) == drop_dashes(t),
    decreases t.len(),
{
    if t.len() > 0 && t.last() == '-' {
        lemma_strip_back_dashes(t.drop_last());
        let k = strip_back_dashes(t).len() as int;
        assert(t.drop_last().take(k) =~= t.take(k));
    } else {
        assert(t.take(t.len() as int) =~= t);
    }
}

proof fn lemma_slug_prefix_take(t: Seq<char>, k: int)
    requires
        is_slug_prefix(t),
        0 <= k <= t.len(),
    ensures
        is_slug_prefix(t.take(k)),
{
    let p = t.take(k);
    assert forall|i: int| 0 <= i < p.len() implies is_slug_char(#[trigger] p[i]) by {
        assert(p[i] == t[i]);
    }
    assert forall|i: int, j: int| 0 <= i && j == i + 1 && j < p.len() implies !(#[trigger] p[i]
        == '-' && #[trigger] p[j] == '-') by {
        assert(p[i] == t[i] && p[j] == t[j]);
    }
    if p.len() > 0 {
        assert(p[0] == t[0]);
    }
}

/// `slug_raw` leaves a slug-shaped prefix as it is.
proof fn lemma_slug_raw_fixed(t: Seq<char>)
    requires
        is_slug_prefix(t),
    ensures
        slug_raw(t) == t,
    decreases t.len(),
{
    if t.len() > 0 {
        let p = t.drop_last();
        lemma_slug_prefix_take(t, t.len() - 1);
        assert(t.take(t.len() - 1) =~= p);
        lemma_slug_raw_fixed(p);
        let c = t.last();
        assert(is_slug_char(t[t.len() - 1]));
        lemma_lower_char_slug(c);
        if c == '-' {
            assert(t.len() >= 2);
            assert(!(t[t.len() - 2] == '-' && t[t.len() - 1] == '-'));
            assert(p.last() == t[t.len() - 2]);
        }
        assert(p.push(c) =~= t);
    }
}

/// A slug is made of small ASCII letters, digits and single `-` separators, with
/// no `-` at either end; without its `-` it is the ASCII letters and digits of the
/// name, lowercased, with everything else dropped.
pub proof fn law_slugify_shape(s: Seq<char>)
    ensures
        is_slug(slugify(s)),
        drop_dashes(slugify(s)) == alnum_lower(s),
{
    let r = slug_raw(s);
    lemma_slug_raw(s);
    assert(strip_front_dashes(r) == r);
    lemma_strip_back_dashes(r);
    lemma_slug_prefix_take(r, strip_back_dashes(r).len() as int);
}

/// A slug is its own slug.
pub proof fn law_slugify_idempotent(s: Seq<char>)
    ensures
        slugify(slugify(s)) == slugify(s),
{
    let t = slugify(s);
    law_slugify_shape(s);
    lemma_slug_raw_fixed(t);
    assert(strip_front_dashes(t) == t);
    assert(strip_back_dashes(t) == t);
}

/// The first string among the record's `source_id`, `sourceId`, `slug` and `id`.
pub open spec fn explicit_id(v: Json) -> Option<Seq<char>> {
    match get_str(v, "source_id"@) {
        Some(s) => Some(s),
        None => match get_str(v, "sourceId"@) {
            Some(s) => Some(s),
            None => match get_str(v, "slug"@) {
                Some(s) => Some(s),
                None => get_str(v, "id"@),
            },
        },
    }
}

/// The stable identifier of a record: its explicit identifier unless blank, else
/// `node:slug-of-name` when it has a name.
pub open spec fn source_id_for(node: Seq<char>, v: Json) -> Option<Seq<char>> {
    let explicit = explicit_id(v);
    if explicit is Some && !is_blank(explicit->0) {
        explicit
    } else {
        match get_str(v, "name"@) {
            Some(n) => Some(node + ":"@ + slugify(n)),
            None => None,
        }
    }
}

/// The non-blank strings among `items`.
pub open spec fn nonblank_strings(items: Seq<Json>) -> Seq<Seq<char>>
    decreases items.len(),
{
    if items.len() == 0 {
        Seq::empty()
    } else {
        let r = nonblank_strings(items.drop_last());
        match as_str(items.last()) {
            Some(s) => if !is_blank(s) {
                r.push(s)
            } else {
                r
            },
            None => r,
        }
    }
}

/// The parent identifiers of a record: the non-blank strings of its
/// `parent_source_ids`, else its non-blank `parent_source_id`.
pub open spec fn parent_source_ids_for(v: Json) -> Seq<Seq<char>> {
    let from_array = match get(v, "parent_source_ids"@) {
        Some(Json::Array(items)) => nonblank_strings(items),
        _ => Seq::empty(),
    };
    if from_array.len() > 0 {
        from_array
    } else {
        match get_str(v, "parent_source_id"@) {
            Some(s) => if !is_blank(s) {
                seq![s]
            } else {
                Seq::empty()
            },
            None => Seq::empty(),
        }
    }
}

/// An item that is a non-blank string.
pub open spec fn is_nonblank_str(x: Json) -> bool {
    x matches Json::Str(s) && !is_blank(s)
}

/// The text of a string item.
pub open spec fn str_text(x: Json) -> Seq<char> {
    match x {
        Json::Str(s) => s,
        _ => Seq::empty(),
    }
}

/// The non-blank strings of an array are kept, every one of them and in order,
/// and nothing else is: the array filtered down to its non-blank strings.
pub proof fn law_nonblank_strings_keep_all_in_order(items: Seq<Json>)
    ensures
        nonblank_strings(items) == items.filter(|x: Json| is_nonblank_str(x)).map_values(
            |x: Json| str_text(x),
        ),
    decreases items.len(),
{
    reveal(Seq::filter);
    let p = |x: Json| is_nonblank_str(x);
    let f = |x: Json| str_text(x);
    if items.len() == 0 {
        assert(items.filter(p) =~= Seq::<Json>::empty());
        assert(items.filter(p).map_values(f) =~= Seq::<Seq<char>>::empty());
    } else {
        law_nonblank_strings_keep_all_in_order(items.drop_last());
        let sub = items.drop_last().filter(p);
        if p(items.last()) {
            assert(items.filter(p) == sub.push(items.last()));
            assert(sub.push(items.last()).map_values(f) =~= sub.map_values(f).push(f(items.last())));
        } else {
            assert(items.filter(p) == sub);
        }
    }
}

/// A record's parent identifiers, when its `parent_source_ids` array holds a
/// non-blank string, are all the non-blank strings of that array, in order.
pub proof fn law_parent_ids_are_all_nonblank_strings(v: Json, items: Seq<Json>, k: int)
    requires
        get(v, "parent_source_ids"@) == Some(Json::Array(items)),
        0 <= k < items.len(),
        is_nonblank_str(items[k]),
    ensures
        parent_source_ids_for(v) == items.filter(|x: Json| is_nonblank_str(x)).map_values(
            |x: Json| str_text(x),
        ),
        parent_source_ids_for(v).contains(str_text(items[k])),
{
    law_nonblank_strings_keep_all_in_order(items);
    let p = |x: Json| is_nonblank_str(x);
    items.filter_lemma(p);
    assert(items.filter(p).contains(items[k]));
    let j = choose|j: int| 0 <= j < items.filter(p).len() && items.filter(p)[j] == items[k];
    assert(parent_source_ids_for(v)[j] == str_text(items[k]));
}

/// `key: literal` for each expected property the record has as a scalar, leaving
/// out blank `source_id` and `parent_source_id` strings.
pub open spec fn scalar_pairs(expected: Seq<(Seq<char>, Json)>, props: Seq<(Seq<char>, Json)>) -> Seq<
    Seq<char>,
>
    decreases expected.len(),
{
    if expected.len() == 0 {
        Seq::empty()
    } else {
        let r = scalar_pairs(expected.drop_last(), props);
        let key = expected.last().0;
        match lookup(props, key) {
            Some(Json::Object(_)) => r,
            Some(Json::Array(_)) => r,
            Some(Json::Str(s)) => if (key == "source_id"@ || key == "parent_source_id"@) && is_blank(
                s,
            ) {
                r
            } else {
                r.push(key + ": "@ + cypher_literal(Json::Str(s)))
            },
            Some(v) => r.push(key + ": "@ + cypher_literal(v)),
            None => r,
        }
    }
}

/// Each identifier in double quotes, with its `"` escaped.
pub open spec fn quoted_ids(ids: Seq<Seq<char>>) -> Seq<Seq<char>>
    decreases ids.len(),
{
    if ids.len() == 0 {
        Seq::empty()
    } else {
        quoted_ids(ids.drop_last()).push("\""@ + escape_quotes(ids.last()) + "\""@)
    }
}

/// The property pairs before the parent identifiers go in.
pub open spec fn pairs_with_source(node: Seq<char>, item: Json, details: Json) -> Seq<Seq<char>> {
    let base = scalar_pairs(members(details, "properties"@), record_members(item));
    match source_id_for(node, item) {
        Some(sid) => seq!["source_id: \""@ + escape_quotes(sid) + "\""@] + base,
        None => base,
    }
}

/// The property pairs written for one extracted record: `source_id` first, then
/// `parent_source_ids`, then the record's scalar properties.
pub open spec fn property_pairs(node: Seq<char>, item: Json, details: Json) -> Seq<Seq<char>> {
    let with_sid = pairs_with_source(node, item, details);
    let pids = parent_source_ids_for(item);
    if pids.len() > 0 {
        with_sid.take(1) + seq!["parent_source_ids: ["@ + join(quoted_ids(pids), ", "@) + "]"@]
            + with_sid.skip(1)
    } else {
        with_sid
    }
}

/// The parent identifiers of a record can be placed after its first pair.
pub open spec fn pairs_insertable(node: Seq<char>, item: Json, details: Json) -> bool {
    parent_source_ids_for(item).len() > 0 ==> pairs_with_source(node, item, details).len() > 0
}

pub open spec fn linked_item_statements(node: Seq<char>, details: Json, items: Seq<Json>) -> Seq<
    Seq<char>,
>
    decreases items.len(),
{
    if items.len() == 0 {
        Seq::empty()
    } else {
        linked_item_statements(node, details, items.drop_last()).push(
            item_statement(node, property_pairs(node, items.last(), details)),
        )
    }
}

pub open spec fn linked_node_statements(nodes: Seq<(Seq<char>, Json)>, extracted: Json) -> Seq<
    Seq<char>,
>
    decreases nodes.len(),
{
    if nodes.len() == 0 {
        Seq::empty()
    } else {
        linked_node_statements(nodes.drop_last(), extracted) + linked_item_statements(
            nodes.last().0,
            nodes.last().1,
            candidate_items(extracted, nodes.last().0),
        )
    }
}

/// The member of an extracted parent record that holds a relationship's targets:
/// the lowercased name without `_`.
pub open spec fn relationship_key(name: Seq<char>) -> Seq<char> {
    flat(ascii_lower(name).map_values(|c: char| if c == '_' { Seq::empty() } else { seq![c] }))
}

pub open spec fn source_var(from: Seq<char>) -> Seq<char> {
    if from == "Person"@ {
        "p"@
    } else if from == "Company"@ {
        "c"@
    } else {
        "a"@
    }
}

pub open spec fn target_var(to: Seq<char>) -> Seq<char> {
    if to == "Skill"@ {
        "s"@
    } else if to == "Company"@ {
        "c"@
    } else {
        "t"@
    }
}

/// A `MATCH ... MERGE` between two records identified by their source identifiers.
pub open spec fn edge_line(
    name: Seq<char>,
    from: Seq<char>,
    from_id: Seq<char>,
    to: Seq<char>,
    to_id: Seq<char>,
) -> Seq<char> {
    "MATCH ("@ + source_var(from) + ":"@ + from + " {source_id: \""@ + escape_quotes(from_id)
        + "\"}), ("@ + target_var(to) + ":"@ + to + " {source_id: \""@ + escape_quotes(to_id)
        + "\"}) MERGE ("@ + source_var(from) + ")-[:"@ + crate::document::cypher_relationship_name(name) + "]->("@
        + target_var(to) + ");"@
}

pub open spec fn edge_lines(
    name: Seq<char>,
    from: Seq<char>,
    to: Seq<char>,
    parent: Seq<(Seq<char>, Json)>,
    targets: Seq<Json>,
) -> Seq<Seq<char>>
    decreases targets.len(),
{
    if targets.len() == 0 {
        Seq::empty()
    } else {
        let r = edge_lines(name, from, to, parent, targets.drop_last());
        match (source_id_for(from, Json::Object(parent)), source_id_for(to, targets.last())) {
            (Some(fs), Some(ts)) => r.push(edge_line(name, from, fs, to, ts)),
            _ => r,
        }
    }
}

/// The edges that the extraction itself links for one relationship.
pub open spec fn linked_edges(name: Seq<char>, from: Seq<char>, to: Seq<char>, extracted: Json) -> Seq<
    Seq<char>,
> {
    match get(extracted, ascii_lower(from)) {
        Some(Json::Object(parent)) => match lookup(parent, relationship_key(name)) {
            Some(value) => edge_lines(name, from, to, parent, value_list(value)),
            None => Seq::empty(),
        },
        _ => Seq::empty(),
    }
}

pub open spec fn linked_relationship_statements(rels: Seq<(Seq<char>, Json)>, extracted: Json) -> Seq<
    Seq<char>,
>
    decreases rels.len(),
{
    if rels.len() == 0 {
        Seq::empty()
    } else {
        let r = linked_relationship_statements(rels.drop_last(), extracted);
        let name = rels.last().0;
        let from = str_or_empty(rels.last().1, "from"@);
        let to = str_or_empty(rels.last().1, "to"@);
        if from.len() == 0 || to.len() == 0 {
            r
        } else {
            r + linked_edges(name, from, to, extracted) + seq![direct_match_line(name, from, to)]
        }
    }
}

/// Every extracted record of every node can take its parent identifiers.
pub open spec fn extraction_insertable(data: Json, extracted: Json) -> bool {
    forall|i: int, j: int|
        0 <= i < nodes(data).len() && 0 <= j < candidate_items(extracted, nodes(data)[i].0).len()
            ==> pairs_insertable(
            nodes(data)[i].0,
            #[trigger] candidate_items(extracted, nodes(data)[i].0)[j],
            nodes(data)[i].1,
        )
}

/// The statements for extracted records linked by source identifiers: one `MERGE`
/// per record, then per relationship the edges the extraction links and the direct
/// match; a comment line when there are none.
pub open spec fn linked_cypher(data: Json, extracted: Json) -> Seq<char> {
    join(
        or_comment(
            linked_node_statements(nodes(data), extracted) + linked_relationship_statements(
                relationships(data),
                extracted,
            ),
        ),
        "\n"@,
    )
}

fn is_ascii_alphanumeric_exec(c: char) -> (r: bool)
    ensures
        r == is_ascii_alphanumeric(c),
{
    ('A' <= c && c <= 'Z') || ('a' <= c && c <= 'z') || ('0' <= c && c <= '9')
}

fn slug_raw_exec(s: &str) -> (r: Vec<char>)
    ensures
        r@ == slug_raw(s@),
{
    let n = s.unicode_len();
    let mut out: Vec<char> = Vec::new();
    let mut i: usize = 0;
    while i < n
        invariant
            n == s@.len(),
            0 <= i <= n,
            out@ == slug_raw(s@.take(i as int)),
        decreases n - i,
    {
        assert(s@.take(i as int + 1).drop_last() =~= s@.take(i as int));
        let c = lower_char_exec(s.get_char(i));
        if is_ascii_alphanumeric_exec(c) {
            out.push(c);
        } else if out.len() > 0 && out[out.len() - 1] != '-' {
            out.push('-');
        }
        i = i + 1;
    }
    assert(s@.take(n as int) =~= s@);
    out
}

/// The slug of a name.
pub fn slugify_exec(s: &str) -> (r: String)
    ensures
        r@ == slugify(s@),
{
    let raw = slug_raw_exec(s);
    let n = raw.len();
    let mut a: usize = 0;
    assert(raw@.skip(0) =~= raw@);
    while a < n && raw[a] == '-'
        invariant
            n == raw@.len(),
            0 <= a <= n,
            strip_front_dashes(raw@) == strip_front_dashes(raw@.skip(a as int)),
        decreases n - a,
    {
        assert(raw@.skip(a as int).drop_first() =~= raw@.skip(a as int + 1));
        a = a + 1;
    }
    let ghost t = raw@.skip(a as int);
    assert(strip_front_dashes(raw@) == t);
    let mut b: usize = n;
    assert(t.take((n - a) as int) =~= t);
    while b > a && raw[b - 1] == '-'
        invariant
            n == raw@.len(),
            0 <= a <= b <= n,
            t == raw@.skip(a as int),
            strip_back_dashes(t) == strip_back_dashes(t.take((b - a) as int)),
        decreases b,
    {
        assert(t.take((b - a) as int).drop_last() =~= t.take((b - a) as int - 1));
        b = b - 1;
    }
    assert(strip_back_dashes(t.take((b - a) as int)) == t.take((b - a) as int));
    let mut out = String::new();
    let mut k: usize = a;
    while k < b
        invariant
            n == raw@.len(),
            0 <= a <= k <= b <= n,
            t == raw@.skip(a as int),
            out@ =~= t.take((k - a) as int),
        decreases b - k,
    {
        push_char(&mut out, raw[k]);
        k = k + 1;
    }
    out
}

fn explicit_id_exec<'a>(v: &'a JsonValue) -> (r: Option<&'a str>)
    ensures
        match r {
            Some(s) => explicit_id(v@) == Some(s@),
            None => explicit_id(v@) is None,
        },
{
    match v.get_str("source_id") {
        Some(s) => Some(s),
        None => match v.get_str("sourceId") {
            Some(s) => Some(s),
            None => match v.get_str("slug") {
                Some(s) => Some(s),
                None => v.get_str("id"),
            },
        },
    }
}

/// The stable identifier of a record (see `source_id_for`).
pub fn source_id_for_exec(node: &str, v: &JsonValue) -> (r: Option<String>)
    ensures
        match r {
            Some(s) => source_id_for(node@, v@) == Some(s@),
            None => source_id_for(node@, v@) is None,
        },
{
    match explicit_id_exec(v) {
        Some(s) => {
            if !is_blank_exec(s) {
                return Some(owned(s));
            }
        },
        None => {},
    }
    match v.get_str("name") {
        Some(n) => {
            let mut out = owned(node);
            out.append(":");
            let slug = slugify_exec(n);
            out.append(slug.as_str());
            Some(out)
        },
        None => None,
    }
}

/// The parent identifiers of a record (see `parent_source_ids_for`).
pub fn parent_source_ids_for_exec(v: &JsonValue) -> (r: Vec<String>)
    ensures
        views(r@) == parent_source_ids_for(v@),
{
    let mut out: Vec<String> = Vec::new();
    match v.get("parent_source_ids") {
        Some(JsonValue::Array(items)) => {
            proof {
                lemma_array_model(*items);
            }
            let ghost m = items_model(items@);
            let mut i: usize = 0;
            while i < items.len()
                invariant
                    0 <= i <= items.len(),
                    m == items_model(items@),
                    views(out@) =~= nonblank_strings(m.take(i as int)),
                decreases items.len() - i,
            {
                assert(m.take(i as int + 1).drop_last() =~= m.take(i as int));
                assert(m[i as int] == items@[i as int]@);
                match items[i].as_str() {
                    Some(s) => {
                        if !is_blank_exec(s) {
                            let ghost before = views(out@);
                            out.push(owned(s));
                            assert(views(out@) =~= before.push(s@));
                        }
                    },
                    None => {},
                }
                i = i + 1;
            }
            assert(m.take(items.len() as int) =~= m);
        },
        _ => {},
    }
    if out.len() > 0 {
        return out;
    }
    let mut single: Vec<String> = Vec::new();
    match v.get_str("parent_source_id") {
        Some(s) => {
            if !is_blank_exec(s) {
                single.push(owned(s));
            }
        },
        None => {},
    }
    assert(views(single@) =~= parent_source_ids_for(v@));
    single
}

fn scalar_pairs_exec(expected: &Vec<(String, JsonValue)>, props: &Vec<(String, JsonValue)>) -> (r:
    Vec<String>)
    ensures
        views(r@) == scalar_pairs(fields_model(expected@), fields_model(props@)),
{
    let ghost em = fields_model(expected@);
    let mut out: Vec<String> = Vec::new();
    let mut i: usize = 0;
    while i < expected.len()
        invariant
            0 <= i <= expected.len(),
            em == fields_model(expected@),
            views(out@) =~= scalar_pairs(em.take(i as int), fields_model(props@)),
        decreases expected.len() - i,
    {
        let key = expected[i].0.as_str();
        assert(em.take(i as int + 1).drop_last() =~= em.take(i as int));
        assert(em[i as int].0 == key@);
        match field_get(props, key) {
            Some(v) => {
                let keep = match v {
                    JsonValue::Object(_) => false,
                    JsonValue::Array(_) => false,
                    JsonValue::String(s) => !((str_eq(key, "source_id") || str_eq(
                        key,
                        "parent_source_id",
                    )) && is_blank_exec(s.as_str())),
                    _ => true,
                };
                if keep {
                    let mut p = owned(key);
                    p.append(": ");
                    let lit = cypher_literal_exec(v);
                    p.append(lit.as_str());
                    let ghost before = views(out@);
                    out.push(p);
                    assert(views(out@) =~= before.push(key@ + ": "@ + cypher_literal(v@)));
                }
            },
            None => {},
        }
        i = i + 1;
    }
    assert(em.take(expected.len() as int) =~= em);
    out
}

fn quoted_ids_exec(ids: &Vec<String>) -> (r: Vec<String>)
    ensures
        views(r@) == quoted_ids(views(ids@)),
{
    let ghost m = views(ids@);
    let mut out: Vec<String> = Vec::new();
    let mut i: usize = 0;
    while i < ids.len()
        invariant
            0 <= i <= ids.len(),
            m == views(ids@),
            views(out@) =~= quoted_ids(m.take(i as int)),
        decreases ids.len() - i,
    {
        assert(m.take(i as int + 1).drop_last() =~= m.take(i as int));
        let mut q = owned("\"");
        let e = escape_quotes_exec(ids[i].as_str());
        q.append(e.as_str());
        q.append("\"");
        let ghost before = views(out@);
        out.push(q);
        assert(views(out@) =~= before.push(q@));
        i = i + 1;
    }
    assert(m.take(ids.len() as int) =~= m);
    out
}

fn property_pairs_exec(node: &str, item: &JsonValue, details: &JsonValue) -> (r: Vec<String>)
    requires
        pairs_insertable(node@, item@, details@),
    ensures
        views(r@) == property_pairs(node@, item@, details@),
{
    let empty_expected: Vec<(String, JsonValue)> = Vec::new();
    let empty_props: Vec<(String, JsonValue)> = Vec::new();
    let expected = members_exec(details, "properties", &empty_expected);
    let props = record_members_exec(item, &empty_props);
    let mut pairs = scalar_pairs_exec(expected, props);
    match source_id_for_exec(node, item) {
        Some(sid) => {
            let mut p = owned("source_id: \"");
            let e = escape_quotes_exec(sid.as_str());
            p.append(e.as_str());
            p.append("\"");
            let ghost before = views(pairs@);
            pairs.insert(0, p);
            assert(views(pairs@) =~= seq![p@] + before);
        },
        None => {},
    }
    assert(views(pairs@) =~= pairs_with_source(node@, item@, details@));
    let pids = parent_source_ids_for_exec(item);
    if pids.len() > 0 {
        let quoted = quoted_ids_exec(&pids);
        let joined = join_strings(&quoted, ", ");
        let mut p = owned("parent_source_ids: [");
        p.append(joined.as_str());
        p.append("]");
        let ghost before = views(pairs@);
        pairs.insert(1, p);
        assert(views(pairs@) =~= before.take(1) + seq![p@] + before.skip(1));
    }
    pairs
}

fn relationship_key_exec(name: &str) -> (r: String)
    ensures
        r@ == relationship_key(name@),
{
    let lower = to_ascii_lowercase(name);
    let ghost l = lower@;
    let ghost pieces = l.map_values(|c: char| if c == '_' { Seq::empty() } else { seq![c] });
    let n = lower.as_str().unicode_len();
    let mut out = String::new();
    let mut i: usize = 0;
    while i < n
        invariant
            l == lower@,
            n == l.len(),
            0 <= i <= n,
            pieces == l.map_values(|c: char| if c == '_' { Seq::empty() } else { seq![c] }),
            out@ == flat(pieces.take(i as int)),
        decreases n - i,
    {
        proof {
            lemma_flat_take(pieces, i as int);
        }
        let c = lower.as_str().get_char(i);
        if c != '_' {
            push_char(&mut out, c);
        }
        assert(out@ =~= flat(pieces.take(i as int + 1)));
        i = i + 1;
    }
    assert(pieces.take(n as int) =~= pieces);
    out
}

fn source_var_exec(from: &str) -> (r: &'static str)
    ensures
        r@ == source_var(from@),
{
    if str_eq(from, "Person") {
        "p"
    } else if str_eq(from, "Company") {
        "c"
    } else {
        "a"
    }
}

fn target_var_exec(to: &str) -> (r: &'static str)
    ensures
        r@ == target_var(to@),
{
    if str_eq(to, "Skill") {
        "s"
    } else if str_eq(to, "Company") {
        "c"
    } else {
        "t"
    }
}

fn edge_line_exec(name: &str, from: &str, from_id: &str, to: &str, to_id: &str) -> (r: String)
    ensures
        r@ == edge_line(name@, from@, from_id@, to@, to_id@),
{
    let sv = source_var_exec(from);
    let tv = target_var_exec(to);
    let rel = crate::document::cypher_relationship_name_exec(name);
    let fe = escape_quotes_exec(from_id);
    let te = escape_quotes_exec(to_id);
    let mut s = owned("MATCH (");
    s.append(sv);
    s.append(":");
    s.append(from);
    s.append(" {source_id: \"");
    s.append(fe.as_str());
    s.append("\"}), (");
    s.append(tv);
    s.append(":");
    s.append(to);
    s.append(" {source_id: \"");
    s.append(te.as_str());
    s.append("\"}) MERGE (");
    s.append(sv);
    s.append(")-[:");
    s.append(rel.as_str());
    s.append("]->(");
    s.append(tv);
    s.append(");");
    s
}

fn linked_edges_exec(name: &str, from: &str, to: &str, extracted: &JsonValue) -> (r: Vec<String>)
    ensures
        views(r@) == linked_edges(name@, from@, to@, extracted@),
{
    let mut out: Vec<String> = Vec::new();
    let lower_from = to_ascii_lowercase(from);
    let parent_value = match extracted.get(lower_from.as_str()) {
        Some(p) => p,
        None => {
            return out;
        },
    };
    let parent = match parent_value {
        JsonValue::Object(f) => f,
        _ => {
            return out;
        },
    };
    proof {
        lemma_object_model(*parent);
    }
    let key = relationship_key_exec(name);
    let value = match field_get(parent, key.as_str()) {
        Some(v) => v,
        None => {
            return out;
        },
    };
    let targets = value_list_exec(value);
    let ghost tm = Seq::new(targets@.len(), |k: int| targets@[k]@);
    let ghost pm = fields_model(parent@);
    let from_id = source_id_for_exec(from, parent_value);
    let mut i: usize = 0;
    while i < targets.len()
        invariant
            0 <= i <= targets.len(),
            tm == Seq::new(targets@.len(), |k: int| targets@[k]@),
            parent_value@ == Json::Object(pm),
            match from_id {
                Some(s) => source_id_for(from@, Json::Object(pm)) == Some(s@),
                None => source_id_for(from@, Json::Object(pm)) is None,
            },
            views(out@) =~= edge_lines(name@, from@, to@, pm, tm.take(i as int)),
        decreases targets.len() - i,
    {
        assert(tm.take(i as int + 1).drop_last() =~= tm.take(i as int));
        assert(tm[i as int] == targets@[i as int]@);
        match &from_id {
            Some(fs) => match source_id_for_exec(to, targets[i]) {
                Some(ts) => {
                    let line = edge_line_exec(name, from, fs.as_str(), to, ts.as_str());
                    let ghost before = views(out@);
                    out.push(line);
                    assert(views(out@) =~= before.push(line@));
                },
                None => {},
            },
            None => {},
        }
        i = i + 1;
    }
    assert(tm.take(targets.len() as int) =~= tm);
    out
}

impl BamlConverter {
    /// The ontology document this converter reads.
    pub closed spec fn document(&self) -> Json {
        self.data@
    }

    /// A converter over an ontology document.
    pub fn from_json(data: JsonValue) -> (r: Self)
        ensures
            r.document() == data@,
    {
        BamlConverter { data }
    }

    /// A converter over the ontology document that a JSON text holds, or the
    /// parser's error where the text is not JSON.
    pub fn from_text(text: &str) -> (r: Result<Self, JsonParseError>)
        ensures
            match r {
                Ok(c) => parsed_json(text@) == Some(c.document()) && well_formed(c.document()),
                Err(_) => parsed_json(text@) is None,
            },
    {
        match read_json(text) {
            Ok(data) => Ok(BamlConverter { data }),
            Err(e) => Err(e),
        }
    }

    /// The BAML adapter of the document (see `source_schema`).
    pub fn generate(&self) -> (r: String)
        ensures
            r@ == source_schema(self.document()),
    {
        source_schema_exec(&self.data)
    }

    /// The relationship descriptions of one node.
    fn relationship_descriptions_for_node(&self, node_name: &str) -> (r: Vec<String>)
        ensures
            views(r@) == relationship_descriptions(relationships(self.document()), node_name@),
    {
        let empty: Vec<(String, JsonValue)> = Vec::new();
        let rels = members_exec(&self.data, "relationships", &empty);
        relationship_descriptions_exec(rels, node_name)
    }

    /// The creation layer, with `source_id` and `parent_source_id` parameters on
    /// every node.
    pub fn generate_cypher_creation_layer(&self) -> (r: String)
        ensures
            r@ == creation_layer(self.document(), true),
    {
        creation_layer_exec(&self.data, true)
    }

    /// Whether every extracted record can take its parent identifiers, which
    /// `generate_cypher_from_extracted` needs.
    pub fn accepts_extraction(&self, extracted: &JsonValue) -> (r: bool)
        ensures
            r == extraction_insertable(self.document(), extracted@),
    {
        let empty_nodes: Vec<(String, JsonValue)> = Vec::new();
        let nodes = members_exec(&self.data, "nodes", &empty_nodes);
        let ghost nm = fields_model(nodes@);
        let ghost data = self.data@;
        let mut i: usize = 0;
        while i < nodes.len()
            invariant
                0 <= i <= nodes.len(),
                nm == fields_model(nodes@),
                nm == crate::document::nodes(data),
                data == self.data@,
                forall|a: int, b: int|
                    0 <= a < i && 0 <= b < candidate_items(extracted@, nm[a].0).len() ==> pairs_insertable(
                        nm[a].0,
                        #[trigger] candidate_items(extracted@, nm[a].0)[b],
                        nm[a].1,
                    ),
            decreases nodes.len() - i,
        {
            let entry = &nodes[i];
            assert(nm[i as int] == (entry.0@, entry.1@));
            let items = candidate_items_exec(extracted, entry.0.as_str());
            let ghost im = Seq::new(items@.len(), |k: int| items@[k]@);
            let mut j: usize = 0;
            while j < items.len()
                invariant
                    0 <= j <= items.len(),
                    im == Seq::new(items@.len(), |k: int| items@[k]@),
                    0 <= i < nm.len(),
                    nm == crate::document::nodes(data),
                    data == self.data@,
                    im == candidate_items(extracted@, nm[i as int].0),
                    nm[i as int] == (entry.0@, entry.1@),
                    forall|b: int| 0 <= b < j ==> pairs_insertable(
                        nm[i as int].0,
                        #[trigger] im[b],
                        nm[i as int].1,
                    ),
                decreases items.len() - j,
            {
                let item = items[j];
                assert(im[j as int] == item@);
                let pids = parent_source_ids_for_exec(item);
                if pids.len() > 0 {
                    let has_source = source_id_for_exec(entry.0.as_str(), item).is_some();
                    if !has_source {
                        let empty_expected: Vec<(String, JsonValue)> = Vec::new();
                        let empty_props: Vec<(String, JsonValue)> = Vec::new();
                        let expected = members_exec(&entry.1, "properties", &empty_expected);
                        let props = record_members_exec(item, &empty_props);
                        let base = scalar_pairs_exec(expected, props);
                        if base.len() == 0 {
                            assert(!pairs_insertable(nm[i as int].0, im[j as int], nm[i as int].1));
                            assert(!extraction_insertable(self.document(), extracted@)) by {
                                assert(!pairs_insertable(
                                    crate::document::nodes(data)[i as int].0,
                                    candidate_items(extracted@, crate::document::nodes(data)[i as int].0)[j as int],
                                    crate::document::nodes(data)[i as int].1,
                                ));
                            }
                            return false;
                        }
                    }
                }
                j = j + 1;
            }
            i = i + 1;
        }
        true
    }

    /// Cypher statements for extracted records linked by source identifiers (see
    /// `linked_cypher`).
    pub fn generate_cypher_from_extracted(&self, extracted: &JsonValue) -> (r: String)
        requires
            extraction_insertable(self.document(), extracted@),
        ensures
            r@ == linked_cypher(self.document(), extracted@),
    {
        let data = &self.data;
        let empty_nodes: Vec<(String, JsonValue)> = Vec::new();
        let empty_rels: Vec<(String, JsonValue)> = Vec::new();
        let nodes = members_exec(data, "nodes", &empty_nodes);
        let rels = members_exec(data, "relationships", &empty_rels);
        let ghost nm = fields_model(nodes@);
        let mut out: Vec<String> = Vec::new();
        let mut i: usize = 0;
        while i < nodes.len()
            invariant
                0 <= i <= nodes.len(),
                nm == fields_model(nodes@),
                nm == crate::document::nodes(data@),
                extraction_insertable(data@, extracted@),
                views(out@) =~= linked_node_statements(nm.take(i as int), extracted@),
            decreases nodes.len() - i,
        {
            let entry = &nodes[i];
            assert(nm.take(i as int + 1).drop_last() =~= nm.take(i as int));
            assert(nm[i as int] == (entry.0@, entry.1@));
            let node = entry.0.as_str();
            let items = candidate_items_exec(extracted, node);
            let ghost im = Seq::new(items@.len(), |k: int| items@[k]@);
            let ghost base = views(out@);
            let mut j: usize = 0;
            while j < items.len()
                invariant
                    0 <= j <= items.len(),
                    0 <= i < nm.len(),
                    im == Seq::new(items@.len(), |k: int| items@[k]@),
                    im == candidate_items(extracted@, nm[i as int].0),
                    nm == crate::document::nodes(data@),
                    nm[i as int] == (entry.0@, entry.1@),
                    extraction_insertable(data@, extracted@),
                    views(out@) =~= base + linked_item_statements(node@, entry.1@, im.take(j as int)),
                decreases items.len() - j,
            {
                let item = items[j];
                assert(im.take(j as int + 1).drop_last() =~= im.take(j as int));
                assert(im[j as int] == item@);
                assert(pairs_insertable(
                    nm[i as int].0,
                    candidate_items(extracted@, nm[i as int].0)[j as int],
                    nm[i as int].1,
                ));
                let pairs = property_pairs_exec(node, item, &entry.1);
                let line = item_statement_exec(node, &pairs);
                let ghost before = views(out@);
                out.push(line);
                assert(views(out@) =~= before.push(line@));
                j = j + 1;
            }
            assert(im.take(items.len() as int) =~= im);
            i = i + 1;
        }
        assert(nm.take(nodes.len() as int) =~= nm);
        let ghost node_lines = views(out@);
        let ghost rm = fields_model(rels@);
        let mut i: usize = 0;
        while i < rels.len()
            invariant
                0 <= i <= rels.len(),
                rm == fields_model(rels@),
                views(out@) =~= node_lines + linked_relationship_statements(rm.take(i as int), extracted@),
            decreases rels.len() - i,
        {
            let entry = &rels[i];
            assert(rm.take(i as int + 1).drop_last() =~= rm.take(i as int));
            assert(rm[i as int] == (entry.0@, entry.1@));
            let from = str_or_empty_exec(&entry.1, "from");
            let to = str_or_empty_exec(&entry.1, "to");
            if from.unicode_len() > 0 && to.unicode_len() > 0 {
                let mut edges = linked_edges_exec(entry.0.as_str(), from, to, extracted);
                let ghost before = views(out@);
                out.append(&mut edges);
                let direct = direct_match_line_exec(entry.0.as_str(), from, to);
                out.push(direct);
                assert(views(out@) =~= before + linked_edges(entry.0@, from@, to@, extracted@)
                    + seq![direct_match_line(entry.0@, from@, to@)]);
            }
            i = i + 1;
        }
        assert(rm.take(rels.len() as int) =~= rm);
        if out.len() == 0 {
            out.push(owned("// No extracted nodes or relationships were available."));
            assert(views(out@) =~= seq!["// No extracted nodes or relationships were available."@]);
        }
        join_strings(&out, "\n")
    }
}

} // verus!
