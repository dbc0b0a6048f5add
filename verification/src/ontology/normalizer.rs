//! Normalisation of extracted payloads: every record gets a UUID `source_id`, and
//! every parent reference becomes the UUID of the logical identifier it names.
//!
//! Within one pass each logical identifier is given one UUID: the first time it is
//! seen a fresh one is drawn, and every later record or parent reference that names
//! it gets the same one. A record without a string `source_id` gets a fresh UUID of
//! its own.
use vstd::prelude::*;
use crate::json::{
    Json, JsonValue, copy_fields, field_get, fields_model, items_model, lemma_array_model,
    lemma_object_model, lookup, object_insert, object_insert_exec, get, law_lookup_after_insert,
    law_lookup_insert_other, well_formed, law_object_insert_keeps_well_formed,
    lemma_sorted_keys_distinct,
};
use crate::text::{owned, str_eq, views};

verus! {

/// Logical identifiers and the UUIDs given to them, in the order they were given.
pub type IdMap = Seq<(Seq<char>, Seq<char>)>;

/// The UUID given to `key`, if any.
pub open spec fn find_id(map: IdMap, key: Seq<char>) -> Option<Seq<char>>
    decreases map.len(),
{
    if map.len() == 0 {
        None
    } else if map[0].0 == key {
        Some(map[0].1)
    } else {
        find_id(map.drop_first(), key)
    }
}

/// The `k`-th fresh identifier of a supply; the empty string past its end.
pub open spec fn supply_at(ids: Seq<Seq<char>>, k: nat) -> Seq<char> {
    if k < ids.len() {
        ids[k as int]
    } else {
        Seq::empty()
    }
}

/// The UUID for `key`: the one it already has, else the next fresh one.
/// Gives the UUID, the map after, and the index of the next fresh identifier.
pub open spec fn id_for(key: Seq<char>, map: IdMap, next: nat, ids: Seq<Seq<char>>) -> (
    Seq<char>,
    IdMap,
    nat,
) {
    match find_id(map, key) {
        Some(u) => (u, map, next),
        None => (supply_at(ids, next), map.push((key, supply_at(ids, next))), next + 1),
    }
}

/// The parent references: each string becomes the UUID of the identifier it names;
/// other entries are dropped.
pub open spec fn normalize_parents(pids: Seq<Json>, map: IdMap, next: nat, ids: Seq<Seq<char>>) -> (
    Seq<Json>,
    IdMap,
    nat,
)
    decreases pids.len(),
{
    if pids.len() == 0 {
        (Seq::empty(), map, next)
    } else {
        let (out, m1, n1) = normalize_parents(pids.drop_last(), map, next, ids);
        match pids.last() {
            Json::Str(p) => {
                let (u, m2, n2) = id_for(p, m1, n1, ids);
                (out.push(Json::Str(u)), m2, n2)
            },
            _ => (out, m1, n1),
        }
    }
}

/// One record: an object gets its `source_id` replaced by a UUID (that of the
/// identifier it names, or a fresh one when it has no string `source_id`) and its
/// `parent_source_ids` replaced by the normalised references (none when it has no
/// array of them). Any other value stays as it is.
pub open spec fn normalize_record(rec: Json, map: IdMap, next: nat, ids: Seq<Seq<char>>) -> (
    Json,
    IdMap,
    nat,
) {
    match rec {
        Json::Object(fields) => {
            let (sid, m1, n1) = match lookup(fields, "source_id"@) {
                Some(Json::Str(s)) => id_for(s, map, next, ids),
                _ => (supply_at(ids, next), map, next + 1),
            };
            let with_sid = object_insert(fields, "source_id"@, Json::Str(sid));
            let (parents, m2, n2) = match lookup(fields, "parent_source_ids"@) {
                Some(Json::Array(ps)) => normalize_parents(ps, m1, n1, ids),
                _ => (Seq::empty(), m1, n1),
            };
            (
                Json::Object(object_insert(with_sid, "parent_source_ids"@, Json::Array(parents))),
                m2,
                n2,
            )
        },
        _ => (rec, map, next),
    }
}

pub open spec fn normalize_records(recs: Seq<Json>, map: IdMap, next: nat, ids: Seq<Seq<char>>) -> (
    Seq<Json>,
    IdMap,
    nat,
)
    decreases recs.len(),
{
    if recs.len() == 0 {
        (Seq::empty(), map, next)
    } else {
        let (out, m1, n1) = normalize_records(recs.drop_last(), map, next, ids);
        let (r, m2, n2) = normalize_record(recs.last(), m1, n1, ids);
        (out.push(r), m2, n2)
    }
}

/// The members of the payload: an array of records becomes the array of their
/// normalisations, a single record becomes an array of one; any other member is
/// left out.
pub open spec fn normalize_members(
    fields: Seq<(Seq<char>, Json)>,
    map: IdMap,
    next: nat,
    ids: Seq<Seq<char>>,
) -> (Seq<(Seq<char>, Json)>, IdMap, nat)
    decreases fields.len(),
{
    if fields.len() == 0 {
        (Seq::empty(), map, next)
    } else {
        let (out, m1, n1) = normalize_members(fields.drop_last(), map, next, ids);
        let name = fields.last().0;
        match fields.last().1 {
            Json::Array(items) => {
                let (rs, m2, n2) = normalize_records(items, m1, n1, ids);
                (object_insert(out, name, Json::Array(rs)), m2, n2)
            },
            Json::Object(o) => {
                let (r, m2, n2) = normalize_record(Json::Object(o), m1, n1, ids);
                (object_insert(out, name, Json::Array(seq![r])), m2, n2)
            },
            _ => (out, m1, n1),
        }
    }
}

/// The normalisation of a payload that draws its fresh UUIDs from `ids` in order,
/// and how many it draws. A payload that is not an object stays as it is.
pub open spec fn normalized(v: Json, ids: Seq<Seq<char>>) -> (Json, nat) {
    match v {
        Json::Object(fields) => {
            let (out, _, n) = normalize_members(fields, Seq::empty(), 0, ids);
            (Json::Object(out), n)
        },
        _ => (v, 0),
    }
}

/// A lowercase hexadecimal digit.
pub open spec fn is_lower_hex(c: char) -> bool {
    ('0' <= c && c <= '9') || ('a' <= c && c <= 'f')
}

/// The text of a version-4 UUID in hyphenated lowercase form.
pub open spec fn is_uuid_text(s: Seq<char>) -> bool {
    &&& s.len() == 36
    &&& forall|i: int|
        0 <= i < 36 ==> if i == 8 || i == 13 || i == 18 || i == 23 {
            #[trigger] s[i] == '-'
        } else {
            is_lower_hex(s[i])
        }
    &&& s[14] == '4'
    &&& (s[19] == '8' || s[19] == '9' || s[19] == 'a' || s[19] == 'b')
}

/// Calls `uuid::Uuid::new_v4` and renders it with `to_string`. The crate sets the
/// version nibble to 4 and the variant bits to `10`, and renders the 16 bytes as
/// lowercase hexadecimal in groups of 8-4-4-4-12 joined by `-`; the other bits are
/// random, so nothing is claimed of them, nor that two calls differ.
#[verifier::external_body]
fn new_uuid_v4() -> (r: String)
    ensures
        is_uuid_text(r@),
{
    uuid::Uuid::new_v4().to_string()
}

/// `d1` is a prefix of `d2`.
pub open spec fn extends(d1: Seq<Seq<char>>, d2: Seq<Seq<char>>) -> bool {
    d1.len() <= d2.len() && forall|k: int| 0 <= k < d1.len() ==> #[trigger] d1[k] == d2[k]
}

/// A supply of fresh identifiers that agrees with what was drawn so far.
pub open spec fn agrees(ids: Seq<Seq<char>>, drawn: Seq<Seq<char>>) -> bool {
    forall|k: int| 0 <= k < drawn.len() ==> supply_at(ids, k as nat) == #[trigger] drawn[k]
}

pub proof fn lemma_agrees_prefix(ids: Seq<Seq<char>>, d1: Seq<Seq<char>>, d2: Seq<Seq<char>>)
    requires
        extends(d1, d2),
        agrees(ids, d2),
    ensures
        agrees(ids, d1),
{
    assert forall|k: int| 0 <= k < d1.len() implies supply_at(ids, k as nat) == #[trigger] d1[k] by {
        assert(d1[k] == d2[k]);
    }
}

/// The models of a map of identifiers.
pub open spec fn map_model(v: Seq<(String, String)>) -> IdMap {
    Seq::new(v.len(), |k: int| (v[k].0@, v[k].1@))
}

/// Where fresh identifiers come from: drawn at random, or taken from a given list
/// in order (the empty string once it is used up).
struct IdSupply<'a> {
    given: &'a Vec<String>,
    live: bool,
    next: usize,
    short: bool,
    drawn: Ghost<Seq<Seq<char>>>,
}

impl<'a> IdSupply<'a> {
    spec fn inv(&self) -> bool {
        &&& self.next <= self.given.len()
        &&& self.live ==> forall|k: int|
            0 <= k < self.drawn@.len() ==> is_uuid_text(#[trigger] self.drawn@[k])
        &&& !self.live ==> {
            &&& agrees(views(self.given@), self.drawn@)
            &&& self.short == (self.drawn@.len() > self.given.len())
            &&& self.next == if self.drawn@.len() < self.given.len() {
                self.drawn@.len()
            } else {
                self.given.len() as nat
            }
        }
    }

    spec fn keeps(&self, old: &IdSupply<'a>) -> bool {
        &&& self.inv()
        &&& self.given == old.given
        &&& self.live == old.live
        &&& extends(old.drawn@, self.drawn@)
    }

    fn fresh(&mut self) -> (r: String)
        requires
            old(self).inv(),
        ensures
            final(self).keeps(&*old(self)),
            final(self).drawn@ == old(self).drawn@.push(r@),
    {
        let ghost d = self.drawn@;
        if self.live {
            let u = new_uuid_v4();
            self.drawn = Ghost(d.push(u@));
            assert forall|k: int| 0 <= k < self.drawn@.len() implies is_uuid_text(
                #[trigger] self.drawn@[k],
            ) by {
                if k < d.len() {
                    assert(self.drawn@[k] == d[k]);
                }
            }
            u
        } else if self.next < self.given.len() {
            let u = self.given[self.next].clone();
            self.next = self.next + 1;
            self.drawn = Ghost(d.push(u@));
            assert forall|k: int| 0 <= k < self.drawn@.len() implies supply_at(
                views(self.given@),
                k as nat,
            ) == #[trigger] self.drawn@[k] by {
                if k < d.len() {
                    assert(self.drawn@[k] == d[k]);
                }
            }
            u
        } else {
            let u = String::new();
            self.short = true;
            self.drawn = Ghost(d.push(u@));
            assert forall|k: int| 0 <= k < self.drawn@.len() implies supply_at(
                views(self.given@),
                k as nat,
            ) == #[trigger] self.drawn@[k] by {
                if k < d.len() {
                    assert(self.drawn@[k] == d[k]);
                }
            }
            u
        }
    }
}

/// Normalises extracted payloads (see `normalized`).
#[derive(Debug, Default)]
pub struct OntologyNormalizer;

impl OntologyNormalizer {
    pub fn new() -> (r: Self)
        ensures
            r == OntologyNormalizer,
    {
        OntologyNormalizer
    }

    /// The UUID for a logical identifier, drawing a fresh one the first time.
    fn get_or_create_uuid(
        source_id: &str,
        map: &mut Vec<(String, String)>,
        supply: &mut IdSupply,
    ) -> (r: String)
        requires
            old(supply).inv(),
        ensures
            final(supply).keeps(&*old(supply)),
            forall|ids: Seq<Seq<char>>|
                #[trigger] agrees(ids, final(supply).drawn@) ==> id_for(
                    source_id@,
                    map_model(old(map)@),
                    old(supply).drawn@.len(),
                    ids,
                ) == (r@, map_model(final(map)@), final(supply).drawn@.len()),
    {
        let ghost m = map_model(map@);
        let mut i: usize = 0;
        assert(m.skip(0) =~= m);
        while i < map.len()
            invariant
                0 <= i <= map.len(),
                m == map_model(map@),
                map@ == old(map)@,
                *supply == *old(supply),
                supply.inv(),
                find_id(m, source_id@) == find_id(m.skip(i as int), source_id@),
            decreases map.len() - i,
        {
            assert(m.skip(i as int)[0] == m[i as int]);
            if str_eq(map[i].0.as_str(), source_id) {
                let u = map[i].1.clone();
                return u;
            }
            assert(m.skip(i as int).drop_first() =~= m.skip(i as int + 1));
            i = i + 1;
        }
        assert(find_id(m, source_id@) is None);
        let ghost d0 = supply.drawn@;
        let u = supply.fresh();
        map.push((owned(source_id), u.clone()));
        assert(map_model(map@) =~= m.push((source_id@, u@)));
        assert forall|ids: Seq<Seq<char>>| #[trigger] agrees(ids, supply.drawn@) implies id_for(
            source_id@,
            m,
            d0.len(),
            ids,
        ) == (u@, map_model(map@), supply.drawn@.len()) by {
            assert(supply.drawn@[d0.len() as int] == u@);
        }
        u
    }

    fn normalize_parents_exec(
        pids: &Vec<JsonValue>,
        map: &mut Vec<(String, String)>,
        supply: &mut IdSupply,
    ) -> (r: Vec<JsonValue>)
        requires
            old(supply).inv(),
        ensures
            final(supply).keeps(&*old(supply)),
            forall|ids: Seq<Seq<char>>|
                #[trigger] agrees(ids, final(supply).drawn@) ==> normalize_parents(
                    items_model(pids@),
                    map_model(old(map)@),
                    old(supply).drawn@.len(),
                    ids,
                ) == (items_model(r@), map_model(final(map)@), final(supply).drawn@.len()),
    {
        let ghost pm = items_model(pids@);
        let ghost m0 = map_model(map@);
        let ghost d0 = supply.drawn@;
        let mut out: Vec<JsonValue> = Vec::new();
        let mut i: usize = 0;
        while i < pids.len()
            invariant
                0 <= i <= pids.len(),
                pm == items_model(pids@),
                supply.inv(),
                supply.given == old(supply).given,
                supply.live == old(supply).live,
                d0 == old(supply).drawn@,
                m0 == map_model(old(map)@),
                extends(d0, supply.drawn@),
                forall|ids: Seq<Seq<char>>|
                    #[trigger] agrees(ids, supply.drawn@) ==> normalize_parents(
                        pm.take(i as int),
                        m0,
                        d0.len(),
                        ids,
                    ) == (items_model(out@), map_model(map@), supply.drawn@.len()),
            decreases pids.len() - i,
        {
            assert(pm.take(i as int + 1).drop_last() =~= pm.take(i as int));
            assert(pm[i as int] == pids@[i as int]@);
            let ghost d1 = supply.drawn@;
            let ghost m1 = map_model(map@);
            let ghost o1 = items_model(out@);
            match &pids[i] {
                JsonValue::String(p) => {
                    let u = Self::get_or_create_uuid(p.as_str(), map, supply);
                    let ghost uv = u@;
                    out.push(JsonValue::String(u));
                    assert(items_model(out@) =~= o1.push(Json::Str(uv)));
                    assert forall|ids: Seq<Seq<char>>| #[trigger]
                        agrees(ids, supply.drawn@) implies normalize_parents(
                        pm.take(i as int + 1),
                        m0,
                        d0.len(),
                        ids,
                    ) == (items_model(out@), map_model(map@), supply.drawn@.len()) by {
                        lemma_agrees_prefix(ids, d1, supply.drawn@);
                        assert(agrees(ids, d1));
                    }
                },
                _ => {
                    assert forall|ids: Seq<Seq<char>>| #[trigger]
                        agrees(ids, supply.drawn@) implies normalize_parents(
                        pm.take(i as int + 1),
                        m0,
                        d0.len(),
                        ids,
                    ) == (items_model(out@), map_model(map@), supply.drawn@.len()) by {}
                },
            }
            i = i + 1;
        }
        assert(pm.take(pids.len() as int) =~= pm);
        out
    }

    fn normalize_record_exec(
        record: &JsonValue,
        map: &mut Vec<(String, String)>,
        supply: &mut IdSupply,
    ) -> (r: JsonValue)
        requires
            old(supply).inv(),
        ensures
            final(supply).keeps(&*old(supply)),
            forall|ids: Seq<Seq<char>>|
                #[trigger] agrees(ids, final(supply).drawn@) ==> normalize_record(
                    record@,
                    map_model(old(map)@),
                    old(supply).drawn@.len(),
                    ids,
                ) == (r@, map_model(final(map)@), final(supply).drawn@.len()),
    {
        let fields = match record {
            JsonValue::Object(f) => f,
            _ => {
                return record.copy();
            },
        };
        proof {
            lemma_object_model(*fields);
        }
        let ghost fm = fields_model(fields@);
        let ghost m0 = map_model(map@);
        let ghost d0 = supply.drawn@;
        let mut result = copy_fields(fields);
        let sid = match field_get(fields, "source_id") {
            Some(JsonValue::String(s)) => Self::get_or_create_uuid(s.as_str(), map, supply),
            _ => supply.fresh(),
        };
        let ghost d1 = supply.drawn@;
        let ghost m1 = map_model(map@);
        let ghost sv = sid@;
        assert forall|ids: Seq<Seq<char>>| #[trigger] agrees(ids, d1) implies (match lookup(
            fm,
            "source_id"@,
        ) {
            Some(Json::Str(s)) => id_for(s, m0, d0.len(), ids),
            _ => (supply_at(ids, d0.len()), m0, d0.len() + 1),
        }) == (sv, m1, d1.len()) by {
            if !(lookup(fm, "source_id"@) matches Some(Json::Str(_))) {
                assert(d1[d0.len() as int] == sv);
            }
        }
        object_insert_exec(&mut result, owned("source_id"), JsonValue::String(sid));
        let ghost with_sid = fields_model(result@);
        let parents = match field_get(fields, "parent_source_ids") {
            Some(JsonValue::Array(ps)) => {
                proof {
                    lemma_array_model(*ps);
                }
                Self::normalize_parents_exec(ps, map, supply)
            },
            _ => Vec::new(),
        };
        let ghost pv = items_model(parents@);
        let parents_value = JsonValue::Array(parents);
        proof {
            lemma_array_model(parents);
        }
        object_insert_exec(&mut result, owned("parent_source_ids"), parents_value);
        let out = JsonValue::Object(result);
        proof {
            lemma_object_model(result);
        }
        assert forall|ids: Seq<Seq<char>>| #[trigger] agrees(ids, supply.drawn@) implies normalize_record(
            record@,
            m0,
            d0.len(),
            ids,
        ) == (out@, map_model(map@), supply.drawn@.len()) by {
            lemma_agrees_prefix(ids, d1, supply.drawn@);
            assert(agrees(ids, d1));
            if !(lookup(fm, "parent_source_ids"@) matches Some(Json::Array(_))) {
                assert(pv =~= Seq::<Json>::empty());
            }
        }
        out
    }

    fn normalize_members_exec(
        input: &Vec<(String, JsonValue)>,
        map: &mut Vec<(String, String)>,
        supply: &mut IdSupply,
    ) -> (r: Vec<(String, JsonValue)>)
        requires
            old(supply).inv(),
        ensures
            final(supply).keeps(&*old(supply)),
            forall|ids: Seq<Seq<char>>|
                #[trigger] agrees(ids, final(supply).drawn@) ==> normalize_members(
                    fields_model(input@),
                    map_model(old(map)@),
                    old(supply).drawn@.len(),
                    ids,
                ) == (fields_model(r@), map_model(final(map)@), final(supply).drawn@.len()),
    {
        let ghost im = fields_model(input@);
        let ghost m0 = map_model(map@);
        let ghost d0 = supply.drawn@;
        let mut output: Vec<(String, JsonValue)> = Vec::new();
        let mut i: usize = 0;
        while i < input.len()
            invariant
                0 <= i <= input.len(),
                im == fields_model(input@),
                supply.inv(),
                supply.given == old(supply).given,
                supply.live == old(supply).live,
                d0 == old(supply).drawn@,
                m0 == map_model(old(map)@),
                extends(d0, supply.drawn@),
                forall|ids: Seq<Seq<char>>|
                    #[trigger] agrees(ids, supply.drawn@) ==> normalize_members(
                        im.take(i as int),
                        m0,
                        d0.len(),
                        ids,
                    ) == (fields_model(output@), map_model(map@), supply.drawn@.len()),
            decreases input.len() - i,
        {
            let entry = &input[i];
            assert(im.take(i as int + 1).drop_last() =~= im.take(i as int));
            assert(im[i as int] == (entry.0@, entry.1@));
            let ghost d1 = supply.drawn@;
            let ghost m1 = map_model(map@);
            let ghost o1 = fields_model(output@);
            match &entry.1 {
                JsonValue::Array(items) => {
                    proof {
                        lemma_array_model(*items);
                    }
                    let ghost rm = items_model(items@);
                    let mut records: Vec<JsonValue> = Vec::new();
                    let mut j: usize = 0;
                    while j < items.len()
                        invariant
                            0 <= j <= items.len(),
                            rm == items_model(items@),
                            supply.inv(),
                            supply.given == old(supply).given,
                            supply.live == old(supply).live,
                            extends(d1, supply.drawn@),
                            extends(d0, d1),
                            forall|ids: Seq<Seq<char>>|
                                #[trigger] agrees(ids, supply.drawn@) ==> normalize_records(
                                    rm.take(j as int),
                                    m1,
                                    d1.len(),
                                    ids,
                                ) == (items_model(records@), map_model(map@), supply.drawn@.len()),
                        decreases items.len() - j,
                    {
                        assert(rm.take(j as int + 1).drop_last() =~= rm.take(j as int));
                        assert(rm[j as int] == items@[j as int]@);
                        let ghost d2 = supply.drawn@;
                        let ghost rs2 = items_model(records@);
                        let r = Self::normalize_record_exec(&items[j], map, supply);
                        let ghost rv = r@;
                        records.push(r);
                        assert(items_model(records@) =~= rs2.push(rv));
                        assert forall|ids: Seq<Seq<char>>| #[trigger]
                            agrees(ids, supply.drawn@) implies normalize_records(
                            rm.take(j as int + 1),
                            m1,
                            d1.len(),
                            ids,
                        ) == (items_model(records@), map_model(map@), supply.drawn@.len()) by {
                            lemma_agrees_prefix(ids, d2, supply.drawn@);
                            assert(agrees(ids, d2));
                        }
                        j = j + 1;
                    }
                    assert(rm.take(items.len() as int) =~= rm);
                    let ghost rsv = items_model(records@);
                    let value = JsonValue::Array(records);
                    proof {
                        lemma_array_model(records);
                    }
                    object_insert_exec(&mut output, entry.0.clone(), value);
                    assert forall|ids: Seq<Seq<char>>| #[trigger]
                        agrees(ids, supply.drawn@) implies normalize_members(
                        im.take(i as int + 1),
                        m0,
                        d0.len(),
                        ids,
                    ) == (fields_model(output@), map_model(map@), supply.drawn@.len()) by {
                        lemma_agrees_prefix(ids, d1, supply.drawn@);
                        assert(agrees(ids, d1));
                    }
                },
                JsonValue::Object(_) => {
                    let r = Self::normalize_record_exec(&entry.1, map, supply);
                    let ghost rv = r@;
                    let mut records: Vec<JsonValue> = Vec::new();
                    records.push(r);
                    proof {
                        lemma_array_model(records);
                        assert(items_model(records@) =~= seq![rv]);
                    }
                    let value = JsonValue::Array(records);
                    object_insert_exec(&mut output, entry.0.clone(), value);
                    assert forall|ids: Seq<Seq<char>>| #[trigger]
                        agrees(ids, supply.drawn@) implies normalize_members(
                        im.take(i as int + 1),
                        m0,
                        d0.len(),
                        ids,
                    ) == (fields_model(output@), map_model(map@), supply.drawn@.len()) by {
                        lemma_agrees_prefix(ids, d1, supply.drawn@);
                        assert(agrees(ids, d1));
                    }
                },
                _ => {
                    assert forall|ids: Seq<Seq<char>>| #[trigger]
                        agrees(ids, supply.drawn@) implies normalize_members(
                        im.take(i as int + 1),
                        m0,
                        d0.len(),
                        ids,
                    ) == (fields_model(output@), map_model(map@), supply.drawn@.len()) by {}
                },
            }
            i = i + 1;
        }
        assert(im.take(input.len() as int) =~= im);
        output
    }

    fn normalize_with(&self, value: &JsonValue, supply: &mut IdSupply) -> (r: JsonValue)
        requires
            old(supply).inv(),
            old(supply).drawn@.len() == 0,
        ensures
            final(supply).keeps(&*old(supply)),
            forall|ids: Seq<Seq<char>>|
                #[trigger] agrees(ids, final(supply).drawn@) ==> normalized(value@, ids) == (
                    r@,
                    final(supply).drawn@.len(),
                ),
    {
        match value {
            JsonValue::Object(input) => {
                proof {
                    lemma_object_model(*input);
                }
                let mut map: Vec<(String, String)> = Vec::new();
                assert(map_model(map@) =~= Seq::<(Seq<char>, Seq<char>)>::empty());
                let out = Self::normalize_members_exec(input, &mut map, supply);
                proof {
                    lemma_object_model(out);
                }
                JsonValue::Object(out)
            },
            _ => value.copy(),
        }
    }

    /// Normalises a payload, drawing a fresh random UUID wherever one is needed.
    /// The result is the normalisation for some sequence of UUIDs, all of the
    /// version-4 text form, of exactly the length that normalisation draws.
    pub fn normalize(&self, value: &JsonValue) -> (r: JsonValue)
        ensures
            exists|ids: Seq<Seq<char>>|
                {
                    &&& forall|k: int| 0 <= k < ids.len() ==> is_uuid_text(#[trigger] ids[k])
                    &&& normalized(value@, ids) == (r@, ids.len())
                },
    {
        let none: Vec<String> = Vec::new();
        let mut supply = IdSupply { given: &none, live: true, next: 0, short: false, drawn: Ghost(Seq::empty()) };
        let out = self.normalize_with(value, &mut supply);
        let ghost d = supply.drawn@;
        assert(agrees(d, d));
        assert(normalized(value@, d) == (out@, d.len()));
        out
    }

    /// Normalises a payload with the fresh UUIDs taken from `ids` in order. Gives
    /// the normalisation when `ids` holds enough of them, and nothing otherwise.
    pub fn normalize_with_ids(&self, value: &JsonValue, ids: &Vec<String>) -> (r: Option<JsonValue>)
        ensures
            match r {
                Some(out) => normalized(value@, views(ids@)).1 <= ids.len() && out@ == normalized(
                    value@,
                    views(ids@),
                ).0,
                None => normalized(value@, views(ids@)).1 > ids.len(),
            },
    {
        let mut supply = IdSupply { given: ids, live: false, next: 0, short: false, drawn: Ghost(Seq::empty()) };
        let out = self.normalize_with(value, &mut supply);
        let ghost d = supply.drawn@;
        assert(agrees(views(ids@), d));
        if supply.short {
            None
        } else {
            Some(out)
        }
    }
}

pub proof fn lemma_find_id_push(map: IdMap, k: Seq<char>, u: Seq<char>, key: Seq<char>)
    ensures
        find_id(map.push((k, u)), key) == if find_id(map, key) is Some {
            find_id(map, key)
        } else if key == k {
            Some(u)
        } else {
            None
        },
    decreases map.len(),
{
    if map.len() == 0 {
        assert(map.push((k, u)).drop_first() =~= Seq::<(Seq<char>, Seq<char>)>::empty());
        assert(find_id(Seq::<(Seq<char>, Seq<char>)>::empty(), key) is None);
        assert(find_id(map, key) is None);
    } else {
        lemma_find_id_push(map.drop_first(), k, u, key);
        assert(map.push((k, u)).drop_first() =~= map.drop_first().push((k, u)));
        assert(map.push((k, u))[0] == map[0]);
    }
}

/// A UUID once given stays given (for `id_for`).
pub proof fn lemma_id_for_keeps(key: Seq<char>, map: IdMap, next: nat, ids: Seq<Seq<char>>, k: Seq<char>)
    ensures
        find_id(map, k) is Some ==> find_id(id_for(key, map, next, ids).1, k) == find_id(map, k),
        find_id(id_for(key, map, next, ids).1, key) == Some(id_for(key, map, next, ids).0),
{
    lemma_find_id_push(map, key, supply_at(ids, next), k);
    lemma_find_id_push(map, key, supply_at(ids, next), key);
}

/// Asking for the UUID of an identifier gives the one it already has, leaving the
/// map as it was, or else gives the next fresh UUID and records it; every UUID
/// given before stays given, and asking again for the same identifier gives the
/// same UUID and changes nothing.
pub proof fn law_id_for_repeat(key: Seq<char>, map: IdMap, next: nat, ids: Seq<Seq<char>>)
    ensures
        ({
            let (u, m1, n1) = id_for(key, map, next, ids);
            &&& find_id(map, key) matches Some(v) ==> u == v && m1 == map && n1 == next
            &&& find_id(map, key) is None ==> u == supply_at(ids, next) && m1 == map.push((key, u))
                && n1 == next + 1
            &&& find_id(m1, key) == Some(u)
            &&& forall|other: Seq<char>|
                #[trigger] find_id(map, other) is Some ==> find_id(m1, other) == find_id(map, other)
            &&& id_for(key, m1, n1, ids) == (u, m1, n1)
        }),
{
    lemma_id_for_keeps(key, map, next, ids, key);
    let (u, m1, n1) = id_for(key, map, next, ids);
    assert forall|other: Seq<char>| #[trigger] find_id(map, other) is Some implies find_id(m1, other)
        == find_id(map, other) by {
        lemma_id_for_keeps(key, map, next, ids, other);
    }
}

/// A UUID once given stays given (for parent references).
pub proof fn lemma_parents_keep(pids: Seq<Json>, map: IdMap, next: nat, ids: Seq<Seq<char>>, k: Seq<char>)
    requires
        find_id(map, k) is Some,
    ensures
        find_id(normalize_parents(pids, map, next, ids).1, k) == find_id(map, k),
    decreases pids.len(),
{
    if pids.len() > 0 {
        lemma_parents_keep(pids.drop_last(), map, next, ids, k);
        let (_, m1, n1) = normalize_parents(pids.drop_last(), map, next, ids);
        if let Json::Str(p) = pids.last() {
            lemma_id_for_keeps(p, m1, n1, ids, k);
        }
    }
}

/// A UUID once given stays given (for one record).
pub proof fn lemma_record_keeps(rec: Json, map: IdMap, next: nat, ids: Seq<Seq<char>>, k: Seq<char>)
    requires
        find_id(map, k) is Some,
    ensures
        find_id(normalize_record(rec, map, next, ids).1, k) == find_id(map, k),
{
    if let Json::Object(fields) = rec {
        let (sid, m1, n1) = match lookup(fields, "source_id"@) {
            Some(Json::Str(s)) => id_for(s, map, next, ids),
            _ => (supply_at(ids, next), map, next + 1),
        };
        if let Some(Json::Str(s)) = lookup(fields, "source_id"@) {
            lemma_id_for_keeps(s, map, next, ids, k);
        }
        if let Some(Json::Array(ps)) = lookup(fields, "parent_source_ids"@) {
            lemma_parents_keep(ps, m1, n1, ids, k);
        }
    }
}

/// A UUID once given stays given (for a list of records).
pub proof fn lemma_records_keep(recs: Seq<Json>, map: IdMap, next: nat, ids: Seq<Seq<char>>, k: Seq<char>)
    requires
        find_id(map, k) is Some,
    ensures
        find_id(normalize_records(recs, map, next, ids).1, k) == find_id(map, k),
    decreases recs.len(),
{
    if recs.len() > 0 {
        lemma_records_keep(recs.drop_last(), map, next, ids, k);
        let (_, m1, n1) = normalize_records(recs.drop_last(), map, next, ids);
        lemma_record_keeps(recs.last(), m1, n1, ids, k);
    }
}

/// The `source_id` of a record with a string `source_id` becomes the UUID that the
/// map holds for that string afterwards.
pub proof fn lemma_record_source_id(rec: Json, map: IdMap, next: nat, ids: Seq<Seq<char>>, s: Seq<char>)
    requires
        rec matches Json::Object(fields) && lookup(fields, "source_id"@) == Some(Json::Str(s)),
    ensures
        ({
            let (out, m2, _) = normalize_record(rec, map, next, ids);
            exists|u: Seq<char>|
                get(out, "source_id"@) == Some(Json::Str(u)) && find_id(m2, s) == Some(u)
        }),
{
    if let Json::Object(fields) = rec {
        let (sid, m1, n1) = id_for(s, map, next, ids);
        lemma_id_for_keeps(s, map, next, ids, s);
        let with_sid = object_insert(fields, "source_id"@, Json::Str(sid));
        let (parents, m2, n2) = match lookup(fields, "parent_source_ids"@) {
            Some(Json::Array(ps)) => normalize_parents(ps, m1, n1, ids),
            _ => (Seq::empty(), m1, n1),
        };
        if let Some(Json::Array(ps)) = lookup(fields, "parent_source_ids"@) {
            lemma_parents_keep(ps, m1, n1, ids, s);
        }
        reveal_strlit("source_id");
        reveal_strlit("parent_source_ids");
        assert("source_id"@ != "parent_source_ids"@) by {
            assert("source_id"@.len() != "parent_source_ids"@.len());
        }
        law_lookup_insert_other(with_sid, "parent_source_ids"@, Json::Array(parents), "source_id"@);
        law_lookup_after_insert(fields, "source_id"@, Json::Str(sid));
        let out = normalize_record(rec, map, next, ids).0;
        assert(get(out, "source_id"@) == Some(Json::Str(sid)));
    }
}

pub proof fn lemma_records_len(recs: Seq<Json>, map: IdMap, next: nat, ids: Seq<Seq<char>>)
    ensures
        normalize_records(recs, map, next, ids).0.len() == recs.len(),
    decreases recs.len(),
{
    if recs.len() > 0 {
        lemma_records_len(recs.drop_last(), map, next, ids);
    }
}

pub proof fn lemma_records_source_id(
    recs: Seq<Json>,
    map: IdMap,
    next: nat,
    ids: Seq<Seq<char>>,
    a: int,
    s: Seq<char>,
)
    requires
        0 <= a < recs.len(),
        recs[a] matches Json::Object(fields) && lookup(fields, "source_id"@) == Some(Json::Str(s)),
    ensures
        ({
            let (out, m2, _) = normalize_records(recs, map, next, ids);
            exists|u: Seq<char>|
                get(out[a], "source_id"@) == Some(Json::Str(u)) && find_id(m2, s) == Some(u)
        }),
    decreases recs.len(),
{
    let (o1, m1, n1) = normalize_records(recs.drop_last(), map, next, ids);
    let (r, m2, n2) = normalize_record(recs.last(), m1, n1, ids);
    assert(normalize_records(recs, map, next, ids) == (o1.push(r), m2, n2));
    lemma_records_len(recs.drop_last(), map, next, ids);
    if a == recs.len() - 1 {
        lemma_record_source_id(recs.last(), m1, n1, ids, s);
    } else {
        assert(recs.drop_last()[a] == recs[a]);
        lemma_records_source_id(recs.drop_last(), map, next, ids, a, s);
        let u = choose|u: Seq<char>|
            get(o1[a], "source_id"@) == Some(Json::Str(u)) && find_id(m1, s) == Some(u);
        lemma_record_keeps(recs.last(), m1, n1, ids, s);
        assert(get(normalize_records(recs, map, next, ids).0[a], "source_id"@) == Some(
            Json::Str(u),
        ));
    }
}

/// Within one pass, two records that carry the same logical `source_id` get the
/// same UUID.
pub proof fn law_same_source_id_same_uuid(
    recs: Seq<Json>,
    map: IdMap,
    next: nat,
    ids: Seq<Seq<char>>,
    a: int,
    b: int,
    s: Seq<char>,
)
    requires
        0 <= a < b < recs.len(),
        recs[a] matches Json::Object(fa) && lookup(fa, "source_id"@) == Some(Json::Str(s)),
        recs[b] matches Json::Object(fb) && lookup(fb, "source_id"@) == Some(Json::Str(s)),
    ensures
        get(normalize_records(recs, map, next, ids).0[a], "source_id"@) == get(
            normalize_records(recs, map, next, ids).0[b],
            "source_id"@,
        ),
    decreases recs.len(),
{
    let (o1, m1, n1) = normalize_records(recs.drop_last(), map, next, ids);
    let (r0, m20, n20) = normalize_record(recs.last(), m1, n1, ids);
    assert(normalize_records(recs, map, next, ids) == (o1.push(r0), m20, n20));
    lemma_records_len(recs.drop_last(), map, next, ids);
    assert(recs.drop_last()[a] == recs[a]);
    if b < recs.len() - 1 {
        assert(recs.drop_last()[b] == recs[b]);
        law_same_source_id_same_uuid(recs.drop_last(), map, next, ids, a, b, s);
    } else {
        lemma_records_source_id(recs.drop_last(), map, next, ids, a, s);
        let u = choose|u: Seq<char>|
            get(o1[a], "source_id"@) == Some(Json::Str(u)) && find_id(m1, s) == Some(u);
        lemma_record_source_id(recs[b], m1, n1, ids, s);
        lemma_id_for_keeps(s, m1, n1, ids, s);
        let (r, m2, _) = normalize_record(recs[b], m1, n1, ids);
        let w = choose|w: Seq<char>|
            get(r, "source_id"@) == Some(Json::Str(w)) && find_id(m2, s) == Some(w);
        if let Json::Object(fb) = recs[b] {
            let (sid, m3, n3) = id_for(s, m1, n1, ids);
            assert(sid == u);
            if let Some(Json::Array(ps)) = lookup(fb, "parent_source_ids"@) {
                lemma_parents_keep(ps, m3, n3, ids, s);
            }
        }
        assert(w == u);
    }
}

/// Every normalised object record has a string `source_id` and an array of
/// `parent_source_ids`.
pub proof fn law_record_has_ids(rec: Json, map: IdMap, next: nat, ids: Seq<Seq<char>>)
    requires
        rec is Object,
    ensures
        get(normalize_record(rec, map, next, ids).0, "source_id"@) matches Some(Json::Str(_)),
        get(normalize_record(rec, map, next, ids).0, "parent_source_ids"@) matches Some(
            Json::Array(_),
        ),
{
    if let Json::Object(fields) = rec {
        let (sid, m1, n1) = match lookup(fields, "source_id"@) {
            Some(Json::Str(s)) => id_for(s, map, next, ids),
            _ => (supply_at(ids, next), map, next + 1),
        };
        let with_sid = object_insert(fields, "source_id"@, Json::Str(sid));
        let (parents, m2, n2) = match lookup(fields, "parent_source_ids"@) {
            Some(Json::Array(ps)) => normalize_parents(ps, m1, n1, ids),
            _ => (Seq::empty(), m1, n1),
        };
        reveal_strlit("source_id");
        reveal_strlit("parent_source_ids");
        assert("source_id"@ != "parent_source_ids"@) by {
            assert("source_id"@.len() != "parent_source_ids"@.len());
        }
        law_lookup_insert_other(with_sid, "parent_source_ids"@, Json::Array(parents), "source_id"@);
        law_lookup_after_insert(fields, "source_id"@, Json::Str(sid));
        law_lookup_after_insert(with_sid, "parent_source_ids"@, Json::Array(parents));
    }
}

pub proof fn lemma_parents_contains(
    pids: Seq<Json>,
    map: IdMap,
    next: nat,
    ids: Seq<Seq<char>>,
    k: int,
    p: Seq<char>,
)
    requires
        0 <= k < pids.len(),
        pids[k] == Json::Str(p),
    ensures
        ({
            let (out, m2, _) = normalize_parents(pids, map, next, ids);
            exists|w: Seq<char>| #[trigger] out.contains(Json::Str(w)) && find_id(m2, p) == Some(w)
        }),
    decreases pids.len(),
{
    let (o1, m1, n1) = normalize_parents(pids.drop_last(), map, next, ids);
    if k == pids.len() - 1 {
        lemma_id_for_keeps(p, m1, n1, ids, p);
        let (u, m2, n2) = id_for(p, m1, n1, ids);
        assert(normalize_parents(pids, map, next, ids) == (o1.push(Json::Str(u)), m2, n2));
        assert(o1.push(Json::Str(u))[o1.len() as int] == Json::Str(u));
        assert(o1.push(Json::Str(u)).contains(Json::Str(u)) && find_id(m2, p) == Some(u));
        assert(normalize_parents(pids, map, next, ids).0.contains(Json::Str(u)));
    } else {
        assert(pids.drop_last()[k] == pids[k]);
        lemma_parents_contains(pids.drop_last(), map, next, ids, k, p);
        let w = choose|w: Seq<char>| o1.contains(Json::Str(w)) && find_id(m1, p) == Some(w);
        let i = choose|i: int| 0 <= i < o1.len() && o1[i] == Json::Str(w);
        match pids.last() {
            Json::Str(q) => {
                lemma_id_for_keeps(q, m1, n1, ids, p);
                let (u, m2, n2) = id_for(q, m1, n1, ids);
                assert(normalize_parents(pids, map, next, ids) == (o1.push(Json::Str(u)), m2, n2));
                assert(o1.push(Json::Str(u))[i] == Json::Str(w));
                assert(o1.push(Json::Str(u)).contains(Json::Str(w)) && find_id(m2, p) == Some(w));
                assert(normalize_parents(pids, map, next, ids).0.contains(Json::Str(w)));
            },
            _ => {
                assert(normalize_parents(pids, map, next, ids) == (o1, m1, n1));
                assert(o1.contains(Json::Str(w)) && find_id(m1, p) == Some(w));
                assert(normalize_parents(pids, map, next, ids).0.contains(Json::Str(w)));
            },
        }
    }
}

/// The parent references of a normalised record.
pub open spec fn parents_of(v: Json) -> Seq<Json> {
    match get(v, "parent_source_ids"@) {
        Some(Json::Array(q)) => q,
        _ => Seq::empty(),
    }
}

pub proof fn lemma_record_parent(
    rec: Json,
    map: IdMap,
    next: nat,
    ids: Seq<Seq<char>>,
    k: int,
    p: Seq<char>,
)
    requires
        rec matches Json::Object(fields) && lookup(fields, "parent_source_ids"@) matches Some(
            Json::Array(ps),
        ) && 0 <= k < ps.len() && ps[k] == Json::Str(p),
    ensures
        ({
            let (out, m2, _) = normalize_record(rec, map, next, ids);
            exists|w: Seq<char>|
                #[trigger] parents_of(out).contains(Json::Str(w)) && find_id(m2, p) == Some(w)
        }),
{
    if let Json::Object(fields) = rec {
        if let Some(Json::Array(ps)) = lookup(fields, "parent_source_ids"@) {
            let (sid, m1, n1) = match lookup(fields, "source_id"@) {
                Some(Json::Str(s)) => id_for(s, map, next, ids),
                _ => (supply_at(ids, next), map, next + 1),
            };
            let with_sid = object_insert(fields, "source_id"@, Json::Str(sid));
            lemma_parents_contains(ps, m1, n1, ids, k, p);
            let (parents, m2, n2) = normalize_parents(ps, m1, n1, ids);
            law_lookup_after_insert(with_sid, "parent_source_ids"@, Json::Array(parents));
            assert(normalize_record(rec, map, next, ids) == (
                Json::Object(object_insert(with_sid, "parent_source_ids"@, Json::Array(parents))),
                m2,
                n2,
            ));
            let out = Json::Object(object_insert(with_sid, "parent_source_ids"@, Json::Array(parents)));
            assert(parents_of(out) == parents);
            let w = choose|w: Seq<char>| parents.contains(Json::Str(w)) && find_id(m2, p) == Some(w);
            assert(parents_of(out).contains(Json::Str(w)) && find_id(m2, p) == Some(w));
        }
    }
}

pub proof fn lemma_records_parent(
    recs: Seq<Json>,
    map: IdMap,
    next: nat,
    ids: Seq<Seq<char>>,
    b: int,
    k: int,
    p: Seq<char>,
)
    requires
        0 <= b < recs.len(),
        recs[b] matches Json::Object(fields) && lookup(fields, "parent_source_ids"@) matches Some(
            Json::Array(ps),
        ) && 0 <= k < ps.len() && ps[k] == Json::Str(p),
    ensures
        ({
            let (out, m2, _) = normalize_records(recs, map, next, ids);
            exists|w: Seq<char>|
                #[trigger] parents_of(out[b]).contains(Json::Str(w)) && find_id(m2, p) == Some(w)
        }),
    decreases recs.len(),
{
    let (o1, m1, n1) = normalize_records(recs.drop_last(), map, next, ids);
    let (r, m2, n2) = normalize_record(recs.last(), m1, n1, ids);
    assert(normalize_records(recs, map, next, ids) == (o1.push(r), m2, n2));
    lemma_records_len(recs.drop_last(), map, next, ids);
    if b == recs.len() - 1 {
        lemma_record_parent(recs.last(), m1, n1, ids, k, p);
        assert(o1.push(r)[b] == r);
        let w = choose|w: Seq<char>| #[trigger] parents_of(r).contains(Json::Str(w)) && find_id(m2, p) == Some(w);
        assert(parents_of(o1.push(r)[b]).contains(Json::Str(w)) && find_id(m2, p) == Some(w));
        assert(parents_of(normalize_records(recs, map, next, ids).0[b]).contains(Json::Str(w)));
    } else {
        assert(recs.drop_last()[b] == recs[b]);
        lemma_records_parent(recs.drop_last(), map, next, ids, b, k, p);
        let w = choose|w: Seq<char>|
            #[trigger] parents_of(o1[b]).contains(Json::Str(w)) && find_id(m1, p) == Some(w);
        lemma_record_keeps(recs.last(), m1, n1, ids, p);
        assert(o1.push(r)[b] == o1[b]);
        assert(parents_of(o1.push(r)[b]).contains(Json::Str(w)) && find_id(m2, p) == Some(w));
        assert(parents_of(normalize_records(recs, map, next, ids).0[b]).contains(Json::Str(w)));
    }
}

/// Within one pass, a parent reference to a logical identifier gets the same UUID as
/// the record that carries that identifier as its `source_id`, whichever comes first.
pub proof fn law_parent_reference_same_uuid(
    recs: Seq<Json>,
    map: IdMap,
    next: nat,
    ids: Seq<Seq<char>>,
    a: int,
    b: int,
    k: int,
    s: Seq<char>,
)
    requires
        0 <= a < recs.len(),
        0 <= b < recs.len(),
        recs[a] matches Json::Object(fa) && lookup(fa, "source_id"@) == Some(Json::Str(s)),
        recs[b] matches Json::Object(fb) && lookup(fb, "parent_source_ids"@) matches Some(
            Json::Array(ps),
        ) && 0 <= k < ps.len() && ps[k] == Json::Str(s),
    ensures
        exists|u: Seq<char>|
            get(normalize_records(recs, map, next, ids).0[a], "source_id"@) == Some(Json::Str(u))
                && #[trigger] parents_of(normalize_records(recs, map, next, ids).0[b]).contains(
                Json::Str(u),
            ),
{
    lemma_records_source_id(recs, map, next, ids, a, s);
    lemma_records_parent(recs, map, next, ids, b, k, s);
}

/// The records a payload member holds: those of an array, or a single object.
pub open spec fn member_records(v: Json) -> Seq<Json> {
    match v {
        Json::Array(items) => items,
        Json::Object(o) => seq![Json::Object(o)],
        _ => Seq::empty(),
    }
}

/// The members of an object have pairwise distinct names, as in any JSON object.
pub open spec fn distinct_names(fields: Seq<(Seq<char>, Json)>) -> bool {
    forall|p: int, q: int| 0 <= p < q < fields.len() ==> #[trigger] fields[p].0 != #[trigger] fields[q].0
}

proof fn lemma_distinct_names_drop_last(fields: Seq<(Seq<char>, Json)>)
    requires
        fields.len() > 0,
        distinct_names(fields),
    ensures
        distinct_names(fields.drop_last()),
{
    assert forall|p: int, q: int| 0 <= p < q < fields.drop_last().len() implies #[trigger] fields.drop_last()[p].0
        != #[trigger] fields.drop_last()[q].0 by {
        assert(fields.drop_last()[p] == fields[p]);
        assert(fields.drop_last()[q] == fields[q]);
    }
}

/// In the normalised payload, the member of the same name holds the normalised
/// records; a record with a string `source_id` gets the UUID that the map holds for
/// that string at the end of the pass.
pub proof fn lemma_members_source_id(
    fields: Seq<(Seq<char>, Json)>,
    map: IdMap,
    next: nat,
    ids: Seq<Seq<char>>,
    i: int,
    a: int,
    s: Seq<char>,
)
    requires
        distinct_names(fields),
        0 <= i < fields.len(),
        0 <= a < member_records(fields[i].1).len(),
        member_records(fields[i].1)[a] matches Json::Object(fa) && lookup(fa, "source_id"@) == Some(
            Json::Str(s),
        ),
    ensures
        ({
            let (out, m, _) = normalize_members(fields, map, next, ids);
            &&& find_id(m, s) is Some
            &&& lookup(out, fields[i].0) matches Some(Json::Array(rs))
            &&& a < rs.len()
            &&& get(rs[a], "source_id"@) == Some(Json::Str(find_id(m, s).unwrap()))
        }),
    decreases fields.len(),
{
    let (o1, m1, n1) = normalize_members(fields.drop_last(), map, next, ids);
    let name = fields.last().0;
    let last = fields.len() - 1;
    if i < last {
        lemma_distinct_names_drop_last(fields);
        assert(fields.drop_last()[i] == fields[i]);
        lemma_members_source_id(fields.drop_last(), map, next, ids, i, a, s);
        assert(fields[i].0 != fields[last].0);
        match fields.last().1 {
            Json::Array(items) => {
                let rs2 = normalize_records(items, m1, n1, ids).0;
                law_lookup_insert_other(o1, name, Json::Array(rs2), fields[i].0);
                lemma_records_keep(items, m1, n1, ids, s);
            },
            Json::Object(o) => {
                let r = normalize_record(Json::Object(o), m1, n1, ids).0;
                law_lookup_insert_other(o1, name, Json::Array(seq![r]), fields[i].0);
                lemma_record_keeps(Json::Object(o), m1, n1, ids, s);
            },
            _ => {},
        }
    } else {
        match fields.last().1 {
            Json::Array(items) => {
                lemma_records_source_id(items, m1, n1, ids, a, s);
                lemma_records_len(items, m1, n1, ids);
                let rs = normalize_records(items, m1, n1, ids).0;
                law_lookup_after_insert(o1, name, Json::Array(rs));
            },
            Json::Object(o) => {
                assert(member_records(fields[i].1)[a] == Json::Object(o));
                lemma_record_source_id(Json::Object(o), m1, n1, ids, s);
                let r = normalize_record(Json::Object(o), m1, n1, ids).0;
                law_lookup_after_insert(o1, name, Json::Array(seq![r]));
                assert(seq![r][a] == r);
            },
            _ => {},
        }
    }
}

/// Within one pass over a payload, two records that carry the same logical
/// `source_id` get the same UUID, whichever members of the payload hold them.
pub proof fn law_payload_same_source_id_same_uuid(
    fields: Seq<(Seq<char>, Json)>,
    ids: Seq<Seq<char>>,
    i: int,
    a: int,
    j: int,
    b: int,
    s: Seq<char>,
)
    requires
        distinct_names(fields),
        0 <= i < fields.len(),
        0 <= j < fields.len(),
        0 <= a < member_records(fields[i].1).len(),
        0 <= b < member_records(fields[j].1).len(),
        member_records(fields[i].1)[a] matches Json::Object(fa) && lookup(fa, "source_id"@) == Some(
            Json::Str(s),
        ),
        member_records(fields[j].1)[b] matches Json::Object(fb) && lookup(fb, "source_id"@) == Some(
            Json::Str(s),
        ),
    ensures
        ({
            let out = normalized(Json::Object(fields), ids).0;
            &&& out matches Json::Object(of)
            &&& lookup(of, fields[i].0) matches Some(Json::Array(ri))
            &&& lookup(of, fields[j].0) matches Some(Json::Array(rj))
            &&& a < ri.len()
            &&& b < rj.len()
            &&& get(ri[a], "source_id"@) matches Some(Json::Str(_))
            &&& get(ri[a], "source_id"@) == get(rj[b], "source_id"@)
        }),
{
    lemma_members_source_id(fields, Seq::empty(), 0, ids, i, a, s);
    lemma_members_source_id(fields, Seq::empty(), 0, ids, j, b, s);
}


/// In the normalised payload, a parent reference to a logical identifier becomes the
/// UUID that the map holds for it at the end of the pass.
pub proof fn lemma_members_parent(
    fields: Seq<(Seq<char>, Json)>,
    map: IdMap,
    next: nat,
    ids: Seq<Seq<char>>,
    j: int,
    b: int,
    k: int,
    p: Seq<char>,
)
    requires
        distinct_names(fields),
        0 <= j < fields.len(),
        0 <= b < member_records(fields[j].1).len(),
        member_records(fields[j].1)[b] matches Json::Object(fb) && lookup(fb, "parent_source_ids"@)
            matches Some(Json::Array(ps)) && 0 <= k < ps.len() && ps[k] == Json::Str(p),
    ensures
        ({
            let (out, m, _) = normalize_members(fields, map, next, ids);
            &&& find_id(m, p) is Some
            &&& lookup(out, fields[j].0) matches Some(Json::Array(rs))
            &&& b < rs.len()
            &&& parents_of(rs[b]).contains(Json::Str(find_id(m, p).unwrap()))
        }),
    decreases fields.len(),
{
    let (o1, m1, n1) = normalize_members(fields.drop_last(), map, next, ids);
    let name = fields.last().0;
    let last = fields.len() - 1;
    if j < last {
        lemma_distinct_names_drop_last(fields);
        assert(fields.drop_last()[j] == fields[j]);
        lemma_members_parent(fields.drop_last(), map, next, ids, j, b, k, p);
        assert(fields[j].0 != fields[last].0);
        match fields.last().1 {
            Json::Array(items) => {
                let rs2 = normalize_records(items, m1, n1, ids).0;
                law_lookup_insert_other(o1, name, Json::Array(rs2), fields[j].0);
                lemma_records_keep(items, m1, n1, ids, p);
            },
            Json::Object(o) => {
                let r = normalize_record(Json::Object(o), m1, n1, ids).0;
                law_lookup_insert_other(o1, name, Json::Array(seq![r]), fields[j].0);
                lemma_record_keeps(Json::Object(o), m1, n1, ids, p);
            },
            _ => {},
        }
    } else {
        match fields.last().1 {
            Json::Array(items) => {
                lemma_records_parent(items, m1, n1, ids, b, k, p);
                lemma_records_len(items, m1, n1, ids);
                let rs = normalize_records(items, m1, n1, ids).0;
                law_lookup_after_insert(o1, name, Json::Array(rs));
            },
            Json::Object(o) => {
                assert(member_records(fields[j].1)[b] == Json::Object(o));
                lemma_record_parent(Json::Object(o), m1, n1, ids, k, p);
                let r = normalize_record(Json::Object(o), m1, n1, ids).0;
                law_lookup_after_insert(o1, name, Json::Array(seq![r]));
                assert(seq![r][b] == r);
            },
            _ => {},
        }
    }
}

/// Within one pass over a payload, a parent reference to a logical identifier gets
/// the same UUID as the record that carries that identifier as its `source_id`,
/// whichever members of the payload hold the two.
pub proof fn law_payload_parent_reference_same_uuid(
    fields: Seq<(Seq<char>, Json)>,
    ids: Seq<Seq<char>>,
    i: int,
    a: int,
    j: int,
    b: int,
    k: int,
    s: Seq<char>,
)
    requires
        distinct_names(fields),
        0 <= i < fields.len(),
        0 <= j < fields.len(),
        0 <= a < member_records(fields[i].1).len(),
        0 <= b < member_records(fields[j].1).len(),
        member_records(fields[i].1)[a] matches Json::Object(fa) && lookup(fa, "source_id"@) == Some(
            Json::Str(s),
        ),
        member_records(fields[j].1)[b] matches Json::Object(fb) && lookup(fb, "parent_source_ids"@)
            matches Some(Json::Array(ps)) && 0 <= k < ps.len() && ps[k] == Json::Str(s),
    ensures
        ({
            let out = normalized(Json::Object(fields), ids).0;
            &&& out matches Json::Object(of)
            &&& lookup(of, fields[i].0) matches Some(Json::Array(ri))
            &&& lookup(of, fields[j].0) matches Some(Json::Array(rj))
            &&& a < ri.len()
            &&& b < rj.len()
            &&& get(ri[a], "source_id"@) matches Some(Json::Str(u))
            &&& parents_of(rj[b]).contains(Json::Str(u))
        }),
{
    lemma_members_source_id(fields, Seq::empty(), 0, ids, i, a, s);
    lemma_members_parent(fields, Seq::empty(), 0, ids, j, b, k, s);
}


/// The fresh identifiers of a supply are pairwise distinct.
pub open spec fn distinct_ids(ids: Seq<Seq<char>>) -> bool {
    forall|i: int, j: int| 0 <= i < j < ids.len() ==> #[trigger] ids[i] != #[trigger] ids[j]
}

/// `u` is one of the first `next` fresh identifiers of the supply.
pub open spec fn drawn_before(u: Seq<char>, next: nat, ids: Seq<Seq<char>>) -> bool {
    exists|k: int| 0 <= k < next && k < ids.len() && #[trigger] ids[k] == u
}

/// Every UUID in the map is one of the first `next` fresh identifiers of the
/// supply, and no two entries of the map share a UUID.
pub open spec fn ids_drawn(map: IdMap, next: nat, ids: Seq<Seq<char>>) -> bool {
    &&& forall|p: int| 0 <= p < map.len() ==> #[trigger] drawn_before(map[p].1, next, ids)
    &&& forall|p: int, q: int| 0 <= p < q < map.len() ==> #[trigger] map[p].1 != #[trigger] map[q].1
}

proof fn lemma_find_id_entry(map: IdMap, key: Seq<char>)
    ensures
        find_id(map, key) matches Some(u) ==> exists|p: int|
            0 <= p < map.len() && #[trigger] map[p] == (key, u),
    decreases map.len(),
{
    if map.len() > 0 && map[0].0 != key {
        lemma_find_id_entry(map.drop_first(), key);
        if let Some(u) = find_id(map, key) {
            let p = choose|p: int| 0 <= p < map.drop_first().len() && #[trigger] map.drop_first()[p] == (key, u);
            assert(map[p + 1] == (key, u));
        }
    } else if map.len() > 0 {
        assert(map[0] == (key, map[0].1));
    }
}

proof fn lemma_drawn_grow(map: IdMap, n: nat, n2: nat, ids: Seq<Seq<char>>)
    requires
        ids_drawn(map, n, ids),
        n <= n2,
    ensures
        ids_drawn(map, n2, ids),
{
    assert forall|p: int| 0 <= p < map.len() implies #[trigger] drawn_before(map[p].1, n2, ids) by {
        assert(drawn_before(map[p].1, n, ids));
        let k = choose|k: int| 0 <= k < n && k < ids.len() && #[trigger] ids[k] == map[p].1;
        assert(0 <= k < n2 && k < ids.len() && ids[k] == map[p].1);
    }
}

proof fn lemma_drawn_id_for(key: Seq<char>, map: IdMap, next: nat, ids: Seq<Seq<char>>)
    requires
        distinct_ids(ids),
        ids_drawn(map, next, ids),
        id_for(key, map, next, ids).2 <= ids.len(),
    ensures
        ids_drawn(id_for(key, map, next, ids).1, id_for(key, map, next, ids).2, ids),
{
    if find_id(map, key) is None {
        let u = supply_at(ids, next);
        let m1 = map.push((key, u));
        assert(u == ids[next as int]);
        assert forall|p: int| 0 <= p < m1.len() implies #[trigger] drawn_before(m1[p].1, next + 1, ids) by {
            if p < map.len() {
                assert(m1[p] == map[p]);
                assert(drawn_before(map[p].1, next, ids));
                let k = choose|k: int| 0 <= k < next && k < ids.len() && #[trigger] ids[k] == map[p].1;
                assert(0 <= k < next + 1 && k < ids.len() && ids[k] == m1[p].1);
            } else {
                assert(ids[next as int] == m1[p].1);
            }
        }
        assert forall|p: int, q: int| 0 <= p < q < m1.len() implies #[trigger] m1[p].1
            != #[trigger] m1[q].1 by {
            assert(m1[p] == map[p]);
            if q < map.len() {
                assert(m1[q] == map[q]);
            } else {
                assert(drawn_before(map[p].1, next, ids));
                let k = choose|k: int| 0 <= k < next && k < ids.len() && #[trigger] ids[k] == map[p].1;
                assert(ids[k] != ids[next as int]);
            }
        }
    }
}

proof fn lemma_parents_next(pids: Seq<Json>, map: IdMap, next: nat, ids: Seq<Seq<char>>)
    ensures
        normalize_parents(pids, map, next, ids).2 >= next,
    decreases pids.len(),
{
    if pids.len() > 0 {
        lemma_parents_next(pids.drop_last(), map, next, ids);
    }
}

proof fn lemma_record_next(rec: Json, map: IdMap, next: nat, ids: Seq<Seq<char>>)
    ensures
        normalize_record(rec, map, next, ids).2 >= next,
{
    if let Json::Object(fields) = rec {
        let (sid, m1, n1) = match lookup(fields, "source_id"@) {
            Some(Json::Str(s)) => id_for(s, map, next, ids),
            _ => (supply_at(ids, next), map, next + 1),
        };
        if let Some(Json::Array(ps)) = lookup(fields, "parent_source_ids"@) {
            lemma_parents_next(ps, m1, n1, ids);
        }
    }
}

proof fn lemma_records_next(recs: Seq<Json>, map: IdMap, next: nat, ids: Seq<Seq<char>>)
    ensures
        normalize_records(recs, map, next, ids).2 >= next,
    decreases recs.len(),
{
    if recs.len() > 0 {
        lemma_records_next(recs.drop_last(), map, next, ids);
        let (_, m1, n1) = normalize_records(recs.drop_last(), map, next, ids);
        lemma_record_next(recs.last(), m1, n1, ids);
    }
}

proof fn lemma_members_next(
    fields: Seq<(Seq<char>, Json)>,
    map: IdMap,
    next: nat,
    ids: Seq<Seq<char>>,
)
    ensures
        normalize_members(fields, map, next, ids).2 >= next,
    decreases fields.len(),
{
    if fields.len() > 0 {
        lemma_members_next(fields.drop_last(), map, next, ids);
        let (_, m1, n1) = normalize_members(fields.drop_last(), map, next, ids);
        match fields.last().1 {
            Json::Array(items) => lemma_records_next(items, m1, n1, ids),
            Json::Object(o) => lemma_record_next(Json::Object(o), m1, n1, ids),
            _ => {},
        }
    }
}

proof fn lemma_drawn_parents(pids: Seq<Json>, map: IdMap, next: nat, ids: Seq<Seq<char>>)
    requires
        distinct_ids(ids),
        ids_drawn(map, next, ids),
        normalize_parents(pids, map, next, ids).2 <= ids.len(),
    ensures
        ids_drawn(normalize_parents(pids, map, next, ids).1, normalize_parents(pids, map, next, ids).2, ids),
    decreases pids.len(),
{
    if pids.len() > 0 {
        let (_, m1, n1) = normalize_parents(pids.drop_last(), map, next, ids);
        if let Json::Str(p) = pids.last() {
            assert(id_for(p, m1, n1, ids).2 >= n1);
        }
        lemma_drawn_parents(pids.drop_last(), map, next, ids);
        if let Json::Str(p) = pids.last() {
            lemma_drawn_id_for(p, m1, n1, ids);
        }
    }
}

proof fn lemma_drawn_record(rec: Json, map: IdMap, next: nat, ids: Seq<Seq<char>>)
    requires
        distinct_ids(ids),
        ids_drawn(map, next, ids),
        normalize_record(rec, map, next, ids).2 <= ids.len(),
    ensures
        ids_drawn(normalize_record(rec, map, next, ids).1, normalize_record(rec, map, next, ids).2, ids),
{
    if let Json::Object(fields) = rec {
        let (sid, m1, n1) = match lookup(fields, "source_id"@) {
            Some(Json::Str(s)) => id_for(s, map, next, ids),
            _ => (supply_at(ids, next), map, next + 1),
        };
        if let Some(Json::Array(ps)) = lookup(fields, "parent_source_ids"@) {
            lemma_parents_next(ps, m1, n1, ids);
        }
        match lookup(fields, "source_id"@) {
            Some(Json::Str(s)) => lemma_drawn_id_for(s, map, next, ids),
            _ => lemma_drawn_grow(map, next, next + 1, ids),
        }
        if let Some(Json::Array(ps)) = lookup(fields, "parent_source_ids"@) {
            lemma_drawn_parents(ps, m1, n1, ids);
        }
    }
}

proof fn lemma_drawn_records(recs: Seq<Json>, map: IdMap, next: nat, ids: Seq<Seq<char>>)
    requires
        distinct_ids(ids),
        ids_drawn(map, next, ids),
        normalize_records(recs, map, next, ids).2 <= ids.len(),
    ensures
        ids_drawn(normalize_records(recs, map, next, ids).1, normalize_records(recs, map, next, ids).2, ids),
    decreases recs.len(),
{
    if recs.len() > 0 {
        let (_, m1, n1) = normalize_records(recs.drop_last(), map, next, ids);
        lemma_record_next(recs.last(), m1, n1, ids);
        lemma_drawn_records(recs.drop_last(), map, next, ids);
        lemma_drawn_record(recs.last(), m1, n1, ids);
    }
}

proof fn lemma_drawn_members(
    fields: Seq<(Seq<char>, Json)>,
    map: IdMap,
    next: nat,
    ids: Seq<Seq<char>>,
)
    requires
        distinct_ids(ids),
        ids_drawn(map, next, ids),
        normalize_members(fields, map, next, ids).2 <= ids.len(),
    ensures
        ids_drawn(normalize_members(fields, map, next, ids).1, normalize_members(fields, map, next, ids).2, ids),
    decreases fields.len(),
{
    if fields.len() > 0 {
        let (_, m1, n1) = normalize_members(fields.drop_last(), map, next, ids);
        match fields.last().1 {
            Json::Array(items) => lemma_records_next(items, m1, n1, ids),
            Json::Object(o) => lemma_record_next(Json::Object(o), m1, n1, ids),
            _ => {},
        }
        lemma_drawn_members(fields.drop_last(), map, next, ids);
        match fields.last().1 {
            Json::Array(items) => lemma_drawn_records(items, m1, n1, ids),
            Json::Object(o) => lemma_drawn_record(Json::Object(o), m1, n1, ids),
            _ => {},
        }
    }
}

/// Within one pass over a payload whose fresh UUIDs come from pairwise distinct
/// identifiers, all of them available (`normalize_with_ids` then gives `Some`),
/// two records that carry different logical `source_id`s get different UUIDs.
pub proof fn law_payload_different_source_ids_different_uuids(
    fields: Seq<(Seq<char>, Json)>,
    ids: Seq<Seq<char>>,
    i: int,
    a: int,
    j: int,
    b: int,
    s1: Seq<char>,
    s2: Seq<char>,
)
    requires
        distinct_names(fields),
        distinct_ids(ids),
        normalized(Json::Object(fields), ids).1 <= ids.len(),
        0 <= i < fields.len(),
        0 <= j < fields.len(),
        0 <= a < member_records(fields[i].1).len(),
        0 <= b < member_records(fields[j].1).len(),
        member_records(fields[i].1)[a] matches Json::Object(fa) && lookup(fa, "source_id"@) == Some(
            Json::Str(s1),
        ),
        member_records(fields[j].1)[b] matches Json::Object(fb) && lookup(fb, "source_id"@) == Some(
            Json::Str(s2),
        ),
        s1 != s2,
    ensures
        ({
            let out = normalized(Json::Object(fields), ids).0;
            &&& out matches Json::Object(of)
            &&& lookup(of, fields[i].0) matches Some(Json::Array(ri))
            &&& lookup(of, fields[j].0) matches Some(Json::Array(rj))
            &&& a < ri.len()
            &&& b < rj.len()
            &&& get(ri[a], "source_id"@) != get(rj[b], "source_id"@)
        }),
{
    let empty: IdMap = Seq::empty();
    lemma_members_source_id(fields, empty, 0, ids, i, a, s1);
    lemma_members_source_id(fields, empty, 0, ids, j, b, s2);
    lemma_drawn_members(fields, empty, 0, ids);
    let (out, m, n) = normalize_members(fields, empty, 0, ids);
    let u1 = find_id(m, s1).unwrap();
    let u2 = find_id(m, s2).unwrap();
    lemma_find_id_entry(m, s1);
    lemma_find_id_entry(m, s2);
    let p = choose|p: int| 0 <= p < m.len() && #[trigger] m[p] == (s1, u1);
    let q = choose|q: int| 0 <= q < m.len() && #[trigger] m[q] == (s2, u2);
    assert(p != q);
    if p < q {
        assert(m[p].1 != m[q].1);
    } else {
        assert(m[q].1 != m[p].1);
    }
    assert(Json::Str(u1) != Json::Str(u2));
}


/// The members of a well-formed object have distinct names.
pub proof fn lemma_well_formed_distinct_names(fields: Seq<(Seq<char>, Json)>)
    requires
        well_formed(Json::Object(fields)),
    ensures
        distinct_names(fields),
{
    assert forall|p: int, q: int| 0 <= p < q < fields.len() implies #[trigger] fields[p].0
        != #[trigger] fields[q].0 by {
        lemma_sorted_keys_distinct(fields, p, q);
    }
}

proof fn lemma_wf_parents(pids: Seq<Json>, map: IdMap, next: nat, ids: Seq<Seq<char>>)
    ensures
        forall|i: int|
            0 <= i < normalize_parents(pids, map, next, ids).0.len() ==> well_formed(
                #[trigger] normalize_parents(pids, map, next, ids).0[i],
            ),
    decreases pids.len(),
{
    if pids.len() > 0 {
        lemma_wf_parents(pids.drop_last(), map, next, ids);
        let (o1, m1, n1) = normalize_parents(pids.drop_last(), map, next, ids);
        if let Json::Str(p) = pids.last() {
            let (u, m2, n2) = id_for(p, m1, n1, ids);
            let o = o1.push(Json::Str(u));
            assert forall|i: int| 0 <= i < o.len() implies well_formed(#[trigger] o[i]) by {
                if i < o1.len() {
                    assert(o[i] == o1[i]);
                }
            }
        }
    }
}

proof fn lemma_wf_record(rec: Json, map: IdMap, next: nat, ids: Seq<Seq<char>>)
    requires
        well_formed(rec),
    ensures
        well_formed(normalize_record(rec, map, next, ids).0),
{
    if let Json::Object(fields) = rec {
        let (sid, m1, n1) = match lookup(fields, "source_id"@) {
            Some(Json::Str(s)) => id_for(s, map, next, ids),
            _ => (supply_at(ids, next), map, next + 1),
        };
        let with_sid = object_insert(fields, "source_id"@, Json::Str(sid));
        let (parents, m2, n2) = match lookup(fields, "parent_source_ids"@) {
            Some(Json::Array(ps)) => normalize_parents(ps, m1, n1, ids),
            _ => (Seq::empty(), m1, n1),
        };
        if let Some(Json::Array(ps)) = lookup(fields, "parent_source_ids"@) {
            lemma_wf_parents(ps, m1, n1, ids);
        }
        law_object_insert_keeps_well_formed(fields, "source_id"@, Json::Str(sid));
        assert(well_formed(Json::Array(parents)));
        law_object_insert_keeps_well_formed(with_sid, "parent_source_ids"@, Json::Array(parents));
    }
}

proof fn lemma_wf_records(recs: Seq<Json>, map: IdMap, next: nat, ids: Seq<Seq<char>>)
    requires
        forall|i: int| 0 <= i < recs.len() ==> well_formed(#[trigger] recs[i]),
    ensures
        forall|i: int|
            0 <= i < normalize_records(recs, map, next, ids).0.len() ==> well_formed(
                #[trigger] normalize_records(recs, map, next, ids).0[i],
            ),
    decreases recs.len(),
{
    if recs.len() > 0 {
        let (o1, m1, n1) = normalize_records(recs.drop_last(), map, next, ids);
        assert forall|i: int| 0 <= i < recs.drop_last().len() implies well_formed(
            #[trigger] recs.drop_last()[i],
        ) by {
            assert(recs.drop_last()[i] == recs[i]);
        }
        lemma_wf_records(recs.drop_last(), map, next, ids);
        assert(well_formed(recs[recs.len() - 1]));
        lemma_wf_record(recs.last(), m1, n1, ids);
        let (r, m2, n2) = normalize_record(recs.last(), m1, n1, ids);
        let o = o1.push(r);
        assert forall|i: int| 0 <= i < o.len() implies well_formed(#[trigger] o[i]) by {
            if i < o1.len() {
                assert(o[i] == o1[i]);
                assert(well_formed(o1[i]));
            } else {
                assert(o[i] == r);
            }
        }
        assert(normalize_records(recs, map, next, ids).0 == o);
    }
}

proof fn lemma_wf_members(fields: Seq<(Seq<char>, Json)>, map: IdMap, next: nat, ids: Seq<Seq<char>>)
    requires
        forall|i: int| 0 <= i < fields.len() ==> well_formed(#[trigger] fields[i].1),
    ensures
        well_formed(Json::Object(normalize_members(fields, map, next, ids).0)),
    decreases fields.len(),
{
    if fields.len() == 0 {
        let e: Seq<(Seq<char>, Json)> = Seq::empty();
        assert(well_formed(Json::Object(e)));
    } else {
        assert forall|i: int| 0 <= i < fields.drop_last().len() implies well_formed(
            #[trigger] fields.drop_last()[i].1,
        ) by {
            assert(fields.drop_last()[i] == fields[i]);
        }
        lemma_wf_members(fields.drop_last(), map, next, ids);
        let (o1, m1, n1) = normalize_members(fields.drop_last(), map, next, ids);
        let name = fields.last().0;
        assert(well_formed(fields[fields.len() - 1].1));
        match fields.last().1 {
            Json::Array(items) => {
                lemma_wf_records(items, m1, n1, ids);
                let rs = normalize_records(items, m1, n1, ids).0;
                assert(well_formed(Json::Array(rs)));
                law_object_insert_keeps_well_formed(o1, name, Json::Array(rs));
            },
            Json::Object(o) => {
                lemma_wf_record(Json::Object(o), m1, n1, ids);
                let r = normalize_record(Json::Object(o), m1, n1, ids).0;
                assert(well_formed(Json::Array(seq![r]))) by {
                    assert forall|i: int| 0 <= i < seq![r].len() implies well_formed(#[trigger] seq![r][i]) by {
                        assert(seq![r][i] == r);
                    }
                }
                law_object_insert_keeps_well_formed(o1, name, Json::Array(seq![r]));
            },
            _ => {},
        }
    }
}

/// Normalising a well-formed payload gives a well-formed value: every object in it
/// still has strictly increasing, distinct keys.
pub proof fn law_normalize_keeps_well_formed(v: Json, ids: Seq<Seq<char>>)
    requires
        well_formed(v),
    ensures
        well_formed(normalized(v, ids).0),
{
    if let Json::Object(fields) = v {
        lemma_wf_members(fields, Seq::empty(), 0, ids);
    }
}


} // verus!
