//! The JSON document model: the values that the generators and the normaliser read.
//!
//! An object keeps its members in key order, as a sorted map does; `object_insert`
//! places a new key where a sorted map would put it and replaces an existing one.
use vstd::prelude::*;
use crate::text::{flat, join, lemma_flat_take, push_char, str_eq, views, join_strings, escape_quotes, escape_quotes_exec, owned};

verus! {

/// The mathematical value of a JSON document.
pub enum Json {
    Null,
    Bool(bool),
    /// A number, by its decimal rendering.
    Number(Seq<char>),
    Str(Seq<char>),
    Array(Seq<Json>),
    Object(Seq<(Seq<char>, Json)>),
}

/// A JSON value.
#[derive(Debug)]
pub enum JsonValue {
    Null,
    Bool(bool),
    /// A number, held as its decimal rendering (as `serde_json::Number` displays it).
    Number(String),
    String(String),
    Array(Vec<JsonValue>),
    Object(Vec<(String, JsonValue)>),
}

impl JsonValue {
    pub open spec fn model(self) -> Json
        decreases self,
    {
        match self {
            JsonValue::Null => Json::Null,
            JsonValue::Bool(b) => Json::Bool(b),
            JsonValue::Number(n) => Json::Number(n@),
            JsonValue::String(s) => Json::Str(s@),
            JsonValue::Array(items) => Json::Array(
                Seq::new(
                    items.len() as nat,
                    |i: int|
                        if 0 <= i < items.len() {
                            items@[i].model()
                        } else {
                            Json::Null
                        },
                ),
            ),
            JsonValue::Object(fields) => Json::Object(
                Seq::new(
                    fields.len() as nat,
                    |i: int|
                        if 0 <= i < fields.len() {
                            (fields@[i].0@, fields@[i].1.model())
                        } else {
                            (Seq::empty(), Json::Null)
                        },
                ),
            ),
        }
    }
}

impl View for JsonValue {
    type V = Json;

    open spec fn view(&self) -> Json {
        self.model()
    }
}

/// The models of a vector of values.
pub open spec fn items_model(items: Seq<JsonValue>) -> Seq<Json> {
    Seq::new(items.len(), |i: int| items[i]@)
}

/// The models of the members of an object.
pub open spec fn fields_model(fields: Seq<(String, JsonValue)>) -> Seq<(Seq<char>, Json)> {
    Seq::new(fields.len(), |i: int| (fields[i].0@, fields[i].1@))
}

pub proof fn lemma_array_model(items: Vec<JsonValue>)
    ensures
        JsonValue::Array(items)@ == Json::Array(items_model(items@)),
{
    match JsonValue::Array(items).model() {
        Json::Array(f) => {
            assert(f =~= items_model(items@));
        },
        _ => {},
    }
}

pub proof fn lemma_object_model(fields: Vec<(String, JsonValue)>)
    ensures
        JsonValue::Object(fields)@ == Json::Object(fields_model(fields@)),
{
    match JsonValue::Object(fields).model() {
        Json::Object(f) => {
            assert(f =~= fields_model(fields@));
        },
        _ => {},
    }
}

/// Strict order of keys: lexicographic by character, a proper prefix first
/// (the order of `String`, since UTF-8 keeps code-point order).
pub open spec fn key_lt(a: Seq<char>, b: Seq<char>) -> bool
    decreases a.len(),
{
    if b.len() == 0 {
        false
    } else if a.len() == 0 {
        true
    } else if a[0] != b[0] {
        a[0] < b[0]
    } else {
        key_lt(a.drop_first(), b.drop_first())
    }
}

/// The value stored under `key`, if any.
pub open spec fn lookup(fields: Seq<(Seq<char>, Json)>, key: Seq<char>) -> Option<Json>
    decreases fields.len(),
{
    if fields.len() == 0 {
        None
    } else if fields[0].0 == key {
        Some(fields[0].1)
    } else {
        lookup(fields.drop_first(), key)
    }
}

/// The members after `key` is set to `value`: an existing member is replaced in
/// place, a new one goes before the first larger key.
pub open spec fn object_insert(fields: Seq<(Seq<char>, Json)>, key: Seq<char>, value: Json) -> Seq<
    (Seq<char>, Json),
>
    decreases fields.len(),
{
    if fields.len() == 0 {
        seq![(key, value)]
    } else if fields[0].0 == key {
        seq![(key, value)] + fields.drop_first()
    } else if key_lt(key, fields[0].0) {
        seq![(key, value)] + fields
    } else {
        seq![fields[0]] + object_insert(fields.drop_first(), key, value)
    }
}

/// The members have strictly increasing keys (as a sorted map keeps them).
pub open spec fn keys_sorted(fields: Seq<(Seq<char>, Json)>) -> bool {
    forall|i: int, j: int| 0 <= i < j < fields.len() ==> key_lt(fields[i].0, fields[j].0)
}

/// A well-formed JSON value: every object in it, at any depth, has strictly
/// increasing keys, so no key twice, as a `serde_json` map has them.
pub open spec fn well_formed(v: Json) -> bool
    decreases v,
{
    match v {
        Json::Array(items) => forall|i: int| 0 <= i < items.len() ==> well_formed(#[trigger] items[i]),
        Json::Object(fields) => keys_sorted(fields) && forall|i: int|
            0 <= i < fields.len() ==> well_formed(#[trigger] fields[i].1),
        _ => true,
    }
}

/// `value.get(key)`: the member of an object; nothing for any other value.
pub open spec fn get(v: Json, key: Seq<char>) -> Option<Json> {
    match v {
        Json::Object(fields) => lookup(fields, key),
        _ => None,
    }
}

/// `value.as_str()`.
pub open spec fn as_str(v: Json) -> Option<Seq<char>> {
    match v {
        Json::Str(s) => Some(s),
        _ => None,
    }
}

/// `value.as_object()`.
pub open spec fn as_object(v: Json) -> Option<Seq<(Seq<char>, Json)>> {
    match v {
        Json::Object(fields) => Some(fields),
        _ => None,
    }
}

/// `value.as_array()`.
pub open spec fn as_array(v: Json) -> Option<Seq<Json>> {
    match v {
        Json::Array(items) => Some(items),
        _ => None,
    }
}

/// `value.get(key).and_then(Value::as_str)`.
pub open spec fn get_str(v: Json, key: Seq<char>) -> Option<Seq<char>> {
    match get(v, key) {
        Some(x) => as_str(x),
        None => None,
    }
}

/// `value.get(key).and_then(Value::as_str).unwrap_or_default()`.
pub open spec fn str_or_empty(v: Json, key: Seq<char>) -> Seq<char> {
    match get_str(v, key) {
        Some(s) => s,
        None => Seq::empty(),
    }
}

impl Clone for JsonValue {
    /// A copy with the same value.
    fn clone(&self) -> (r: Self)
        ensures
            r@ == self@,
    {
        self.copy()
    }
}

/// A value of `serde_json`'s own JSON model; it only passes through the parser.
#[verifier::external_type_specification]
#[verifier::external_body]
pub struct ExSerdeJsonValue(serde_json::Value);

/// `serde_json`'s parse error.
#[verifier::external_type_specification]
#[verifier::external_body]
pub struct ExSerdeJsonError(serde_json::Error);

/// Why a text could not be read as JSON: the parser's error.
#[derive(Debug)]
pub struct JsonParseError {
    pub error: serde_json::Error,
}

/// The JSON value that `serde_json::from_str::<serde_json::Value>` reads from a
/// text, or `None` where it rejects the text.
pub uninterp spec fn parsed_json(text: Seq<char>) -> Option<Json>;

/// `serde_json`'s value in the library's model, variant for variant: a number by
/// its `Display` rendering, an object's members in the map's iteration order.
#[verifier::external_body]
fn model_of_serde(v: serde_json::Value) -> JsonValue {
    match v {
        serde_json::Value::Null => JsonValue::Null,
        serde_json::Value::Bool(b) => JsonValue::Bool(b),
        serde_json::Value::Number(n) => JsonValue::Number(n.to_string()),
        serde_json::Value::String(s) => JsonValue::String(s),
        serde_json::Value::Array(items) => JsonValue::Array(items.into_iter().map(model_of_serde).collect()),
        serde_json::Value::Object(map) => JsonValue::Object(map.into_iter().map(|(k, x)| (k, model_of_serde(x))).collect()),
    }
}

/// Calls `serde_json::from_str::<serde_json::Value>` on `text` and gives the
/// value in the library's model (see `model_of_serde`). The parse is named
/// (`parsed_json`), not spelled out. `serde_json::Map` is a `BTreeMap<String, _>`
/// here (the `preserve_order` feature is off), so every object comes out with
/// strictly increasing, distinct keys in `String` order, which is `key_lt`:
/// the value is well formed.
#[verifier::external_body]
pub(crate) fn parse_json(text: &str) -> (r: Result<JsonValue, serde_json::Error>)
    ensures
        match r {
            Ok(v) => parsed_json(text@) == Some(v@) && well_formed(v@),
            Err(_) => parsed_json(text@) is None,
        },
{
    serde_json::from_str::<serde_json::Value>(text).map(model_of_serde)
}

/// Reads a JSON text: its value, or the parser's error.
pub fn read_json(text: &str) -> (r: Result<JsonValue, JsonParseError>)
    ensures
        match r {
            Ok(v) => parsed_json(text@) == Some(v@) && well_formed(v@),
            Err(_) => parsed_json(text@) is None,
        },
{
    match parse_json(text) {
        Ok(v) => Ok(v),
        Err(error) => Err(JsonParseError { error }),
    }
}

pub fn key_lt_exec(a: &str, b: &str) -> (r: bool)
    ensures
        r == key_lt(a@, b@),
{
    let n = a.unicode_len();
    let m = b.unicode_len();
    let mut i: usize = 0;
    assert(a@.skip(0) =~= a@);
    assert(b@.skip(0) =~= b@);
    while i < n && i < m
        invariant
            n == a@.len(),
            m == b@.len(),
            0 <= i <= n,
            i <= m,
            key_lt(a@, b@) == key_lt(a@.skip(i as int), b@.skip(i as int)),
        decreases n - i,
    {
        let x = a.get_char(i);
        let y = b.get_char(i);
        assert(a@.skip(i as int)[0] == x);
        assert(b@.skip(i as int)[0] == y);
        if x != y {
            return x < y;
        }
        assert(a@.skip(i as int).drop_first() =~= a@.skip(i as int + 1));
        assert(b@.skip(i as int).drop_first() =~= b@.skip(i as int + 1));
        i = i + 1;
    }
    i < m
}

impl JsonValue {
    /// A copy with the same model.
    pub fn copy(&self) -> (r: JsonValue)
        ensures
            r@ == self@,
        decreases self,
    {
        match self {
            JsonValue::Null => JsonValue::Null,
            JsonValue::Bool(b) => JsonValue::Bool(*b),
            JsonValue::Number(n) => JsonValue::Number(n.clone()),
            JsonValue::String(s) => JsonValue::String(s.clone()),
            JsonValue::Array(items) => {
                let mut out: Vec<JsonValue> = Vec::new();
                let mut i: usize = 0;
                while i < items.len()
                    invariant
                        *self == JsonValue::Array(*items),
                        0 <= i <= items.len(),
                        out.len() == i,
                        forall|k: int| 0 <= k < i ==> #[trigger] out@[k]@ == items@[k]@,
                    decreases items.len() - i,
                {
                    let item = &items[i];
                    proof {
                        assert(*self == JsonValue::Array(*items));
                        assert(decreases_to!(*self => (*self)->Array_0));
                        assert(decreases_to!(*items => items[i as int]));
                        assert(*item == items[i as int]);
                    }
                    out.push(item.copy());
                    i = i + 1;
                }
                proof {
                    lemma_array_model(*items);
                    lemma_array_model(out);
                    assert(items_model(out@) =~= items_model(items@));
                }
                JsonValue::Array(out)
            },
            JsonValue::Object(fields) => {
                let out = copy_fields(fields);
                proof {
                    lemma_object_model(*fields);
                    lemma_object_model(out);
                }
                JsonValue::Object(out)
            },
        }
    }

    /// `value.get(key)`.
    pub fn get(&self, key: &str) -> (r: Option<&JsonValue>)
        ensures
            match r {
                Some(x) => get(self@, key@) == Some(x@),
                None => get(self@, key@) is None,
            },
    {
        match self {
            JsonValue::Object(fields) => {
                proof {
                    lemma_object_model(*fields);
                }
                field_get(fields, key)
            },
            _ => None,
        }
    }

    /// `value.as_str()`.
    pub fn as_str(&self) -> (r: Option<&str>)
        ensures
            match r {
                Some(s) => as_str(self@) == Some(s@),
                None => as_str(self@) is None,
            },
    {
        match self {
            JsonValue::String(s) => Some(s.as_str()),
            _ => None,
        }
    }

    /// `value.get(key).and_then(Value::as_str)`.
    pub fn get_str(&self, key: &str) -> (r: Option<&str>)
        ensures
            match r {
                Some(s) => get_str(self@, key@) == Some(s@),
                None => get_str(self@, key@) is None,
            },
    {
        match self.get(key) {
            Some(x) => x.as_str(),
            None => None,
        }
    }

    /// `value.as_object()`.
    pub fn as_object(&self) -> (r: Option<&Vec<(String, JsonValue)>>)
        ensures
            match r {
                Some(f) => as_object(self@) == Some(fields_model(f@)),
                None => as_object(self@) is None,
            },
    {
        match self {
            JsonValue::Object(fields) => {
                proof {
                    lemma_object_model(*fields);
                }
                Some(fields)
            },
            _ => None,
        }
    }

    /// `value.as_array()`.
    pub fn as_array(&self) -> (r: Option<&Vec<JsonValue>>)
        ensures
            match r {
                Some(items) => as_array(self@) == Some(items_model(items@)),
                None => as_array(self@) is None,
            },
    {
        match self {
            JsonValue::Array(items) => {
                proof {
                    lemma_array_model(*items);
                }
                Some(items)
            },
            _ => None,
        }
    }
}

/// A copy of the members of an object.
pub fn copy_fields(fields: &Vec<(String, JsonValue)>) -> (r: Vec<(String, JsonValue)>)
    ensures
        fields_model(r@) == fields_model(fields@),
    decreases fields,
{
    let mut out: Vec<(String, JsonValue)> = Vec::new();
    let mut i: usize = 0;
    while i < fields.len()
        invariant
            0 <= i <= fields.len(),
            out.len() == i,
            forall|k: int|
                0 <= k < i ==> (#[trigger] out@[k]).0@ == fields@[k].0@ && out@[k].1@ == fields@[k].1@,
        decreases fields.len() - i,
    {
        let entry = &fields[i];
        let v = entry.1.copy();
        let k = entry.0.clone();
        assert(k@ == fields@[i as int].0@ && v@ == fields@[i as int].1@);
        out.push((k, v));
        assert(out@[i as int].0@ == fields@[i as int].0@);
        i = i + 1;
    }
    assert(fields_model(out@) =~= fields_model(fields@));
    out
}

/// The member stored under `key`.
pub fn field_get<'a>(fields: &'a Vec<(String, JsonValue)>, key: &str) -> (r: Option<&'a JsonValue>)
    ensures
        match r {
            Some(x) => lookup(fields_model(fields@), key@) == Some(x@),
            None => lookup(fields_model(fields@), key@) is None,
        },
{
    let ghost m = fields_model(fields@);
    let mut i: usize = 0;
    assert(m.skip(0) =~= m);
    while i < fields.len()
        invariant
            0 <= i <= fields.len(),
            m == fields_model(fields@),
            lookup(m, key@) == lookup(m.skip(i as int), key@),
        decreases fields.len() - i,
    {
        assert(m.skip(i as int)[0] == m[i as int]);
        if str_eq(fields[i].0.as_str(), key) {
            return Some(&fields[i].1);
        }
        assert(m.skip(i as int).drop_first() =~= m.skip(i as int + 1));
        i = i + 1;
    }
    assert(m.skip(i as int).len() == 0);
    None
}

pub proof fn lemma_object_insert_prefix(
    fields: Seq<(Seq<char>, Json)>,
    key: Seq<char>,
    value: Json,
    i: int,
)
    requires
        0 <= i <= fields.len(),
        forall|k: int|
            0 <= k < i ==> fields[k].0 != key && !key_lt(key, #[trigger] fields[k].0),
    ensures
        object_insert(fields, key, value) == fields.take(i) + object_insert(
            fields.skip(i),
            key,
            value,
        ),
    decreases i,
{
    if i > 0 {
        lemma_object_insert_prefix(fields.drop_first(), key, value, i - 1);
        assert(fields.drop_first().take(i - 1) =~= fields.take(i).drop_first());
        assert(fields.drop_first().skip(i - 1) =~= fields.skip(i));
        assert(fields.take(i) =~= seq![fields[0]] + fields.take(i).drop_first());
    } else {
        assert(fields.skip(0) =~= fields);
    }
}

/// `map.insert(key, value)`: replaces the member under `key`, or adds it before the
/// first larger key.
pub fn object_insert_exec(fields: &mut Vec<(String, JsonValue)>, key: String, value: JsonValue)
    ensures
        fields_model(final(fields)@) == object_insert(fields_model(old(fields)@), key@, value@),
{
    let ghost m = fields_model(fields@);
    let mut i: usize = 0;
    while i < fields.len()
        invariant
            0 <= i <= fields.len(),
            m == fields_model(fields@),
            forall|k: int|
                0 <= k < i ==> m[k].0 != key@ && !key_lt(key@, #[trigger] m[k].0),
        ensures
            0 <= i <= fields.len(),
            m == fields_model(fields@),
            forall|k: int|
                0 <= k < i ==> m[k].0 != key@ && !key_lt(key@, #[trigger] m[k].0),
            i < fields.len() ==> (m[i as int].0 == key@ || key_lt(key@, m[i as int].0)),
        decreases fields.len() - i,
    {
        if str_eq(fields[i].0.as_str(), key.as_str()) || key_lt_exec(
            key.as_str(),
            fields[i].0.as_str(),
        ) {
            break;
        }
        i = i + 1;
    }
    proof {
        lemma_object_insert_prefix(m, key@, value@, i as int);
    }
    let ghost kv = key@;
    let ghost vv = value@;
    if i < fields.len() && str_eq(fields[i].0.as_str(), key.as_str()) {
        fields.set(i, (key, value));
        assert(m.skip(i as int).drop_first() =~= m.skip(i as int + 1));
        assert(fields_model(fields@) =~= m.take(i as int) + object_insert(
            m.skip(i as int),
            kv,
            vv,
        ));
    } else {
        fields.insert(i, (key, value));
        proof {
            if i < m.len() {
                assert(m.skip(i as int)[0] == m[i as int]);
            }
        }
        assert(fields_model(fields@) =~= m.take(i as int) + object_insert(
            m.skip(i as int),
            kv,
            vv,
        ));
    }
}

/// A hexadecimal digit, small letters for ten and above.
pub open spec fn hex_digit(n: int) -> char {
    if n < 10 {
        (('0' as int) + n) as char
    } else {
        (('a' as int) + n - 10) as char
    }
}

/// How the compact JSON writer spells one character inside a string.
pub open spec fn json_escape(c: char) -> Seq<char> {
    if c == '"' {
        seq!['\\', '"']
    } else if c == '\\' {
        seq!['\\', '\\']
    } else if c == '\u{8}' {
        seq!['\\', 'b']
    } else if c == '\t' {
        seq!['\\', 't']
    } else if c == '\n' {
        seq!['\\', 'n']
    } else if c == '\u{c}' {
        seq!['\\', 'f']
    } else if c == '\r' {
        seq!['\\', 'r']
    } else if (c as u32) < 0x20 {
        seq!['\\', 'u', '0', '0', hex_digit((c as int) / 16), hex_digit((c as int) % 16)]
    } else {
        seq![c]
    }
}

/// A string literal of the compact JSON form.
pub open spec fn json_quote(s: Seq<char>) -> Seq<char> {
    seq!['"'] + flat(s.map_values(|c: char| json_escape(c))) + seq!['"']
}

/// The compact JSON text of a value (`Value::to_string`).
pub open spec fn json_text(v: Json) -> Seq<char>
    decreases v, 1nat,
{
    match v {
        Json::Null => seq!['n', 'u', 'l', 'l'],
        Json::Bool(b) => if b {
            seq!['t', 'r', 'u', 'e']
        } else {
            seq!['f', 'a', 'l', 's', 'e']
        },
        Json::Number(n) => n,
        Json::Str(s) => json_quote(s),
        Json::Array(items) => seq!['['] + join(json_texts(items), seq![',']) + seq![']'],
        Json::Object(fields) => seq!['{'] + join(json_member_texts(fields), seq![',']) + seq!['}'],
    }
}

/// The compact JSON texts of the items of an array.
pub open spec fn json_texts(items: Seq<Json>) -> Seq<Seq<char>>
    decreases items, 0nat,
{
    if items.len() == 0 {
        Seq::empty()
    } else {
        json_texts(items.drop_last()).push(json_text(items.last()))
    }
}

/// The compact JSON texts `"key":value` of the members of an object.
pub open spec fn json_member_texts(fields: Seq<(Seq<char>, Json)>) -> Seq<Seq<char>>
    decreases fields, 0nat,
{
    if fields.len() == 0 {
        Seq::empty()
    } else {
        json_member_texts(fields.drop_last()).push(
            json_quote(fields.last().0) + seq![':'] + json_text(fields.last().1),
        )
    }
}

fn hex_digit_exec(n: u8) -> (r: char)
    requires
        n < 16,
    ensures
        r == hex_digit(n as int),
{
    if n < 10 {
        (48u8 + n) as char
    } else {
        (87u8 + n) as char
    }
}

/// Writes `s` as a compact JSON string literal.
pub fn json_quote_exec(s: &str) -> (r: String)
    ensures
        r@ == json_quote(s@),
{
    let mut out = String::new();
    push_char(&mut out, '"');
    let n = s.unicode_len();
    let ghost pieces = s@.map_values(|c: char| json_escape(c));
    let mut i: usize = 0;
    while i < n
        invariant
            n == s@.len(),
            0 <= i <= n,
            pieces == s@.map_values(|c: char| json_escape(c)),
            out@ == seq!['"'] + flat(pieces.take(i as int)),
        decreases n - i,
    {
        let c = s.get_char(i);
        proof {
            lemma_flat_take(pieces, i as int);
        }
        let ghost before = out@;
        if c == '"' {
            push_char(&mut out, '\\');
            push_char(&mut out, '"');
        } else if c == '\\' {
            push_char(&mut out, '\\');
            push_char(&mut out, '\\');
        } else if c == '\u{8}' {
            push_char(&mut out, '\\');
            push_char(&mut out, 'b');
        } else if c == '\t' {
            push_char(&mut out, '\\');
            push_char(&mut out, 't');
        } else if c == '\n' {
            push_char(&mut out, '\\');
            push_char(&mut out, 'n');
        } else if c == '\u{c}' {
            push_char(&mut out, '\\');
            push_char(&mut out, 'f');
        } else if c == '\r' {
            push_char(&mut out, '\\');
            push_char(&mut out, 'r');
        } else if ' ' > c {
            let b: u8 = c as u8;
            assert(b as u32 == c as u32);
            push_char(&mut out, '\\');
            push_char(&mut out, 'u');
            push_char(&mut out, '0');
            push_char(&mut out, '0');
            push_char(&mut out, hex_digit_exec(b / 16));
            push_char(&mut out, hex_digit_exec(b % 16));
        } else {
            push_char(&mut out, c);
        }
        assert(out@ =~= before + json_escape(c));
        assert(out@ =~= seq!['"'] + flat(pieces.take(i as int + 1)));
        i = i + 1;
    }
    assert(pieces.take(n as int) =~= pieces);
    push_char(&mut out, '"');
    out
}

/// The compact JSON text of `v`.
pub fn json_text_exec(v: &JsonValue) -> (r: String)
    ensures
        r@ == json_text(v@),
    decreases v,
{
    match v {
        JsonValue::Null => {
            let r = owned("null");
            proof {
                reveal_strlit("null");
            }
            assert(r@ =~= json_text(v@));
            r
        },
        JsonValue::Bool(b) => {
            if *b {
                let r = owned("true");
                proof {
                    reveal_strlit("true");
                }
                assert(r@ =~= json_text(v@));
                r
            } else {
                let r = owned("false");
                proof {
                    reveal_strlit("false");
                }
                assert(r@ =~= json_text(v@));
                r
            }
        },
        JsonValue::Number(n) => n.clone(),
        JsonValue::String(s) => json_quote_exec(s.as_str()),
        JsonValue::Array(items) => {
            proof {
                lemma_array_model(*items);
            }
            let ghost m = items_model(items@);
            let mut parts: Vec<String> = Vec::new();
            let mut i: usize = 0;
            while i < items.len()
                invariant
                    *v == JsonValue::Array(*items),
                    m == items_model(items@),
                    0 <= i <= items.len(),
                    views(parts@) =~= json_texts(m.take(i as int)),
                decreases items.len() - i,
            {
                let item = &items[i];
                proof {
                    assert(decreases_to!(*v => (*v)->Array_0));
                    assert(decreases_to!(*items => items[i as int]));
                }
                let t = json_text_exec(item);
                assert(m.take(i as int + 1).drop_last() =~= m.take(i as int));
                parts.push(t);
                i = i + 1;
            }
            assert(m.take(items.len() as int) =~= m);
            assert(views(parts@) == json_texts(m));
            assert(v@ == Json::Array(m));
            assert(json_text(v@) == seq!['['] + join(json_texts(m), seq![',']) + seq![']']);
            let mut out = owned("[");
            let inner = join_strings(&parts, ",");
            out.append(inner.as_str());
            out.append("]");
            proof {
                reveal_strlit("[");
                reveal_strlit("]");
                reveal_strlit(",");
                assert(","@ =~= seq![',']);
            }
            assert(out@ =~= json_text(v@));
            out
        },
        JsonValue::Object(fields) => {
            proof {
                lemma_object_model(*fields);
            }
            let ghost m = fields_model(fields@);
            let mut parts: Vec<String> = Vec::new();
            let mut i: usize = 0;
            while i < fields.len()
                invariant
                    *v == JsonValue::Object(*fields),
                    m == fields_model(fields@),
                    0 <= i <= fields.len(),
                    views(parts@) =~= json_member_texts(m.take(i as int)),
                decreases fields.len() - i,
            {
                let entry = &fields[i];
                proof {
                    assert(decreases_to!(*v => (*v)->Object_0));
                    assert(decreases_to!(*fields => fields[i as int]));
                    assert(decreases_to!(fields[i as int] => fields[i as int].1));
                }
                let mut t = json_quote_exec(entry.0.as_str());
                push_char(&mut t, ':');
                let value_text = json_text_exec(&entry.1);
                t.append(value_text.as_str());
                assert(m[i as int] == (entry.0@, entry.1@));
                assert(m.take(i as int + 1).drop_last() =~= m.take(i as int));
                assert(m.take(i as int + 1).last() == m[i as int]);
                assert(t@ =~= json_quote(m[i as int].0) + seq![':'] + json_text(m[i as int].1));
                parts.push(t);
                i = i + 1;
            }
            assert(m.take(fields.len() as int) =~= m);
            let mut out = owned("{");
            let inner = join_strings(&parts, ",");
            out.append(inner.as_str());
            out.append("}");
            proof {
                reveal_strlit("{");
                reveal_strlit("}");
                reveal_strlit(",");
                assert(","@ =~= seq![',']);
            }
            assert(out@ =~= json_text(v@));
            out
        },
    }
}

/// How a value is written as a Cypher literal: strings quoted with `"` escaped,
/// numbers and booleans as they are, arrays item by item, objects as `{}`.
pub open spec fn cypher_literal(v: Json) -> Seq<char>
    decreases v, 1nat,
{
    match v {
        Json::Str(s) => seq!['"'] + escape_quotes(s) + seq!['"'],
        Json::Number(n) => n,
        Json::Bool(b) => if b {
            seq!['t', 'r', 'u', 'e']
        } else {
            seq!['f', 'a', 'l', 's', 'e']
        },
        Json::Null => seq!['n', 'u', 'l', 'l'],
        Json::Array(items) => seq!['['] + join(cypher_literals(items), seq![',', ' ']) + seq![']'],
        Json::Object(_) => seq!['{', '}'],
    }
}

/// The Cypher literals of the items of an array.
pub open spec fn cypher_literals(items: Seq<Json>) -> Seq<Seq<char>>
    decreases items, 0nat,
{
    if items.len() == 0 {
        Seq::empty()
    } else {
        cypher_literals(items.drop_last()).push(cypher_literal(items.last()))
    }
}

/// Writes `v` as a Cypher literal.
pub fn cypher_literal_exec(v: &JsonValue) -> (r: String)
    ensures
        r@ == cypher_literal(v@),
    decreases v,
{
    match v {
        JsonValue::String(s) => {
            let mut out = owned("\"");
            let e = escape_quotes_exec(s.as_str());
            out.append(e.as_str());
            out.append("\"");
            proof {
                reveal_strlit("\"");
            }
            assert(out@ =~= cypher_literal(v@));
            out
        },
        JsonValue::Number(n) => n.clone(),
        JsonValue::Bool(b) => {
            if *b {
                let r = owned("true");
                proof {
                    reveal_strlit("true");
                }
                assert(r@ =~= cypher_literal(v@));
                r
            } else {
                let r = owned("false");
                proof {
                    reveal_strlit("false");
                }
                assert(r@ =~= cypher_literal(v@));
                r
            }
        },
        JsonValue::Null => {
            let r = owned("null");
            proof {
                reveal_strlit("null");
            }
            assert(r@ =~= cypher_literal(v@));
            r
        },
        JsonValue::Array(items) => {
            proof {
                lemma_array_model(*items);
            }
            let ghost m = items_model(items@);
            let mut parts: Vec<String> = Vec::new();
            let mut i: usize = 0;
            while i < items.len()
                invariant
                    *v == JsonValue::Array(*items),
                    m == items_model(items@),
                    0 <= i <= items.len(),
                    views(parts@) =~= cypher_literals(m.take(i as int)),
                decreases items.len() - i,
            {
                let item = &items[i];
                proof {
                    assert(decreases_to!(*v => (*v)->Array_0));
                    assert(decreases_to!(*items => items[i as int]));
                }
                let t = cypher_literal_exec(item);
                assert(m.take(i as int + 1).drop_last() =~= m.take(i as int));
                parts.push(t);
                i = i + 1;
            }
            assert(m.take(items.len() as int) =~= m);
            let mut out = owned("[");
            let inner = join_strings(&parts, ", ");
            out.append(inner.as_str());
            out.append("]");
            proof {
                reveal_strlit("[");
                reveal_strlit("]");
                reveal_strlit(", ");
                assert(", "@ =~= seq![',', ' ']);
            }
            assert(out@ =~= cypher_literal(v@));
            out
        },
        JsonValue::Object(_) => {
            let r = owned("{}");
            proof {
                reveal_strlit("{}");
            }
            assert(r@ =~= cypher_literal(v@));
            r
        },
    }
}

/// The records a member holds: an array's items, an object by itself, else none.
pub open spec fn value_list(v: Json) -> Seq<Json> {
    match v {
        Json::Array(items) => items,
        Json::Object(_) => seq![v],
        _ => Seq::empty(),
    }
}

/// References to the records that `value` holds.
pub fn value_list_exec(value: &JsonValue) -> (r: Vec<&JsonValue>)
    ensures
        Seq::new(r@.len(), |k: int| r@[k]@) == value_list(value@),
{
    match value {
        JsonValue::Array(items) => {
            proof {
                lemma_array_model(*items);
            }
            let mut out: Vec<&JsonValue> = Vec::new();
            let mut i: usize = 0;
            while i < items.len()
                invariant
                    0 <= i <= items.len(),
                    out@.len() == i,
                    forall|k: int| 0 <= k < i ==> #[trigger] out@[k] == &items@[k],
                decreases items.len() - i,
            {
                out.push(&items[i]);
                i = i + 1;
            }
            assert(Seq::new(out@.len(), |k: int| out@[k]@) =~= items_model(items@));
            out
        },
        JsonValue::Object(_) => {
            let mut out: Vec<&JsonValue> = Vec::new();
            out.push(value);
            assert(Seq::new(out@.len(), |k: int| out@[k]@) =~= seq![value@]);
            out
        },
        _ => {
            let out: Vec<&JsonValue> = Vec::new();
            assert(Seq::new(out@.len(), |k: int| out@[k]@) =~= Seq::<Json>::empty());
            out
        },
    }
}

pub proof fn lemma_key_lt_irreflexive(a: Seq<char>)
    ensures
        !key_lt(a, a),
    decreases a.len(),
{
    if a.len() > 0 {
        lemma_key_lt_irreflexive(a.drop_first());
    }
}

pub proof fn lemma_key_lt_transitive(a: Seq<char>, b: Seq<char>, c: Seq<char>)
    requires
        key_lt(a, b),
        key_lt(b, c),
    ensures
        key_lt(a, c),
    decreases a.len(),
{
    if a.len() > 0 && b.len() > 0 && c.len() > 0 && a[0] == b[0] && b[0] == c[0] {
        lemma_key_lt_transitive(a.drop_first(), b.drop_first(), c.drop_first());
    }
}

pub proof fn lemma_key_lt_total(a: Seq<char>, b: Seq<char>)
    requires
        a != b,
    ensures
        key_lt(a, b) || key_lt(b, a),
    decreases a.len(),
{
    if a.len() > 0 && b.len() > 0 && a[0] == b[0] {
        if a.drop_first() == b.drop_first() {
            assert(a =~= seq![a[0]] + a.drop_first());
            assert(b =~= seq![b[0]] + b.drop_first());
        }
        lemma_key_lt_total(a.drop_first(), b.drop_first());
    } else if a.len() == 0 && b.len() == 0 {
        assert(a =~= b);
    }
}

/// Every key of an object after an insert is the inserted key or a key it had.
pub proof fn lemma_object_insert_keys(
    fields: Seq<(Seq<char>, Json)>,
    key: Seq<char>,
    value: Json,
    i: int,
)
    requires
        0 <= i < object_insert(fields, key, value).len(),
    ensures
        object_insert(fields, key, value)[i].0 == key || exists|j: int|
            0 <= j < fields.len() && #[trigger] fields[j].0 == object_insert(
                fields,
                key,
                value,
            )[i].0,
    decreases fields.len(),
{
    if fields.len() > 0 && fields[0].0 != key && !key_lt(key, fields[0].0) {
        if i > 0 {
            lemma_object_insert_keys(fields.drop_first(), key, value, i - 1);
            let r = object_insert(fields.drop_first(), key, value);
            assert(object_insert(fields, key, value)[i] == r[i - 1]);
            if r[i - 1].0 != key {
                let j = choose|j: int|
                    0 <= j < fields.drop_first().len() && #[trigger] fields.drop_first()[j].0
                        == r[i - 1].0;
                assert(fields[j + 1].0 == r[i - 1].0);
            }
        } else {
            assert(fields[0].0 == object_insert(fields, key, value)[0].0);
        }
    } else if fields.len() > 0 && fields[0].0 == key {
        if i > 0 {
            assert(fields[i].0 == object_insert(fields, key, value)[i].0);
        }
    } else if fields.len() > 0 {
        if i > 0 {
            assert(fields[i - 1].0 == object_insert(fields, key, value)[i].0);
        }
    }
}

/// Inserting into an object with strictly increasing keys keeps them strictly
/// increasing, as a sorted map does.
pub proof fn law_object_insert_keeps_keys_sorted(
    fields: Seq<(Seq<char>, Json)>,
    key: Seq<char>,
    value: Json,
)
    requires
        keys_sorted(fields),
    ensures
        keys_sorted(object_insert(fields, key, value)),
    decreases fields.len(),
{
    let r = object_insert(fields, key, value);
    if fields.len() == 0 {
    } else if fields[0].0 == key {
        assert forall|i: int, j: int| 0 <= i < j < r.len() implies key_lt(r[i].0, r[j].0) by {
            assert(r[i].0 == fields[i].0);
            assert(r[j].0 == fields[j].0);
        }
    } else if key_lt(key, fields[0].0) {
        assert forall|i: int, j: int| 0 <= i < j < r.len() implies key_lt(r[i].0, r[j].0) by {
            if i == 0 {
                if j > 1 {
                    lemma_key_lt_transitive(key, fields[0].0, fields[j - 1].0);
                }
            } else {
                assert(r[i].0 == fields[i - 1].0);
            }
        }
    } else {
        let rest = fields.drop_first();
        assert(keys_sorted(rest)) by {
            assert forall|i: int, j: int| 0 <= i < j < rest.len() implies key_lt(
                rest[i].0,
                rest[j].0,
            ) by {
                assert(rest[i] == fields[i + 1]);
                assert(rest[j] == fields[j + 1]);
            }
        }
        law_object_insert_keeps_keys_sorted(rest, key, value);
        let ri = object_insert(rest, key, value);
        lemma_key_lt_total(key, fields[0].0);
        assert forall|i: int, j: int| 0 <= i < j < r.len() implies key_lt(r[i].0, r[j].0) by {
            if i == 0 {
                assert(r[j] == ri[j - 1]);
                lemma_object_insert_keys(rest, key, value, j - 1);
                if ri[j - 1].0 != key {
                    let k = choose|k: int|
                        0 <= k < rest.len() && #[trigger] rest[k].0 == ri[j - 1].0;
                    assert(rest[k] == fields[k + 1]);
                }
            } else {
                assert(r[i] == ri[i - 1]);
                assert(r[j] == ri[j - 1]);
            }
        }
    }
}

/// Reading a key right after setting it gives the value that was set.
pub proof fn law_lookup_after_insert(fields: Seq<(Seq<char>, Json)>, key: Seq<char>, value: Json)
    ensures
        lookup(object_insert(fields, key, value), key) == Some(value),
    decreases fields.len(),
{
    if fields.len() > 0 && fields[0].0 != key && !key_lt(key, fields[0].0) {
        law_lookup_after_insert(fields.drop_first(), key, value);
        assert((seq![fields[0]] + object_insert(fields.drop_first(), key, value)).drop_first()
            =~= object_insert(fields.drop_first(), key, value));
    }
}

/// Setting one key leaves what every other key reads.
pub proof fn law_lookup_insert_other(
    fields: Seq<(Seq<char>, Json)>,
    key: Seq<char>,
    value: Json,
    other: Seq<char>,
)
    requires
        other != key,
    ensures
        lookup(object_insert(fields, key, value), other) == lookup(fields, other),
    decreases fields.len(),
{
    if fields.len() == 0 {
        assert(seq![(key, value)].drop_first() =~= Seq::<(Seq<char>, Json)>::empty());
        assert(lookup(Seq::<(Seq<char>, Json)>::empty(), other) is None);
        assert(lookup(seq![(key, value)], other) == lookup(seq![(key, value)].drop_first(), other));
    } else if fields[0].0 == key {
        assert((seq![(key, value)] + fields.drop_first()).drop_first() =~= fields.drop_first());
    } else if key_lt(key, fields[0].0) {
        assert((seq![(key, value)] + fields).drop_first() =~= fields);
    } else {
        law_lookup_insert_other(fields.drop_first(), key, value, other);
        assert((seq![fields[0]] + object_insert(fields.drop_first(), key, value)).drop_first()
            =~= object_insert(fields.drop_first(), key, value));
    }
}

/// Every member after an insert is the inserted one or a member from before.
proof fn lemma_object_insert_members(fields: Seq<(Seq<char>, Json)>, key: Seq<char>, value: Json, i: int)
    requires
        0 <= i < object_insert(fields, key, value).len(),
    ensures
        object_insert(fields, key, value)[i] == (key, value) || exists|j: int|
            0 <= j < fields.len() && #[trigger] fields[j] == object_insert(fields, key, value)[i],
    decreases fields.len(),
{
    let r = object_insert(fields, key, value);
    if fields.len() == 0 {
    } else if fields[0].0 == key {
        if i > 0 {
            assert(r[i] == fields[i]);
        }
    } else if key_lt(key, fields[0].0) {
        if i > 0 {
            assert(r[i] == fields[i - 1]);
        }
    } else {
        if i == 0 {
            assert(r[0] == fields[0]);
        } else {
            let rest = fields.drop_first();
            assert(r[i] == object_insert(rest, key, value)[i - 1]);
            lemma_object_insert_members(rest, key, value, i - 1);
            if r[i] != (key, value) {
                let j = choose|j: int| 0 <= j < rest.len() && #[trigger] rest[j] == object_insert(rest, key, value)[i - 1];
                assert(fields[j + 1] == rest[j]);
            }
        }
    }
}

/// Setting a member of a well-formed object to a well-formed value gives a
/// well-formed object.
pub proof fn law_object_insert_keeps_well_formed(fields: Seq<(Seq<char>, Json)>, key: Seq<char>, value: Json)
    requires
        well_formed(Json::Object(fields)),
        well_formed(value),
    ensures
        well_formed(Json::Object(object_insert(fields, key, value))),
{
    law_object_insert_keeps_keys_sorted(fields, key, value);
    let r = object_insert(fields, key, value);
    assert forall|i: int| 0 <= i < r.len() implies well_formed(#[trigger] r[i].1) by {
        lemma_object_insert_members(fields, key, value, i);
        if r[i] != (key, value) {
            let j = choose|j: int| 0 <= j < fields.len() && #[trigger] fields[j] == r[i];
            assert(well_formed(fields[j].1));
        }
    }
}

/// Strictly increasing keys are distinct.
pub proof fn lemma_sorted_keys_distinct(fields: Seq<(Seq<char>, Json)>, p: int, q: int)
    requires
        keys_sorted(fields),
        0 <= p < q < fields.len(),
    ensures
        fields[p].0 != fields[q].0,
{
    lemma_key_lt_irreflexive(fields[p].0);
}

} // verus!
