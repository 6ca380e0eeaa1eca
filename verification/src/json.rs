//! JSON values, their model, how an assignment changes them, and the JSON reader that
//! reads assigned values and quoted path segments.
use vstd::prelude::*;

use crate::assign::well_formed;
use crate::path::{segments_view, PathSegment, Segment};

verus! {

/// `serde_json::Number`, a JSON number: carried through, never looked into.
#[verifier::external_type_specification]
#[verifier::external_body]
pub struct ExNumber(serde_json::Number);

/// `serde_json::Value`, the JSON reader's value: converted at once into a `JsonValue`.
#[verifier::external_type_specification]
#[verifier::external_body]
pub struct ExValue(serde_json::Value);

/// The mathematical model of a JSON value. An object is the sequence of its members in
/// the order in which they were inserted; numbers are kept as the JSON reader gave them.
pub enum Json {
    Null,
    Bool(bool),
    Number(serde_json::Number),
    Str(Seq<char>),
    Array(Seq<Json>),
    Object(Seq<(Seq<char>, Json)>),
}

/// A JSON value. An object keeps its members in the order in which they were inserted.
#[derive(Debug)]
pub enum JsonValue {
    Null,
    Bool(bool),
    Number(serde_json::Number),
    String(String),
    Array(Vec<JsonValue>),
    Object(Vec<(String, JsonValue)>),
}

impl View for JsonValue {
    type V = Json;

    open spec fn view(&self) -> Json
        decreases self,
    {
        match self {
            JsonValue::Null => Json::Null,
            JsonValue::Bool(b) => Json::Bool(*b),
            JsonValue::Number(n) => Json::Number(*n),
            JsonValue::String(s) => Json::Str(s@),
            JsonValue::Array(a) => Json::Array(
                Seq::new(
                    a@.len(),
                    |i: int|
                        if 0 <= i < a@.len() {
                            a@[i].view()
                        } else {
                            Json::Null
                        },
                ),
            ),
            JsonValue::Object(o) => {
                let values = Seq::new(
                    o@.len(),
                    |i: int|
                        if 0 <= i < o@.len() {
                            o@[i].1.view()
                        } else {
                            Json::Null
                        },
                );
                Json::Object(Seq::new(o@.len(), |i: int| (o@[i].0@, values[i])))
            },
        }
    }
}

/// What the JSON reader makes of a text: a value, or the message of its error.
pub type JsonRead = Result<Json, Seq<char>>;

/// What the JSON reader makes of a string literal: a string, or the message of its error.
pub type StringRead = Result<Seq<char>, Seq<char>>;

/// What `serde_json::from_str::<String>` makes of the JSON text `text`: the string that
/// it denotes, where `text` is exactly one JSON string literal (surrounding whitespace
/// allowed); otherwise the message of the error, as the error's `Display` writes it.
pub uninterp spec fn json_string_value(text: Seq<char>) -> StringRead;

/// Reads a JSON string literal with `serde_json::from_str::<String>`. On failure the
/// error is handed back as its message.
#[verifier::external_body]
pub(crate) fn parse_json_string_literal(text: &str) -> (r: Result<String, String>)
    ensures
        match r {
            Ok(s) => json_string_value(text@) == StringRead::Ok(s@),
            Err(m) => json_string_value(text@) == StringRead::Err(m@),
        },
{
    match serde_json::from_str::<String>(text) {
        Ok(s) => Ok(s),
        Err(e) => Err(e.to_string()),
    }
}

/// What `serde_json::from_str::<Value>` makes of the JSON text `text`: the value that it
/// denotes, or the message of the error, as the error's `Display` writes it.
pub uninterp spec fn json_text_value(text: Seq<char>) -> JsonRead;

/// Reads a JSON text with `serde_json::from_str::<serde_json::Value>` and converts the
/// result. The value read names each member of an object once, as a `serde_json::Map`
/// holds each key once. On failure the error is handed back as its message.
#[verifier::external_body]
pub(crate) fn parse_json_text(text: &str) -> (r: Result<JsonValue, String>)
    ensures
        match r {
            Ok(v) => json_text_value(text@) == JsonRead::Ok(v@) && well_formed(v@),
            Err(m) => json_text_value(text@) == JsonRead::Err(m@),
        },
{
    match serde_json::from_str::<serde_json::Value>(text) {
        Ok(v) => Ok(from_serde_value(v)),
        Err(e) => Err(e.to_string()),
    }
}

/// Converts a `serde_json::Value` into a `JsonValue`, variant by variant, keeping the
/// order of object members. Nothing is stated of it on its own: it is the second half of
/// `parse_json_text`, whose contract covers both.
#[verifier::external_body]
fn from_serde_value(v: serde_json::Value) -> JsonValue {
    match v {
        serde_json::Value::Null => JsonValue::Null,
        serde_json::Value::Bool(b) => JsonValue::Bool(b),
        serde_json::Value::Number(n) => JsonValue::Number(n),
        serde_json::Value::String(s) => JsonValue::String(s),
        serde_json::Value::Array(a) => {
            JsonValue::Array(a.into_iter().map(from_serde_value).collect())
        },
        serde_json::Value::Object(m) => JsonValue::Object(
            m.into_iter().map(|(k, v)| (k, from_serde_value(v))).collect(),
        ),
    }
}

/// The members of `v` where it is an object; none otherwise.
pub open spec fn members(v: Json) -> Seq<(Seq<char>, Json)> {
    match v {
        Json::Object(m) => m,
        _ => Seq::empty(),
    }
}

/// The elements of `v` where it is an array; none otherwise.
pub open spec fn elements(v: Json) -> Seq<Json> {
    match v {
        Json::Array(a) => a,
        _ => Seq::empty(),
    }
}

/// The index of the first member of `m`, from `i` on, whose name is `k`.
pub open spec fn key_index_from(m: Seq<(Seq<char>, Json)>, k: Seq<char>, i: int) -> Option<int>
    decreases m.len() - i,
{
    if !(0 <= i < m.len()) {
        None
    } else if m[i].0 == k {
        Some(i)
    } else {
        key_index_from(m, k, i + 1)
    }
}

/// The index of the first member of `m` whose name is `k`.
pub open spec fn key_index(m: Seq<(Seq<char>, Json)>, k: Seq<char>) -> Option<int> {
    key_index_from(m, k, 0)
}

/// `a` extended with nulls to at least `n` elements.
pub open spec fn pad_nulls(a: Seq<Json>, n: nat) -> Seq<Json> {
    if a.len() >= n {
        a
    } else {
        a + Seq::new((n - a.len()) as nat, |_i: int| Json::Null)
    }
}

pub open spec fn is_empty_object(v: Json) -> bool {
    v matches Json::Object(m) && m.len() == 0
}

pub open spec fn is_empty_array(v: Json) -> bool {
    v matches Json::Array(a) && a.len() == 0
}

/// `node` after `value` is assigned at `path`. Along the path, a node that is not an
/// object (for a name) or not an array (for an index) is replaced by an empty one, a
/// missing member is added at the end as null, and a short array is padded with nulls.
/// At the end of the path the value replaces what stands there, except that an empty
/// object does not replace an object, nor an empty array an array.
pub open spec fn set_path(node: Json, path: Seq<Segment>, value: Json) -> Json
    decreases path.len(),
{
    if path.len() == 0 {
        if (is_empty_object(value) && node is Object) || (is_empty_array(value)
            && node is Array) {
            node
        } else {
            value
        }
    } else {
        let rest = path.drop_first();
        match path[0] {
            Segment::Property(p) => {
                let m = members(node);
                match key_index(m, p) {
                    Some(i) => Json::Object(m.update(i, (p, set_path(m[i].1, rest, value)))),
                    None => Json::Object(m.push((p, set_path(Json::Null, rest, value)))),
                }
            },
            Segment::Index(i) => {
                let a = pad_nulls(elements(node), i + 1);
                Json::Array(a.update(i as int, set_path(a[i as int], rest, value)))
            },
        }
    }
}

/// The models of the members `m`.
pub open spec fn member_views(m: Seq<(String, JsonValue)>) -> Seq<(Seq<char>, Json)> {
    Seq::new(m.len(), |i: int| (m[i].0@, m[i].1@))
}

/// The models of the elements `a`.
pub open spec fn element_views(a: Seq<JsonValue>) -> Seq<Json> {
    Seq::new(a.len(), |i: int| a[i]@)
}

pub(crate) proof fn lemma_object_view(m: Vec<(String, JsonValue)>)
    ensures
        JsonValue::Object(m)@ == Json::Object(member_views(m@)),
{
    assert(JsonValue::Object(m)@->Object_0 =~= member_views(m@));
}

pub(crate) proof fn lemma_array_view(a: Vec<JsonValue>)
    ensures
        JsonValue::Array(a)@ == Json::Array(element_views(a@)),
{
    assert(JsonValue::Array(a)@->Array_0 =~= element_views(a@));
}

/// The index of the first member of `m` named `key`.
fn find_key(m: &Vec<(String, JsonValue)>, key: &String) -> (r: Option<usize>)
    ensures
        match r {
            Some(j) => j < m@.len() && key_index(member_views(m@), key@) == Some(j as int),
            None => key_index(member_views(m@), key@) is None,
        },
{
    let ghost ms = member_views(m@);
    let mut j: usize = 0;
    while j < m.len()
        invariant
            j <= m@.len(),
            ms == member_views(m@),
            key_index(ms, key@) == key_index_from(ms, key@, j as int),
        decreases m@.len() - j,
    {
        if m[j].0 == *key {
            return Some(j);
        }
        j = j + 1;
    }
    None
}

/// `a` extended with nulls to more than `i` elements.
fn pad_with_nulls(a: &mut Vec<JsonValue>, i: usize)
    ensures
        element_views(final(a)@) == pad_nulls(element_views(old(a)@), i as nat + 1),
        final(a)@.len() > i,
{
    let ghost start = element_views(a@);
    while a.len() <= i
        invariant
            start.len() <= a@.len(),
            a@.len() == start.len() || a@.len() <= i + 1,
            element_views(a@) == start + Seq::new(
                (a@.len() - start.len()) as nat,
                |_j: int| Json::Null,
            ),
        decreases i + 1 - a@.len(),
    {
        let ghost before = element_views(a@);
        a.push(JsonValue::Null);
        assert(element_views(a@) =~= before.push(Json::Null));
        assert(element_views(a@) =~= start + Seq::new(
            (a@.len() - start.len()) as nat,
            |_j: int| Json::Null,
        ));
    }
    assert(element_views(a@) =~= pad_nulls(start, i as nat + 1));
}

proof fn lemma_key_index_from(m: Seq<(Seq<char>, Json)>, k: Seq<char>, i: int)
    requires
        0 <= i,
    ensures
        key_index_from(m, k, i) matches Some(j) ==> i <= j < m.len() && m[j].0 == k,
    decreases m.len() - i,
{
    if i < m.len() && m[i].0 != k {
        lemma_key_index_from(m, k, i + 1);
    }
}

/// `node` after `value` is assigned at the path `path[k..]`, by `set_path`.
fn set_value_at(node: JsonValue, path: &Vec<PathSegment>, k: usize, value: JsonValue) -> (r:
    JsonValue)
    requires
        k <= path@.len(),
    ensures
        r@ == set_path(node@, segments_view(path@).skip(k as int), value@),
    decreases path@.len() - k,
{
    let ghost rest = segments_view(path@).skip(k as int);
    let ghost gnode = node;
    let ghost gvalue = value;
    if k == path.len() {
        assert(rest.len() == 0);
        let keep = match &value {
            JsonValue::Object(m) => m.len() == 0 && node.is_object(),
            JsonValue::Array(a) => a.len() == 0 && node.is_array(),
            _ => false,
        };
        proof {
            match gvalue {
                JsonValue::Object(m) => lemma_object_view(m),
                JsonValue::Array(a) => lemma_array_view(a),
                _ => {},
            }
        }
        if keep {
            node
        } else {
            value
        }
    } else {
        assert(rest[0] == path@[k as int]@);
        assert(rest.drop_first() =~= segments_view(path@).skip(k + 1));
        match &path[k] {
            PathSegment::Property(p) => {
                let mut m = match node {
                    JsonValue::Object(m) => m,
                    _ => Vec::new(),
                };
                let ghost ms = member_views(m@);
                proof {
                    lemma_object_view(m);
                    match gnode {
                        JsonValue::Object(_) => {},
                        _ => {
                            assert(ms =~= members(node@));
                        },
                    }
                }
                assert(ms == members(node@));
                match find_key(&m, p) {
                    Some(j) => {
                        proof {
                            lemma_key_index_from(ms, p@, 0);
                        }
                        let (key, child) = m.remove(j);
                        let new_child = set_value_at(child, path, k + 1, value);
                        m.insert(j, (key, new_child));
                        assert(member_views(m@) =~= ms.update(j as int, (p@, new_child@)));
                        proof {
                            lemma_object_view(m);
                        }
                        JsonValue::Object(m)
                    },
                    None => {
                        let new_child = set_value_at(JsonValue::Null, path, k + 1, value);
                        m.push((p.clone(), new_child));
                        assert(member_views(m@) =~= ms.push((p@, new_child@)));
                        proof {
                            lemma_object_view(m);
                        }
                        JsonValue::Object(m)
                    },
                }
            },
            PathSegment::Index(i) => {
                let i = *i;
                let mut a = match node {
                    JsonValue::Array(a) => a,
                    _ => Vec::new(),
                };
                proof {
                    lemma_array_view(a);
                    match gnode {
                        JsonValue::Array(_) => {},
                        _ => {
                            assert(element_views(a@) =~= elements(node@));
                        },
                    }
                }
                assert(element_views(a@) == elements(node@));
                pad_with_nulls(&mut a, i);
                let ghost padded = element_views(a@);
                let mut child = JsonValue::Null;
                std::mem::swap(&mut child, &mut a[i]);
                assert(child@ == padded[i as int]);
                let new_child = set_value_at(child, path, k + 1, value);
                a.set(i, new_child);
                assert(element_views(a@) =~= padded.update(i as int, new_child@));
                proof {
                    lemma_array_view(a);
                }
                JsonValue::Array(a)
            },
        }
    }
}

impl JsonValue {
    pub fn is_object(&self) -> (b: bool)
        ensures
            b == (self@ is Object),
    {
        match self {
            JsonValue::Object(_) => true,
            _ => false,
        }
    }

    pub fn is_array(&self) -> (b: bool)
        ensures
            b == (self@ is Array),
    {
        match self {
            JsonValue::Array(_) => true,
            _ => false,
        }
    }
}

/// Assigns `value` at `path` in `root`, by `set_path`.
pub fn set_value_at_path(root: &mut JsonValue, path: &Vec<PathSegment>, value: JsonValue)
    ensures
        final(root)@ == set_path(old(root)@, segments_view(path@), value@),
{
    let mut node = JsonValue::Null;
    std::mem::swap(&mut node, root);
    assert(segments_view(path@).skip(0) =~= segments_view(path@));
    *root = set_value_at(node, path, 0, value);
}

} // verus!

