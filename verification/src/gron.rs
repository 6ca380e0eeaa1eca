//! Writing a JSON value as gron: one assignment per line, `json = {};` for the root,
//! then every member and element in order, each on the path that leads to it.
use vstd::prelude::*;
use vstd::string::*;

use crate::chars::{
    decimal, is_ident_continue, is_ident_start, is_identifier_continue, is_identifier_start,
    is_white_space, push_char, push_decimal,
};
use crate::json::{
    json_string_value, json_text_value, lemma_array_view, lemma_object_view, Json, JsonRead,
    JsonValue, StringRead,
};
use crate::assign::well_formed;
use crate::error::LineFailure;
use crate::roundtrip::lemma_gron_round_trip;
use crate::text::str_chars;
use crate::ungron::gron_spec;

verus! {

/// The text that `serde_json::to_string` writes for `v`, a value without members or
/// elements.
pub uninterp spec fn json_leaf_text(v: Json) -> Seq<char>;

/// The body of a JSON string as it is written: no control character, no `"` but
/// escaped, and a backslash always followed by the character it escapes.
pub open spec fn is_string_body(b: Seq<char>) -> bool
    decreases b.len(),
{
    if b.len() == 0 {
        true
    } else if (b[0] as u32) < 0x20 {
        false
    } else if b[0] == '\\' {
        b.len() >= 2 && b[1] as u32 >= 0x20 && is_string_body(b.skip(2))
    } else {
        b[0] != '"' && is_string_body(b.skip(1))
    }
}

/// A JSON string literal as it is written: `"`, a string body, `"`.
pub open spec fn is_string_token(t: Seq<char>) -> bool {
    &&& t.len() >= 2
    &&& t[0] == '"'
    &&& t.last() == '"'
    &&& is_string_body(t.subrange(1, t.len() - 1))
}

/// A token with no quote, `;`, `=` or whitespace in it, such as a number, `true`,
/// `false`, `null`, `{}` or `[]`.
pub open spec fn is_bare_token(t: Seq<char>) -> bool {
    &&& t.len() > 0
    &&& forall|i: int|
        0 <= i < t.len() ==> {
            let c = #[trigger] t[i];
            &&& c != '"'
            &&& c != '\''
            &&& c != ';'
            &&& c != '='
            &&& !is_white_space(c)
        }
}

/// The lower-case hex digit of `d`, below 16.
pub open spec fn hex_digit_char(d: nat) -> char {
    if d < 10 {
        (48 + d) as char
    } else {
        (87 + d) as char
    }
}

/// How `c` is written inside a JSON string: `"` and `\` after a backslash; backspace,
/// tab, line feed, form feed and carriage return as `\b`, `\t`, `\n`, `\f`, `\r`; the
/// other characters below U+0020 as `\u00` and two lower-case hex digits; any other
/// character as itself.
pub open spec fn escaped_char_text(c: char) -> Seq<char> {
    let v = c as u32;
    if c == '"' {
        seq!['\\', '"']
    } else if c == '\\' {
        seq!['\\', '\\']
    } else if v == 0x08 {
        seq!['\\', 'b']
    } else if v == 0x09 {
        seq!['\\', 't']
    } else if v == 0x0a {
        seq!['\\', 'n']
    } else if v == 0x0c {
        seq!['\\', 'f']
    } else if v == 0x0d {
        seq!['\\', 'r']
    } else if v < 0x20 {
        seq!['\\', 'u', '0', '0', hex_digit_char(v as nat / 16), hex_digit_char(v as nat % 16)]
    } else {
        seq![c]
    }
}

/// The characters of `s`, each written as inside a JSON string.
pub open spec fn escaped_text(s: Seq<char>) -> Seq<char>
    decreases s.len(),
{
    if s.len() == 0 {
        Seq::empty()
    } else {
        escaped_text(s.drop_last()) + escaped_char_text(s.last())
    }
}

/// The JSON string literal of `s`: `"`, its escaped characters, `"`.
pub open spec fn string_text(s: Seq<char>) -> Seq<char> {
    seq!['"'] + escaped_text(s) + seq!['"']
}

/// What the writer of a value without members or elements promises of its text `t`:
/// it reads back as the value; `null`, `true`, `false`, `[]` and `{}` are written as
/// such, a string as its JSON string literal, a number as a token without quotes, `;`,
/// `=` or whitespace.
pub open spec fn leaf_text_facts(v: Json, t: Seq<char>) -> bool {
    &&& json_text_value(t) == JsonRead::Ok(v)
    &&& match v {
        Json::Null => t == seq!['n', 'u', 'l', 'l'],
        Json::Bool(b) => t == if b {
            seq!['t', 'r', 'u', 'e']
        } else {
            seq!['f', 'a', 'l', 's', 'e']
        },
        Json::Number(_) => is_bare_token(t),
        Json::Str(s) => t == string_text(s) && json_string_value(t) == StringRead::Ok(s),
        Json::Array(_) => t == seq!['[', ']'],
        Json::Object(_) => t == seq!['{', '}'],
    }
}

/// The writer's promises, for the text it gives `v`.
pub open spec fn leaf_facts(v: Json) -> bool {
    leaf_text_facts(v, json_leaf_text(v))
}

/// Writes `v`, a value without members or elements, with `serde_json::to_string`. The
/// text reads back with `serde_json::from_str` as `v`. `null`, `true`, `false`, `[]` and
/// `{}` are written as such; a string as `"`, its characters escaped as in
/// `escaped_char_text`, `"`; a number as a token without quotes, `;`, `=` or whitespace,
/// what its digits are being left unstated.
#[verifier::external_body]
pub(crate) fn write_json_leaf(v: &JsonValue) -> (r: String)
    requires
        match v {
            JsonValue::Array(a) => a@.len() == 0,
            JsonValue::Object(m) => m@.len() == 0,
            _ => true,
        },
    ensures
        r@ == json_leaf_text(v@),
        json_text_value(r@) == JsonRead::Ok(v@),
        match v@ {
            Json::Null => r@ == seq!['n', 'u', 'l', 'l'],
            Json::Bool(b) => r@ == if b {
                seq!['t', 'r', 'u', 'e']
            } else {
                seq!['f', 'a', 'l', 's', 'e']
            },
            Json::Number(_) => is_bare_token(r@),
            Json::Str(s) => r@ == string_text(s) && json_string_value(r@) == StringRead::Ok(s),
            Json::Array(_) => r@ == seq!['[', ']'],
            Json::Object(_) => r@ == seq!['{', '}'],
        },
{
    let value = match v {
        JsonValue::Null => serde_json::Value::Null,
        JsonValue::Bool(b) => serde_json::Value::Bool(*b),
        JsonValue::Number(n) => serde_json::Value::Number(n.clone()),
        JsonValue::String(s) => serde_json::Value::String(s.clone()),
        JsonValue::Array(_) => serde_json::Value::Array(Vec::new()),
        JsonValue::Object(_) => serde_json::Value::Object(serde_json::Map::new()),
    };
    match serde_json::to_string(&value) {
        Ok(t) => t,
        Err(_) => String::new(),
    }
}

/// The body of a JSON string literal holds its escaped characters.
proof fn lemma_string_body_concat(a: Seq<char>, b: Seq<char>)
    requires
        is_string_body(a),
        is_string_body(b),
    ensures
        is_string_body(a + b),
    decreases a.len(),
{
    if a.len() > 0 {
        let n: int = if a[0] == '\\' {
            2
        } else {
            1
        };
        assert((a + b).skip(n) =~= a.skip(n) + b);
        assert((a + b)[0] == a[0]);
        if n == 2 {
            assert((a + b)[1] == a[1]);
        }
        lemma_string_body_concat(a.skip(n), b);
    } else {
        assert(a + b =~= b);
    }
}

proof fn lemma_escaped_char_body(c: char)
    ensures
        is_string_body(escaped_char_text(c)),
{
    let t = escaped_char_text(c);
    let v = c as u32;
    let none = Seq::<char>::empty();
    assert(is_string_body(none));
    if c == '"' || c == '\\' || v == 0x08 || v == 0x09 || v == 0x0a || v == 0x0c || v == 0x0d {
        assert(t.len() == 2 && t[0] == '\\' && t[1] as u32 >= 0x20);
        assert(t.skip(2) =~= none);
    } else if v < 0x20 {
        let hi = hex_digit_char(v as nat / 16);
        let lo = hex_digit_char(v as nat % 16);
        assert(hi == '0' || hi == '1');
        assert('0' <= lo <= '9' || 'a' <= lo <= 'f');
        let t4 = seq!['0', '0', hi, lo];
        let t3 = seq!['0', hi, lo];
        let t2 = seq![hi, lo];
        let t1 = seq![lo];
        assert(t1.skip(1) =~= none);
        assert(is_string_body(t1));
        assert(t2.skip(1) =~= t1);
        assert(is_string_body(t2));
        assert(t3.skip(1) =~= t2);
        assert(is_string_body(t3));
        assert(t4.skip(1) =~= t3);
        assert(is_string_body(t4));
        assert(t.skip(2) =~= t4);
        assert(t[0] == '\\' && t[1] == 'u');
    } else {
        assert(t.skip(1) =~= none);
    }
}

/// The JSON string literal of a string is a string token.
proof fn lemma_string_text_token(s: Seq<char>)
    ensures
        is_string_token(string_text(s)),
        is_string_body(escaped_text(s)),
    decreases s.len(),
{
    if s.len() > 0 {
        lemma_string_text_token(s.drop_last());
        lemma_escaped_char_body(s.last());
        lemma_string_body_concat(escaped_text(s.drop_last()), escaped_char_text(s.last()));
    }
    let t = string_text(s);
    assert(t.subrange(1, t.len() - 1) =~= escaped_text(s));
}

/// What the writer's promises give of the shape of a text: a string is written as a
/// string token, anything else as a bare token.
pub(crate) proof fn lemma_leaf_shape(v: Json)
    requires
        leaf_facts(v),
    ensures
        match v {
            Json::Str(s) => is_string_token(json_leaf_text(v)) && json_string_value(
                json_leaf_text(v),
            ) == StringRead::Ok(s),
            _ => is_bare_token(json_leaf_text(v)),
        },
{
    match v {
        Json::Str(s) => {
            lemma_string_text_token(s);
        },
        _ => {},
    }
}

/// A member name that is written bare, after a `.`.
pub open spec fn is_identifier(k: Seq<char>) -> bool {
    &&& k.len() > 0
    &&& is_ident_start(k[0])
    &&& forall|i: int| 1 <= i < k.len() ==> is_ident_continue(#[trigger] k[i])
}

/// The path segment of the member `k`: `.k` for an identifier, `["k"]` otherwise.
pub open spec fn key_text(k: Seq<char>) -> Seq<char> {
    if is_identifier(k) {
        seq!['.'] + k
    } else {
        seq!['['] + json_leaf_text(Json::Str(k)) + seq![']']
    }
}

/// The path segment of the element at `i`: `[i]`.
pub open spec fn index_text(i: nat) -> Seq<char> {
    seq!['['] + decimal(i) + seq![']']
}

/// The line that assigns the value written `value` at the path written `path`.
pub open spec fn line_text(path: Seq<char>, value: Seq<char>) -> Seq<char> {
    path + seq![' ', '=', ' '] + value + seq![';', '\n']
}

/// `v` itself where it has no members or elements; the empty object or array otherwise.
pub open spec fn empty_like(v: Json) -> Json {
    match v {
        Json::Object(_) => Json::Object(Seq::empty()),
        Json::Array(_) => Json::Array(Seq::empty()),
        _ => v,
    }
}

/// The root path.
pub open spec fn root_text() -> Seq<char> {
    seq!['j', 's', 'o', 'n']
}

/// The lines that write `v` at `path`: the line that assigns `v`, or the empty object
/// or array, then the lines of each member or element in order.
pub open spec fn gron_text_at(v: Json, path: Seq<char>) -> Seq<char>
    decreases v, 0int,
{
    line_text(path, json_leaf_text(empty_like(v))) + match v {
        Json::Object(m) => members_text(m, path, 0),
        Json::Array(a) => elements_text(a, path, 0),
        _ => Seq::empty(),
    }
}

/// The lines of the members `m[i..]` of the object at `path`.
pub open spec fn members_text(m: Seq<(Seq<char>, Json)>, path: Seq<char>, i: int) -> Seq<char>
    decreases m, m.len() - i,
{
    if !(0 <= i < m.len()) {
        Seq::empty()
    } else {
        gron_text_at(m[i].1, path + key_text(m[i].0)) + members_text(m, path, i + 1)
    }
}

/// The lines of the elements `a[i..]` of the array at `path`.
pub open spec fn elements_text(a: Seq<Json>, path: Seq<char>, i: int) -> Seq<char>
    decreases a, a.len() - i,
{
    if !(0 <= i < a.len()) {
        Seq::empty()
    } else {
        gron_text_at(a[i], path + index_text(i as nat)) + elements_text(a, path, i + 1)
    }
}

/// The gron text of `v`.
pub open spec fn gron_text(v: Json) -> Seq<char> {
    gron_text_at(v, root_text())
}

/// What the writer promises of the texts of the member names and of the values without
/// members or elements in `v`.
pub open spec fn text_facts(v: Json) -> bool
    decreases v, 0int,
{
    &&& leaf_facts(empty_like(v))
    &&& match v {
        Json::Object(m) => members_facts(m, 0),
        Json::Array(a) => elements_facts(a, 0),
        _ => true,
    }
}

pub open spec fn key_facts(k: Seq<char>) -> bool {
    is_identifier(k) || leaf_facts(Json::Str(k))
}

pub open spec fn members_facts(m: Seq<(Seq<char>, Json)>, i: int) -> bool
    decreases m, m.len() - i,
{
    !(0 <= i < m.len()) || (key_facts(m[i].0) && text_facts(m[i].1) && members_facts(m, i + 1))
}

pub open spec fn elements_facts(a: Seq<Json>, i: int) -> bool
    decreases a, a.len() - i,
{
    !(0 <= i < a.len()) || (text_facts(a[i]) && elements_facts(a, i + 1))
}

#[verifier::spinoff_prover]
proof fn lemma_members_facts(m: Seq<(Seq<char>, Json)>, i: int)
    requires
        0 <= i,
        forall|j: int| i <= j < m.len() ==> key_facts(#[trigger] m[j].0) && text_facts(m[j].1),
    ensures
        members_facts(m, i),
    decreases m.len() - i,
{
    if i < m.len() {
        lemma_members_facts(m, i + 1);
        assert(key_facts(m[i].0) && text_facts(m[i].1));
    }
}

proof fn lemma_elements_facts(a: Seq<Json>, i: int)
    requires
        0 <= i,
        forall|j: int| i <= j < a.len() ==> text_facts(#[trigger] a[j]),
    ensures
        elements_facts(a, i),
    decreases a.len() - i,
{
    if i < a.len() {
        lemma_elements_facts(a, i + 1);
    }
}

fn is_identifier_name(k: &String) -> (b: bool)
    ensures
        b == is_identifier(k@),
{
    let v = str_chars(k.as_str());
    if v.len() == 0 || !is_identifier_start(v[0]) {
        return false;
    }
    let mut i: usize = 1;
    while i < v.len()
        invariant
            1 <= i <= v@.len(),
            v@ == k@,
            forall|j: int| 1 <= j < i ==> is_ident_continue(#[trigger] v@[j]),
        decreases v@.len() - i,
    {
        if !is_identifier_continue(v[i]) {
            return false;
        }
        i = i + 1;
    }
    true
}

/// Appends the path segment of the member `k` to `path`.
fn push_key_segment(path: &mut String, k: &String)
    ensures
        final(path)@ == old(path)@ + key_text(k@),
        key_facts(k@),
{
    if is_identifier_name(k) {
        push_char(path, '.');
        path.append(k.as_str());
        assert(final(path)@ =~= old(path)@ + key_text(k@));
    } else {
        let text = write_json_leaf(&JsonValue::String(k.clone()));
        push_char(path, '[');
        path.append(text.as_str());
        push_char(path, ']');
        assert(final(path)@ =~= old(path)@ + key_text(k@));
    }
}

/// Appends the line that assigns the value written `value` at `path`.
pub fn push_line(out: &mut String, path: &String, value: &String)
    ensures
        final(out)@ == old(out)@ + line_text(path@, value@),
{
    out.append(path.as_str());
    out.append(" = ");
    out.append(value.as_str());
    out.append(";\n");
    proof {
        reveal_strlit(" = ");
        reveal_strlit(";\n");
    }
    assert(final(out)@ =~= old(out)@ + line_text(path@, value@));
}

/// Appends the lines that write `v` at `path`.
fn write_at(v: &JsonValue, path: &String, out: &mut String)
    ensures
        final(out)@ == old(out)@ + gron_text_at(v@, path@),
        text_facts(v@),
    decreases v,
{
    match v {
        JsonValue::Object(m) => {
            proof {
                lemma_object_view(*m);
            }
            let ghost ms = v@->Object_0;
            let no_members: Vec<(String, JsonValue)> = Vec::new();
            proof {
                lemma_object_view(no_members);
                assert(crate::json::member_views(no_members@) =~= Seq::empty());
            }
            let empty = write_json_leaf(&JsonValue::Object(no_members));
            push_line(out, path, &empty);
            let ghost start = out@;
            let mut i: usize = 0;
            while i < m.len()
                invariant
                    *v == JsonValue::Object(*m),
                    i <= m@.len(),
                    ms == v@->Object_0,
                    ms.len() == m@.len(),
                    forall|j: int| 0 <= j < m@.len() ==> #[trigger] ms[j] == (m@[j].0@, m@[j].1@),
                    start + members_text(ms, path@, 0) == out@ + members_text(ms, path@, i as int),
                    forall|j: int|
                        0 <= j < i ==> key_facts(#[trigger] ms[j].0) && text_facts(ms[j].1),
                decreases m@.len() - i,
            {
                let mut child_path = path.clone();
                push_key_segment(&mut child_path, &m[i].0);
                let ghost before = out@;
                proof {
                    assert(*v == JsonValue::Object(*m));
                    assert(decreases_to!(*v => v->Object_0));
                    assert(decreases_to!(*m => m@));
                    assert(decreases_to!(m@ => m@[i as int]));
                    assert(decreases_to!(m@[i as int] => m@[i as int].1));
                }
                write_at(&m[i].1, &child_path, out);
                assert(members_text(ms, path@, i as int) == gron_text_at(
                    ms[i as int].1,
                    path@ + key_text(ms[i as int].0),
                ) + members_text(ms, path@, i + 1));
                assert(out@ + members_text(ms, path@, i + 1) =~= before + members_text(
                    ms,
                    path@,
                    i as int,
                ));
                i = i + 1;
            }
            assert(members_text(ms, path@, i as int) =~= Seq::<char>::empty());
            assert(gron_text_at(v@, path@) == line_text(path@, empty@) + members_text(
                ms,
                path@,
                0,
            ));
            proof {
                lemma_members_facts(ms, 0);
            }
            assert(final(out)@ =~= old(out)@ + gron_text_at(v@, path@));
        },
        JsonValue::Array(a) => {
            proof {
                lemma_array_view(*a);
            }
            let ghost es = v@->Array_0;
            let no_elements: Vec<JsonValue> = Vec::new();
            proof {
                lemma_array_view(no_elements);
                assert(crate::json::element_views(no_elements@) =~= Seq::empty());
            }
            let empty = write_json_leaf(&JsonValue::Array(no_elements));
            push_line(out, path, &empty);
            let ghost start = out@;
            let mut i: usize = 0;
            while i < a.len()
                invariant
                    *v == JsonValue::Array(*a),
                    i <= a@.len(),
                    es == v@->Array_0,
                    es.len() == a@.len(),
                    forall|j: int| 0 <= j < a@.len() ==> #[trigger] es[j] == a@[j]@,
                    start + elements_text(es, path@, 0) == out@ + elements_text(
                        es,
                        path@,
                        i as int,
                    ),
                    forall|j: int| 0 <= j < i ==> text_facts(#[trigger] es[j]),
                decreases a@.len() - i,
            {
                let mut child_path = path.clone();
                push_char(&mut child_path, '[');
                push_decimal(&mut child_path, i);
                push_char(&mut child_path, ']');
                assert(child_path@ =~= path@ + index_text(i as nat));
                let ghost before = out@;
                proof {
                    assert(*v == JsonValue::Array(*a));
                    assert(decreases_to!(*v => v->Array_0));
                    assert(decreases_to!(*a => a@));
                    assert(decreases_to!(a@ => a@[i as int]));
                }
                write_at(&a[i], &child_path, out);
                assert(out@ + elements_text(es, path@, i + 1) =~= before + elements_text(
                    es,
                    path@,
                    i as int,
                ));
                i = i + 1;
            }
            assert(elements_text(es, path@, i as int) =~= Seq::<char>::empty());
            assert(gron_text_at(v@, path@) == line_text(path@, empty@) + elements_text(
                es,
                path@,
                0,
            ));
            proof {
                lemma_elements_facts(es, 0);
            }
            assert(final(out)@ =~= old(out)@ + gron_text_at(v@, path@));
        },
        _ => {
            let text = write_json_leaf(v);
            push_line(out, path, &text);
            assert(final(out)@ =~= old(out)@ + gron_text_at(v@, path@));
        },
    }
}

/// Writes `value` as gron text: one assignment per line, each line ended by `\n`. The
/// text of a well-formed value reads back as that value.
pub fn json_to_gron(value: &JsonValue) -> (r: String)
    ensures
        r@ == gron_text(value@),
        text_facts(value@),
        well_formed(value@) ==> gron_spec(r@) == Ok::<Json, LineFailure>(value@),
{
    let mut out = String::new();
    let path = String::from_str("json");
    proof {
        reveal_strlit("json");
    }
    assert(path@ =~= root_text());
    write_at(value, &path, &mut out);
    assert(out@ =~= gron_text(value@));
    proof {
        if well_formed(value@) {
            lemma_gron_round_trip(value@);
        }
    }
    out
}

} // verus!
