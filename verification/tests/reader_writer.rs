use serde_greppable::json::set_value_at_path;
use serde_greppable::{
    gron_to_json, json_to_gron, parse_path, split_assignment, GronError, JsonValue, PathParser,
    PathSegment,
};
use serde_json::{Number, Value};

fn from_serde(v: &Value) -> JsonValue {
    match v {
        Value::Null => JsonValue::Null,
        Value::Bool(b) => JsonValue::Bool(*b),
        Value::Number(n) => JsonValue::Number(n.clone()),
        Value::String(s) => JsonValue::String(s.clone()),
        Value::Array(a) => JsonValue::Array(a.iter().map(from_serde).collect()),
        Value::Object(m) => {
            JsonValue::Object(m.iter().map(|(k, v)| (k.clone(), from_serde(v))).collect())
        }
    }
}

fn to_serde(v: &JsonValue) -> Value {
    match v {
        JsonValue::Null => Value::Null,
        JsonValue::Bool(b) => Value::Bool(*b),
        JsonValue::Number(n) => Value::Number(n.clone()),
        JsonValue::String(s) => Value::String(s.clone()),
        JsonValue::Array(a) => Value::Array(a.iter().map(to_serde).collect()),
        JsonValue::Object(m) => {
            let mut map = serde_json::Map::new();
            for (k, v) in m {
                map.insert(k.clone(), to_serde(v));
            }
            Value::Object(map)
        }
    }
}

fn obj(members: Vec<(&str, Value)>) -> Value {
    let mut map = serde_json::Map::new();
    for (k, v) in members {
        map.insert(k.to_string(), v);
    }
    Value::Object(map)
}

fn s(text: &str) -> Value {
    Value::String(text.to_string())
}

fn num(n: i64) -> Value {
    Value::Number(Number::from(n))
}

fn write(v: &Value) -> String {
    json_to_gron(&from_serde(v))
}

fn read(input: &str) -> Value {
    to_serde(&gron_to_json(input).unwrap())
}

fn cause(input: &str) -> GronError {
    gron_to_json(input).unwrap_err().cause
}

fn prop(name: &str) -> PathSegment {
    PathSegment::Property(name.to_string())
}

#[test]
fn written_text_reads_back_as_the_value() {
    let value = obj(vec![
        ("plain", num(1)),
        ("with space", s("a;b=c")),
        ("quote\"d", s("line\nbreak \\ and \"quotes\" 'single'")),
        ("", Value::Null),
        ("1abc", Value::Bool(true)),
        ("$ok_9", Value::Array(vec![])),
        ("é", obj(vec![])),
        (
            "nested",
            Value::Array(vec![
                obj(vec![("x", Value::Array(vec![num(-7), s("")]))]),
                Value::Array(vec![Value::Array(vec![])]),
                Value::Number(Number::from_f64(1.5).unwrap()),
                s("\u{1F600}\u{7}"),
            ]),
        ),
    ]);
    assert_eq!(read(&write(&value)), value);
}

#[test]
fn scalars_at_the_root_read_back() {
    for value in [num(5), Value::Null, Value::Bool(false), s("x;y")] {
        assert_eq!(read(&write(&value)), value);
    }
    assert_eq!(write(&num(5)), "json = 5;\n");
    assert_eq!(write(&Value::Null), "json = null;\n");
}

#[test]
fn arrays_and_bracketed_names_are_written_in_order() {
    let value = obj(vec![
        ("a b", Value::Array(vec![num(1), s("x")])),
        ("ok", obj(vec![])),
    ]);
    assert_eq!(
        write(&value),
        "json = {};\njson[\"a b\"] = [];\njson[\"a b\"][0] = 1;\njson[\"a b\"][1] = \"x\";\njson.ok = {};\n"
    );
}

#[test]
fn strings_and_names_are_written_escaped() {
    assert_eq!(write(&s("a\"b\n")), "json = \"a\\\"b\\n\";\n");
    assert_eq!(
        write(&obj(vec![("a\"b", num(1))])),
        "json = {};\njson[\"a\\\"b\"] = 1;\n"
    );
}

#[test]
fn blank_lines_and_surrounding_whitespace_are_skipped() {
    assert_eq!(
        read("\n  json = {};  \n\n\tjson.a = 1;\r\n\n"),
        obj(vec![("a", num(1))])
    );
    assert_eq!(read(""), Value::Null);
    assert_eq!(read("\n \n"), Value::Null);
}

#[test]
fn a_refused_line_is_reported_with_its_number_and_text() {
    let error = gron_to_json("json = {};\n\n  json.x = ;  \njson.y = 1;\n").unwrap_err();
    assert_eq!(error.line, 3);
    assert_eq!(error.text, "json.x = ;");
    assert!(matches!(error.cause, GronError::InvalidValue(_)));
    assert_eq!(error.to_string(), "Error on line 3: json.x = ;");
    assert!(error
        .full_message()
        .starts_with("Error on line 3: json.x = ;: Failed to parse gron value as JSON: "));
}

#[test]
fn each_refusal_of_a_line_has_its_error() {
    assert_eq!(cause("json.foo"), GronError::MissingAssignment);
    assert_eq!(cause(".foo = 1;"), GronError::MissingRoot);
    assert_eq!(cause("root.foo = 1;"), GronError::WrongRoot("root".to_string()));
    assert_eq!(cause("json? = 1;"), GronError::UnexpectedPathChar('?'));
    assert_eq!(cause("json. = 1;"), GronError::MissingPropertyName);
    assert_eq!(cause("json[?] = 1;"), GronError::UnsupportedBracket('?'));
    assert_eq!(cause("json[ = 1;"), GronError::UnclosedBracket);
    assert_eq!(
        cause("json[99999999999999999999999] = 1;"),
        GronError::IndexOverflow
    );
    assert_eq!(cause("json[1} = 1;"), GronError::ExpectedChar(']', '}'));
    assert_eq!(cause("json[1 = 1;"), GronError::ExpectedCharAtEnd(']'));
    assert_eq!(cause("json.a = 1"), GronError::MissingSemicolon);
    assert_eq!(cause("json.a = 'x;"), GronError::MissingSemicolon);
    assert!(matches!(cause("json.a = nope;"), GronError::InvalidValue(_)));
    assert_eq!(cause("json.a = 'x' y;"), GronError::TrailingAfterString);
    assert!(matches!(
        cause(r#"json["a\x"] = 1;"#),
        GronError::InvalidQuotedSegment(_)
    ));
}

#[test]
fn each_refusal_of_a_path_has_its_error() {
    assert_eq!(parse_path("json['abc").unwrap_err(), GronError::UnclosedString);
    assert_eq!(parse_path("json[1").unwrap_err(), GronError::ExpectedCharAtEnd(']'));
    assert_eq!(parse_path("json['\\u12").unwrap_err(), GronError::UnclosedUnicode);
    assert_eq!(
        parse_path("json['\\u12g4']").unwrap_err(),
        GronError::InvalidUnicodeChar('g')
    );
    assert_eq!(
        parse_path("json['\\udfff']").unwrap_err(),
        GronError::InvalidCodePoint
    );
    assert_eq!(PathParser::new("x").parse_index().unwrap_err(), GronError::EmptyIndex);
    assert_eq!(
        PathParser::new("").parse_escape_sequence().unwrap_err(),
        GronError::UnclosedEscape
    );
}

#[test]
fn error_messages_read_as_documented() {
    assert_eq!(
        GronError::MissingAssignment.to_string(),
        "Expected assignment (e.g., json.a = 1)"
    );
    assert_eq!(
        GronError::UnexpectedPathChar('?').to_string(),
        "Unexpected character in path: '?'"
    );
    assert_eq!(
        GronError::ExpectedChar(']', '}').to_string(),
        "Expected ']', found '}'"
    );
    assert_eq!(GronError::EmptyIndex.to_string(), "Failed to parse array index");
    assert_eq!(
        GronError::EmptyIndex.full_message(),
        "Failed to parse array index: cannot parse integer from empty string"
    );
    assert_eq!(
        GronError::IndexOverflow.full_message(),
        "Failed to parse array index: number too large to fit in target type"
    );
}

#[test]
fn paths_read_every_kind_of_segment() {
    let path = parse_path(r#"json.a["b\u0041"][3]['c\'d']"#).unwrap();
    assert_eq!(path.len(), 4);
    assert!(matches!(&path[0], PathSegment::Property(p) if p == "a"));
    assert!(matches!(&path[1], PathSegment::Property(p) if p == "bA"));
    assert!(matches!(&path[2], PathSegment::Index(3)));
    assert!(matches!(&path[3], PathSegment::Property(p) if p == "c'd"));
    assert_eq!(parse_path("json").unwrap().len(), 0);
}

#[test]
fn values_are_read_as_json_or_single_quoted_strings() {
    assert_eq!(
        read("json.a = [1, \"two\", {\"b\": null}];"),
        obj(vec![(
            "a",
            Value::Array(vec![num(1), s("two"), obj(vec![("b", Value::Null)])]),
        )])
    );
    assert_eq!(read("json = \"\\u00e9\";"), s("é"));
    assert_eq!(read("json = '\\u00e9\\t';"), s("é\t"));
    assert_eq!(read("json = 'a;b' ;"), s("a;b"));
}

#[test]
fn split_assignment_without_equals_is_refused() {
    assert_eq!(
        split_assignment("json.a 1;").unwrap_err(),
        GronError::MissingAssignment
    );
    assert_eq!(split_assignment("a = b = c").unwrap(), ("a ", " b = c"));
}

#[test]
fn assignment_sets_reads_back_and_leaves_the_rest() {
    let mut root = from_serde(&obj(vec![
        ("a", obj(vec![("b", num(1))])),
        ("c", Value::Array(vec![num(1)])),
    ]));
    set_value_at_path(&mut root, &vec![prop("a"), prop("b")], JsonValue::Bool(true));
    assert_eq!(
        to_serde(&root),
        obj(vec![
            ("a", obj(vec![("b", Value::Bool(true))])),
            ("c", Value::Array(vec![num(1)])),
        ])
    );
}

#[test]
fn empty_containers_keep_what_stands_there() {
    let start = obj(vec![
        ("a", obj(vec![("b", num(1))])),
        ("c", Value::Array(vec![num(1)])),
    ]);
    let mut root = from_serde(&start);
    set_value_at_path(&mut root, &vec![prop("a")], JsonValue::Object(vec![]));
    set_value_at_path(&mut root, &vec![prop("c")], JsonValue::Array(vec![]));
    assert_eq!(to_serde(&root), start);
    set_value_at_path(&mut root, &vec![prop("a")], JsonValue::Array(vec![]));
    assert_eq!(
        to_serde(&root),
        obj(vec![("a", Value::Array(vec![])), ("c", Value::Array(vec![num(1)]))])
    );
}

#[test]
fn an_index_past_the_end_pads_with_nulls() {
    let mut root = from_serde(&Value::Array(vec![num(1)]));
    set_value_at_path(&mut root, &vec![PathSegment::Index(3)], JsonValue::Bool(true));
    assert_eq!(
        to_serde(&root),
        Value::Array(vec![num(1), Value::Null, Value::Null, Value::Bool(true)])
    );
    let mut root = JsonValue::Null;
    set_value_at_path(
        &mut root,
        &vec![prop("x"), PathSegment::Index(1), prop("y")],
        JsonValue::Null,
    );
    assert_eq!(
        to_serde(&root),
        obj(vec![(
            "x",
            Value::Array(vec![Value::Null, obj(vec![("y", Value::Null)])]),
        )])
    );
}

#[test]
fn values_without_members_are_written_as_stated() {
    assert_eq!(write(&Value::Bool(true)), "json = true;\n");
    assert_eq!(write(&Value::Bool(false)), "json = false;\n");
    assert_eq!(write(&Value::Array(vec![])), "json = [];\n");
    assert_eq!(write(&obj(vec![])), "json = {};\n");
    assert_eq!(
        write(&s("\u{1}\u{8}\t\n\u{c}\r\u{1f}\\/\u{7f}é")),
        "json = \"\\u0001\\b\\t\\n\\f\\r\\u001f\\\\/\u{7f}é\";\n"
    );
}

#[test]
fn values_read_from_gron_write_back_to_themselves() {
    let input = "json = {};\njson.a = {\"x\": 1, \"x\": 2};\njson.b[2] = 'y';\n";
    let value = gron_to_json(input).unwrap();
    assert_eq!(
        to_serde(&value),
        obj(vec![
            ("a", obj(vec![("x", num(2))])),
            ("b", Value::Array(vec![Value::Null, Value::Null, s("y")])),
        ])
    );
    assert_eq!(read(&json_to_gron(&value)), to_serde(&value));
}

#[test]
fn indices_are_written_in_decimal() {
    let value = Value::Array((0..11).map(num).collect());
    let text = write(&value);
    assert!(text.starts_with("json = [];\njson[0] = 0;\n"));
    assert!(text.ends_with("json[9] = 9;\njson[10] = 10;\n"));
    assert_eq!(read(&text), value);
}

#[test]
fn refusals_of_the_json_reader_carry_its_message() {
    let expected = serde_json::from_str::<Value>("nope").unwrap_err().to_string();
    assert_eq!(cause("json.a = nope ;"), GronError::InvalidValue(expected.clone()));
    assert_eq!(
        gron_to_json("json.a = nope;").unwrap_err().full_message(),
        format!("Error on line 1: json.a = nope;: Failed to parse gron value as JSON: {expected}")
    );
    let expected = serde_json::from_str::<String>(r#""a\x""#)
        .unwrap_err()
        .to_string();
    assert_eq!(
        cause(r#"json["a\x"] = 1;"#),
        GronError::InvalidQuotedSegment(expected)
    );
}
