use std::io::Read;

use serde::ser::SerializeStruct;
use serde_greppable::{gron_to_json, json_to_gron, JsonValue};
use serde_json::{Number, Value};

#[derive(Debug, PartialEq)]
struct Person {
    name: String,
    age: u8,
}

impl serde::Serialize for Person {
    fn serialize<S>(&self, serializer: S) -> Result<S::Ok, S::Error>
    where
        S: serde::Serializer,
    {
        let mut state = serializer.serialize_struct("Person", 2)?;
        state.serialize_field("name", &self.name)?;
        state.serialize_field("age", &self.age)?;
        state.end()
    }
}

fn person_from_value(v: &Value) -> Person {
    Person {
        name: v["name"].as_str().unwrap().to_owned(),
        age: u8::try_from(v["age"].as_u64().unwrap()).unwrap(),
    }
}

fn from_serde(v: &Value) -> JsonValue {
    match v {
        Value::Null => JsonValue::Null,
        Value::Bool(b) => JsonValue::Bool(*b),
        Value::Number(n) => JsonValue::Number(n.clone()),
        Value::String(s) => JsonValue::String(s.clone()),
        Value::Array(a) => JsonValue::Array(a.iter().map(from_serde).collect()),
        Value::Object(m) => {
            JsonValue::Object(m.iter().map(|(k, v)| (k.clone(), from_serde(v))).collect())
        }
    }
}

fn to_serde(v: &JsonValue) -> Value {
    match v {
        JsonValue::Null => Value::Null,
        JsonValue::Bool(b) => Value::Bool(*b),
        JsonValue::Number(n) => Value::Number(n.clone()),
        JsonValue::String(s) => Value::String(s.clone()),
        JsonValue::Array(a) => Value::Array(a.iter().map(to_serde).collect()),
        JsonValue::Object(m) => {
            let mut map = serde_json::Map::new();
            for (k, v) in m {
                map.insert(k.clone(), to_serde(v));
            }
            Value::Object(map)
        }
    }
}

fn obj(members: Vec<(&str, Value)>) -> Value {
    let mut map = serde_json::Map::new();
    for (k, v) in members {
        map.insert(k.to_string(), v);
    }
    Value::Object(map)
}

fn s(text: &str) -> Value {
    Value::String(text.to_string())
}

fn num(n: i64) -> Value {
    Value::Number(Number::from(n))
}

fn float(x: f64) -> Value {
    Value::Number(Number::from_f64(x).unwrap())
}

fn write(v: &Value) -> String {
    json_to_gron(&from_serde(v))
}

fn read(input: &str) -> Value {
    to_serde(&gron_to_json(input).unwrap())
}

#[test]
fn greppable_simple() {
    assert_eq!(
        write(&obj(vec![("name", s("Alice")), ("age", num(30))])),
        "json = {};\njson.name = \"Alice\";\njson.age = 30;\n"
    );
}

#[test]
fn greppable_nested() {
    assert_eq!(
        write(&obj(vec![
            ("person", obj(vec![("name", s("Bob")), ("city", s("NYC"))])),
            ("id", num(1)),
        ])),
        "json = {};\njson.person = {};\njson.person.name = \"Bob\";\njson.person.city = \"NYC\";\njson.id = 1;\n"
    );
}

#[test]
fn from_gron_simple() {
    let input = "json = {};\njson.age = 30;\njson.name = \"Alice\";\n";
    assert_eq!(read(input), obj(vec![("age", num(30)), ("name", s("Alice"))]));
}

#[test]
fn from_gron_nested() {
    let input = "json = {};\njson.id = 1;\njson.person = {};\njson.person.city = \"NYC\";\njson.person.name = \"Bob\";\n";
    assert_eq!(
        read(input),
        obj(vec![
            ("id", num(1)),
            ("person", obj(vec![("city", s("NYC")), ("name", s("Bob"))])),
        ])
    );
}

#[test]
fn from_gron_arrays() {
    let input = "json = {};\njson.items = [];\njson.items[0] = \"first\";\njson.items[1] = \"second\";\njson.items[2] = \"third\";\n";
    assert_eq!(
        read(input),
        obj(vec![(
            "items",
            Value::Array(vec![s("first"), s("second"), s("third")]),
        )])
    );
}

#[test]
fn from_gron_sparse_array() {
    let input = "json.likes = [];\njson.likes[0] = \"code\";\njson.likes[2] = \"meat\";\n";
    assert_eq!(
        read(input),
        obj(vec![(
            "likes",
            Value::Array(vec![s("code"), Value::Null, s("meat")]),
        )])
    );
}

#[test]
#[allow(clippy::approx_constant)]
fn from_gron_mixed_types() {
    let input = "json = {};\njson.integer = 42;\njson.float = 3.14;\njson.negative = -5;\njson.isTrue = true;\njson.isFalse = false;\njson.nothing = null;\n";
    assert_eq!(
        read(input),
        obj(vec![
            ("float", float(3.14)),
            ("integer", num(42)),
            ("isFalse", Value::Bool(false)),
            ("isTrue", Value::Bool(true)),
            ("negative", num(-5)),
            ("nothing", Value::Null),
        ])
    );
}

#[test]
fn from_gron_special_keys() {
    let input = "json = {};\njson[\"key-with-dashes\"] = \"value1\";\njson[\"key.with.dots\"] = \"value2\";\njson[\"key with spaces\"] = \"value3\";\njson[\"123numeric\"] = \"value4\";\n";
    assert_eq!(
        read(input),
        obj(vec![
            ("123numeric", s("value4")),
            ("key with spaces", s("value3")),
            ("key-with-dashes", s("value1")),
            ("key.with.dots", s("value2")),
        ])
    );
}

#[test]
fn from_gron_identifier_edge_cases() {
    let input =
        "json = {};\njson.$dollar = 1;\njson._underscore = 2;\njson.alpha$beta_gamma9 = 3;\n";
    assert_eq!(
        read(input),
        obj(vec![
            ("$dollar", num(1)),
            ("_underscore", num(2)),
            ("alpha$beta_gamma9", num(3)),
        ])
    );
}

#[test]
fn from_gron_single_quotes() {
    let input = "json = {};\njson['User-Agent'] = 'gron/0.1';\n";
    assert_eq!(read(input), obj(vec![("User-Agent", s("gron/0.1"))]));
}

#[test]
fn from_gron_deeply_nested() {
    let input = "json = {};\njson.a = {};\njson.a.b = {};\njson.a.b.c = {};\njson.a.b.c.d = [];\njson.a.b.c.d[0] = {};\njson.a.b.c.d[0].e = \"deep\";\n";
    assert_eq!(
        read(input),
        obj(vec![(
            "a",
            obj(vec![(
                "b",
                obj(vec![(
                    "c",
                    obj(vec![("d", Value::Array(vec![obj(vec![("e", s("deep"))])]))]),
                )]),
            )]),
        )])
    );
}

#[test]
fn serde_api_round_trip() {
    let person = Person {
        name: "Alice".to_owned(),
        age: 30,
    };
    let encoded = write(&serde_json::to_value(&person).unwrap());
    assert_eq!(person_from_value(&read(&encoded)), person);

    let mut writer = Vec::new();
    writer.extend_from_slice(write(&serde_json::to_value(&person).unwrap()).as_bytes());
    assert_eq!(
        person_from_value(&read(std::str::from_utf8(&writer).unwrap())),
        person
    );
    let mut input = String::new();
    writer.as_slice().read_to_string(&mut input).unwrap();
    assert_eq!(person_from_value(&read(&input)), person);
}
