use gifnoc::formats::{nested_json_of_text, parse_toml, parse_yaml};
use gifnoc::Value;

fn s(text: &str) -> Value {
    Value::String(text.to_string())
}

fn n(text: &str) -> Value {
    Value::Number(text.to_string())
}

fn obj(members: Vec<(&str, Value)>) -> Value {
    Value::Object(members.into_iter().map(|(k, v)| (k.to_string(), v)).collect())
}

#[test]
fn toml_document_becomes_nested_value() {
    let text = "name = \"app\"\n[db]\nhost = \"localhost\"\nport = 5432\n";
    let value = parse_toml(text).unwrap();
    assert_eq!(
        value,
        obj(vec![
            ("db", obj(vec![("host", s("localhost")), ("port", n("5432"))])),
            ("name", s("app")),
        ])
    );
}

#[test]
fn toml_booleans_and_arrays() {
    let value = parse_toml("debug = true\nports = [1, 2]\n").unwrap();
    assert_eq!(
        value,
        obj(vec![
            ("debug", Value::Bool(true)),
            ("ports", Value::Array(vec![n("1"), n("2")])),
        ])
    );
}

#[test]
fn invalid_toml_is_refused() {
    assert_eq!(parse_toml("name = "), None);
    assert_eq!(parse_toml("[db\n"), None);
}

#[test]
fn yaml_document_becomes_nested_value() {
    let text = "name: app\ndb:\n  host: localhost\n  port: 5432\n";
    let value = parse_yaml(text).unwrap();
    assert_eq!(
        value,
        obj(vec![
            ("db", obj(vec![("host", s("localhost")), ("port", n("5432"))])),
            ("name", s("app")),
        ])
    );
}

#[test]
fn invalid_yaml_is_refused() {
    assert_eq!(parse_yaml("a: [1, 2\n"), None);
}

#[test]
fn json_file_dotted_keys_are_nested() {
    let value = nested_json_of_text("{\"db.host\": \"remote\", \"name\": \"app\"}").unwrap();
    assert_eq!(
        value,
        obj(vec![("db", obj(vec![("host", s("remote"))])), ("name", s("app"))])
    );
}

#[test]
fn json_file_nested_objects_kept() {
    let value = nested_json_of_text("{\"db\": {\"port\": 1}}").unwrap();
    assert_eq!(value, obj(vec![("db", obj(vec![("port", n("1"))]))]));
}

#[test]
fn invalid_json_file_is_refused() {
    assert_eq!(nested_json_of_text("{\"a\": "), None);
}

#[test]
fn repeated_json_key_kept_once() {
    let value = nested_json_of_text("{\"a\": 1, \"a\": 2}").unwrap();
    assert_eq!(value, obj(vec![("a", n("2"))]));
}
