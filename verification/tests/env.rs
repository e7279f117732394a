use gifnoc::env::from_vars;
use gifnoc::Value;

fn vars(pairs: &[(&str, &str)]) -> Vec<(String, String)> {
    pairs.iter().map(|(k, v)| (k.to_string(), v.to_string())).collect()
}

fn at<'a>(value: &'a Value, keys: &[&str]) -> Option<&'a Value> {
    let mut current = value;
    for key in keys {
        match current {
            Value::Object(members) => {
                current = &members.iter().find(|(k, _)| k == key)?.1;
            }
            _ => return None,
        }
    }
    Some(current)
}

fn s(text: &str) -> Value {
    Value::String(text.to_string())
}

fn n(text: &str) -> Value {
    Value::Number(text.to_string())
}

#[test]
fn non_matching_prefix_ignored() {
    let result = from_vars("APP", vars(&[("OTHER_FOO", "bar")]));
    assert_eq!(result, Value::Object(Vec::new()));
}

#[test]
fn matching_prefix_picked_up() {
    let result = from_vars("APP", vars(&[("APP_FOO", "bar")]));
    assert_eq!(at(&result, &["foo"]), Some(&s("bar")));
}

#[test]
fn key_is_lowercased() {
    let result = from_vars("APP", vars(&[("APP_FOO_BAR", "x")]));
    assert_eq!(at(&result, &["foo_bar"]), Some(&s("x")));
}

#[test]
fn double_underscore_becomes_nesting() {
    let result = from_vars("APP", vars(&[("APP_DATABASE__HOST", "localhost")]));
    assert_eq!(at(&result, &["database", "host"]), Some(&s("localhost")));
}

#[test]
fn json_number_parsed() {
    let result = from_vars("APP", vars(&[("APP_PORT", "8080")]));
    assert_eq!(at(&result, &["port"]), Some(&n("8080")));
}

#[test]
fn env_json_bool_parsed() {
    let result = from_vars("APP", vars(&[("APP_DEBUG", "true")]));
    assert_eq!(at(&result, &["debug"]), Some(&Value::Bool(true)));
}

#[test]
fn env_non_json_kept_as_string() {
    let result = from_vars("APP", vars(&[("APP_NAME", "my app")]));
    assert_eq!(at(&result, &["name"]), Some(&s("my app")));
}

#[test]
fn multiple_vars() {
    let result = from_vars(
        "APP",
        vars(&[
            ("APP_HOST", "localhost"),
            ("APP_PORT", "9000"),
            ("OTHER_X", "ignored"),
        ]),
    );
    assert_eq!(at(&result, &["host"]), Some(&s("localhost")));
    assert_eq!(at(&result, &["port"]), Some(&n("9000")));
    assert_eq!(at(&result, &["x"]), None);
}

#[test]
fn prefix_needs_separating_underscore() {
    let result = from_vars("APP", vars(&[("APPLE", "1"), ("APP", "2")]));
    assert_eq!(result, Value::Object(Vec::new()));
}

#[test]
fn triple_underscore_keeps_one() {
    let result = from_vars("APP", vars(&[("APP_A___B", "1")]));
    assert_eq!(at(&result, &["a", "_b"]), Some(&n("1")));
}

#[test]
fn later_variable_wins() {
    let result = from_vars("APP", vars(&[("APP_PORT", "1"), ("APP_port", "2")]));
    assert_eq!(at(&result, &["port"]), Some(&n("2")));
}
