use gifnoc::args::{parse_from, ArgsError};
use gifnoc::Value;

fn args(a: &[&str]) -> Vec<String> {
    a.iter().map(|s| s.to_string()).collect()
}

fn at<'a>(value: &'a Value, keys: &[&str]) -> Option<&'a Value> {
    let mut current = value;
    for key in keys {
        match current {
            Value::Object(members) => {
                current = &members.iter().find(|(k, _)| k == key)?.1;
            }
            _ => return None,
        }
    }
    Some(current)
}

fn s(text: &str) -> Value {
    Value::String(text.to_string())
}

fn n(text: &str) -> Value {
    Value::Number(text.to_string())
}

fn empty() -> Value {
    Value::Object(Vec::new())
}

#[test]
fn empty_args() {
    let (positionals, flags) = parse_from(args(&[])).unwrap();
    assert!(positionals.is_empty());
    assert_eq!(flags, empty());
}

#[test]
fn only_positionals() {
    let (positionals, flags) = parse_from(args(&["step1", "step2"])).unwrap();
    assert_eq!(positionals, vec!["step1", "step2"]);
    assert_eq!(flags, empty());
}

#[test]
fn flag_equals_form() {
    let (_, flags) = parse_from(args(&["--host=localhost"])).unwrap();
    assert_eq!(at(&flags, &["host"]), Some(&s("localhost")));
}

#[test]
fn flag_space_form() {
    let (_, flags) = parse_from(args(&["--host", "localhost"])).unwrap();
    assert_eq!(at(&flags, &["host"]), Some(&s("localhost")));
}

#[test]
fn positionals_and_flags() {
    let (positionals, flags) = parse_from(args(&["run", "--port", "8080"])).unwrap();
    assert_eq!(positionals, vec!["run"]);
    assert_eq!(at(&flags, &["port"]), Some(&n("8080")));
}

#[test]
fn nested_key() {
    let (_, flags) = parse_from(args(&["--server.port", "9000"])).unwrap();
    assert_eq!(at(&flags, &["server", "port"]), Some(&n("9000")));
}

#[test]
fn args_json_bool_parsed() {
    let (_, flags) = parse_from(args(&["--debug", "true"])).unwrap();
    assert_eq!(at(&flags, &["debug"]), Some(&Value::Bool(true)));
}

#[test]
fn args_non_json_kept_as_string() {
    let (_, flags) = parse_from(args(&["--name", "my app"])).unwrap();
    assert_eq!(at(&flags, &["name"]), Some(&s("my app")));
}

#[test]
fn multiple_flags() {
    let (_, flags) = parse_from(args(&["--host", "localhost", "--port=9000"])).unwrap();
    assert_eq!(at(&flags, &["host"]), Some(&s("localhost")));
    assert_eq!(at(&flags, &["port"]), Some(&n("9000")));
}

#[test]
fn short_flag_refused() {
    assert_eq!(
        parse_from(args(&["run", "-x"])),
        Err(ArgsError::ShortFlag("-x".to_string()))
    );
}

#[test]
fn flag_without_value_refused() {
    assert_eq!(
        parse_from(args(&["--debug"])),
        Err(ArgsError::MissingValue("debug".to_string()))
    );
    assert_eq!(
        parse_from(args(&["--offset", "-5"])),
        Err(ArgsError::MissingValue("offset".to_string()))
    );
}

#[test]
fn positional_after_flags_refused() {
    assert_eq!(
        parse_from(args(&["--host", "h", "extra"])),
        Err(ArgsError::PositionalAfterFlags("extra".to_string()))
    );
}

#[test]
fn equals_value_may_start_with_dash() {
    let (_, flags) = parse_from(args(&["--offset=-5"])).unwrap();
    assert_eq!(at(&flags, &["offset"]), Some(&n("-5")));
}

#[test]
fn value_may_hold_equals_sign() {
    let (_, flags) = parse_from(args(&["--query=a=b"])).unwrap();
    assert_eq!(at(&flags, &["query"]), Some(&s("a=b")));
}

#[test]
fn later_flag_wins() {
    let (_, flags) = parse_from(args(&["--port", "1", "--port", "2"])).unwrap();
    assert_eq!(at(&flags, &["port"]), Some(&n("2")));
}

#[test]
fn json_structures_parsed() {
    let (_, flags) =
        parse_from(args(&["--tags", "[\"a\", 1, null]", "--db", "{\"port\": 1, \"host\": \"h\"}", "--name", "\"quoted\""]))
            .unwrap();
    assert_eq!(
        at(&flags, &["tags"]),
        Some(&Value::Array(vec![s("a"), n("1"), Value::Null]))
    );
    assert_eq!(
        at(&flags, &["db"]),
        Some(&Value::Object(vec![
            ("host".to_string(), s("h")),
            ("port".to_string(), n("1")),
        ]))
    );
    assert_eq!(at(&flags, &["name"]), Some(&s("quoted")));
}
