use gifnoc::nesting::{flatten, nest, FlatMap};
use gifnoc::Value;

fn s(text: &str) -> Value {
    Value::String(text.to_string())
}

fn n(text: &str) -> Value {
    Value::Number(text.to_string())
}

fn obj(members: Vec<(&str, Value)>) -> Value {
    Value::Object(members.into_iter().map(|(k, v)| (k.to_string(), v)).collect())
}

fn flat(pairs: Vec<(&str, Value)>) -> FlatMap {
    let mut map = FlatMap::new();
    for (k, v) in pairs {
        map.insert(k.to_string(), v);
    }
    map
}

/// The value reached from `value` through the members named by `keys`.
fn at<'a>(value: &'a Value, keys: &[&str]) -> Option<&'a Value> {
    let mut current = value;
    for key in keys {
        match current {
            Value::Object(members) => {
                current = &members.iter().find(|(k, _)| k == key)?.1;
            }
            _ => return None,
        }
    }
    Some(current)
}

#[test]
fn flatten_empty_object() {
    assert!(flatten(obj(vec![])).is_empty());
}

#[test]
fn flatten_non_object_returns_empty() {
    assert!(flatten(s("string")).is_empty());
    assert!(flatten(n("42")).is_empty());
    assert!(flatten(Value::Null).is_empty());
}

#[test]
fn flatten_flat_object() {
    let result = flatten(obj(vec![("a", n("1")), ("b", s("two"))]));
    assert_eq!(result.get("a"), Some(&n("1")));
    assert_eq!(result.get("b"), Some(&s("two")));
    assert_eq!(result.len(), 2);
}

#[test]
fn flatten_nested_object() {
    let result = flatten(obj(vec![("a", obj(vec![("b", n("1"))]))]));
    assert_eq!(result.get("a.b"), Some(&n("1")));
    assert_eq!(result.len(), 1);
}

#[test]
fn flatten_deeply_nested() {
    let result = flatten(obj(vec![("a", obj(vec![("b", obj(vec![("c", Value::Bool(true))]))]))]));
    assert_eq!(result.get("a.b.c"), Some(&Value::Bool(true)));
    assert_eq!(result.len(), 1);
}

#[test]
fn flatten_mixed() {
    let result = flatten(obj(vec![("x", n("1")), ("y", obj(vec![("z", n("2"))]))]));
    assert_eq!(result.get("x"), Some(&n("1")));
    assert_eq!(result.get("y.z"), Some(&n("2")));
    assert_eq!(result.len(), 2);
}

#[test]
fn nest_empty_map() {
    assert_eq!(nest(FlatMap::new()), obj(vec![]));
}

#[test]
fn nest_flat_keys() {
    let map = flat(vec![("a", n("1")), ("b", s("two"))]);
    let result = nest(map);
    assert_eq!(at(&result, &["a"]), Some(&n("1")));
    assert_eq!(at(&result, &["b"]), Some(&s("two")));
}

#[test]
fn nest_dotted_key() {
    let map = flat(vec![("a.b", n("1"))]);
    let result = nest(map);
    assert_eq!(at(&result, &["a", "b"]), Some(&n("1")));
}

#[test]
fn nest_deeply_dotted_key() {
    let map = flat(vec![("a.b.c", Value::Bool(true))]);
    let result = nest(map);
    assert_eq!(at(&result, &["a", "b", "c"]), Some(&Value::Bool(true)));
}

#[test]
fn nest_shared_prefix() {
    let map = flat(vec![("a.b", n("1")), ("a.c", n("2"))]);
    let result = nest(map);
    assert_eq!(at(&result, &["a", "b"]), Some(&n("1")));
    assert_eq!(at(&result, &["a", "c"]), Some(&n("2")));
}

fn sample_document() -> Value {
    obj(vec![
        ("debug", Value::Bool(false)),
        ("server", obj(vec![("host", s("localhost")), ("port", n("8080"))])),
    ])
}

#[test]
fn roundtrip() {
    let expected = sample_document();
    assert_eq!(nest(flatten(sample_document())), expected);
}

#[test]
fn nest_later_path_through_leaf_replaces_it() {
    let map = flat(vec![("a", n("1")), ("a.b", n("2"))]);
    assert_eq!(nest(map), obj(vec![("a", obj(vec![("b", n("2"))]))]));
}

#[test]
fn nest_later_leaf_replaces_object() {
    let map = flat(vec![("a.b", n("2")), ("a", n("1"))]);
    assert_eq!(nest(map), obj(vec![("a", n("1"))]));
}

#[test]
fn flatten_empty_prefix_key_adds_no_dot() {
    let result = flatten(obj(vec![("", obj(vec![("a", n("1"))]))]));
    assert_eq!(result.get("a"), Some(&n("1")));
    assert_eq!(result.len(), 1);
}

#[test]
fn flat_map_insert_replaces() {
    let mut map = FlatMap::new();
    map.insert("a".to_string(), n("1"));
    map.insert("a".to_string(), n("2"));
    assert_eq!(map.len(), 1);
    assert_eq!(map.get("a"), Some(&n("2")));
    assert_eq!(map.get("b"), None);
}

#[test]
fn flatten_after_nest_gives_pairs_back() {
    let pairs = || {
        vec![
            ("db.host", s("remote")),
            ("name", s("app")),
            ("db.port", n("5432")),
            ("a.b.c", Value::Bool(true)),
        ]
    };
    let back = flatten(nest(flat(pairs())));
    assert_eq!(back.len(), pairs().len());
    for (k, v) in pairs() {
        assert_eq!(back.get(k), Some(&v));
    }
}

#[test]
fn flat_map_keeps_one_entry_per_path() {
    let mut map = FlatMap::new();
    map.insert("a.b".to_string(), n("1"));
    map.insert("c".to_string(), n("2"));
    map.insert("a.b".to_string(), n("3"));
    assert_eq!(map.len(), 2);
    assert_eq!(map.get("a.b"), Some(&n("3")));
    let entries = map.into_entries();
    assert_eq!(entries.len(), 2);
    assert_eq!(entries[0].0, "a.b");
}
