use gifnoc::{Configurable, UpdateError, Value};

struct DbConfig {
    host: String,
    port: u32,
}

struct AppConfig {
    name: String,
    debug: bool,
    db: DbConfig,
}

impl Default for DbConfig {
    fn default() -> Self {
        DbConfig { host: "localhost".into(), port: 5432u32 }
    }
}

impl Default for AppConfig {
    fn default() -> Self {
        AppConfig { name: "app".into(), debug: false, db: DbConfig::default() }
    }
}

fn s(text: &str) -> Value {
    Value::String(text.to_string())
}

fn n(text: &str) -> Value {
    Value::Number(text.to_string())
}

fn obj(members: Vec<(&str, Value)>) -> Value {
    Value::Object(members.into_iter().map(|(k, v)| (k.to_string(), v)).collect())
}

fn take(members: &mut Vec<(String, Value)>, key: &str) -> Result<Value, String> {
    match members.iter().position(|(k, _)| k == key) {
        Some(i) => Ok(members.remove(i).1),
        None => Err(format!("missing field `{}`", key)),
    }
}

fn string_of(v: Value) -> Result<String, String> {
    match v {
        Value::String(s) => Ok(s),
        _ => Err("expected a string".to_string()),
    }
}

fn bool_of(v: Value) -> Result<bool, String> {
    match v {
        Value::Bool(b) => Ok(b),
        _ => Err("expected a boolean".to_string()),
    }
}

fn u32_of(v: Value) -> Result<u32, String> {
    match v {
        Value::Number(t) => t.parse().map_err(|_| "expected u32".to_string()),
        _ => Err("expected u32".to_string()),
    }
}

impl Configurable for DbConfig {
    fn to_value(&self) -> Value {
        obj(vec![("host", s(&self.host)), ("port", n(&self.port.to_string()))])
    }

    fn from_value(value: Value) -> Result<Self, String> {
        match value {
            Value::Object(mut m) => Ok(DbConfig {
                host: string_of(take(&mut m, "host")?)?,
                port: u32_of(take(&mut m, "port")?)?,
            }),
            _ => Err("expected an object".to_string()),
        }
    }
}

impl Configurable for AppConfig {
    fn to_value(&self) -> Value {
        obj(vec![
            ("name", s(&self.name)),
            ("debug", Value::Bool(self.debug)),
            ("db", self.db.to_value()),
        ])
    }

    fn from_value(value: Value) -> Result<Self, String> {
        match value {
            Value::Object(mut m) => Ok(AppConfig {
                name: string_of(take(&mut m, "name")?)?,
                debug: bool_of(take(&mut m, "debug")?)?,
                db: DbConfig::from_value(take(&mut m, "db")?)?,
            }),
            _ => Err("expected an object".to_string()),
        }
    }
}

/// `update`, failing as the configuration structs of the `config!` macro do.
fn updated(config: &AppConfig, json: Value) -> AppConfig {
    match config.update(json) {
        Ok(c) => c,
        Err(UpdateError::UnknownKey(key)) => panic!("unknown config key: '{}'", key),
        Err(UpdateError::Invalid(reason)) => panic!("{}", reason),
    }
}

#[test]
fn defaults_are_correct() {
    let config = AppConfig::default();
    assert_eq!(config.name, "app");
    assert!(!config.debug);
    assert_eq!(config.db.host, "localhost");
    assert_eq!(config.db.port, 5432);
}

#[test]
fn empty_update_is_noop() {
    let config = updated(&AppConfig::default(), obj(vec![]));
    assert_eq!(config.name, "app");
    assert_eq!(config.db.host, "localhost");
    assert_eq!(config.db.port, 5432);
}

#[test]
fn top_level_field_override() {
    let config = updated(&AppConfig::default(), obj(vec![("name", s("myapp"))]));
    assert_eq!(config.name, "myapp");
    assert!(!config.debug); // unchanged
    assert_eq!(config.db.host, "localhost"); // unchanged
}

#[test]
fn nested_override_preserves_siblings() {
    let config =
        updated(&AppConfig::default(), obj(vec![("db", obj(vec![("host", s("remotehost"))]))]));
    assert_eq!(config.db.host, "remotehost");
    assert_eq!(config.db.port, 5432); // sibling within db preserved
    assert_eq!(config.name, "app"); // sibling at top level preserved
}

#[test]
fn layered_updates_later_wins() {
    let first = updated(&AppConfig::default(), obj(vec![("name", s("first"))]));
    let config = updated(&first, obj(vec![("name", s("second"))]));
    assert_eq!(config.name, "second");
}

#[test]
fn layered_updates_merge_different_keys() {
    let first = updated(&AppConfig::default(), obj(vec![("name", s("myapp"))]));
    let config = updated(&first, obj(vec![("debug", Value::Bool(true))]));
    assert_eq!(config.name, "myapp"); // survives second update
    assert!(config.debug);
}

#[test]
fn nested_override_across_layers() {
    let first = updated(
        &AppConfig::default(),
        obj(vec![("db", obj(vec![("host", s("host1")), ("port", n("6000"))]))]),
    );
    let config = updated(&first, obj(vec![("db", obj(vec![("host", s("host2"))]))]));
    assert_eq!(config.db.host, "host2"); // overridden
    assert_eq!(config.db.port, 6000); // survives second update
}

#[test]
fn dotted_key_override_preserves_siblings() {
    let config = updated(&AppConfig::default(), obj(vec![("db.host", s("remotehost"))]));
    assert_eq!(config.db.host, "remotehost");
    assert_eq!(config.db.port, 5432); // sibling within db preserved
    assert_eq!(config.name, "app"); // sibling at top level preserved
}

#[test]
fn dotted_and_nested_styles_compose() {
    let config = updated(
        &AppConfig::default(),
        obj(vec![("db.host", s("remotehost")), ("db", obj(vec![("port", n("9999"))]))]),
    );
    assert_eq!(config.db.host, "remotehost");
    assert_eq!(config.db.port, 9999);
}

#[test]
#[should_panic(expected = "unknown config key: 'prot'")]
fn unknown_top_level_key_panics() {
    updated(&AppConfig::default(), obj(vec![("prot", n("9000"))]));
}

#[test]
#[should_panic(expected = "unknown config key: 'db.prot'")]
fn unknown_nested_key_panics() {
    updated(&AppConfig::default(), obj(vec![("db", obj(vec![("prot", n("9000"))]))]));
}

#[test]
#[should_panic(expected = "unknown config key: 'db.prot'")]
fn unknown_dotted_key_panics() {
    updated(&AppConfig::default(), obj(vec![("db.prot", n("9000"))]));
}

#[test]
fn unknown_key_reported_by_merge() {
    let result = gifnoc::merge(AppConfig::default().to_value(), obj(vec![("db.prot", n("1"))]));
    assert_eq!(result, Err(UpdateError::UnknownKey("db.prot".to_string())));
}

#[test]
fn merge_keeps_shape() {
    let merged =
        gifnoc::merge(AppConfig::default().to_value(), obj(vec![("db.port", n("1"))])).unwrap();
    assert_eq!(
        merged,
        obj(vec![
            ("name", s("app")),
            ("debug", Value::Bool(false)),
            ("db", obj(vec![("host", s("localhost")), ("port", n("1"))])),
        ])
    );
}

#[test]
fn mistyped_value_is_invalid() {
    let result = AppConfig::default().update(obj(vec![("db.port", s("abc"))]));
    assert!(matches!(result, Err(UpdateError::Invalid(_))));
}
