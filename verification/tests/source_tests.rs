use std::collections::HashMap;
use ucfg::json::has_distinct_keys;
use ucfg::source::presence;
use ucfg::{DeserializerSource, EnvSource, JsonValue, Result, Source};

struct MockLargeSource {
    data: HashMap<String, String>,
}

impl MockLargeSource {
    fn new() -> Self {
        let mut data = HashMap::new();
        data.insert("app.name".to_string(), "Large App".to_string());
        data.insert("app.version".to_string(), "1.0.0".to_string());
        data.insert("database.host".to_string(), "large.db.com".to_string());
        data.insert("database.port".to_string(), "5432".to_string());
        Self { data }
    }
}

impl Source for MockLargeSource {
    fn get(&self, key: &str) -> Result<Option<String>> {
        Ok(self.data.get(key).cloned())
    }

    fn keys(&self) -> Result<Vec<String>> {
        Ok(self.data.keys().cloned().collect())
    }
}

fn s(text: &str) -> String {
    text.to_string()
}

/// The document `{"name": "test", "nested": {"flag": true}, "value": 42}`,
/// with its keys in the order in which serde_json lists them.
fn test_data() -> JsonValue {
    JsonValue::Object(vec![
        (s("name"), JsonValue::Str(s("test"))),
        (s("nested"), JsonValue::Object(vec![(s("flag"), JsonValue::Bool(true))])),
        (s("value"), JsonValue::Number(s("42"))),
    ])
}

#[test]
fn test_custom_large_source() {
    let source = MockLargeSource::new();

    assert_eq!(source.get("app.name").unwrap(), Some("Large App".to_string()));
    assert_eq!(source.get("database.host").unwrap(), Some("large.db.com".to_string()));
    assert_eq!(source.get("nonexistent").unwrap(), None);

    let keys: Vec<String> = source.keys().unwrap();
    assert!(keys.contains(&"app.name".to_string()));
    assert!(keys.contains(&"database.host".to_string()));
}

#[test]
fn test_deserializer_source() {
    let source = DeserializerSource::new(test_data());

    assert_eq!(source.get("name").unwrap(), Some("test".to_string()));
    assert_eq!(source.get("value").unwrap(), Some("42".to_string()));

    assert_eq!(source.get("nested.flag").unwrap(), Some("true".to_string()));

    assert_eq!(source.get("nonexistent").unwrap(), None);
    assert_eq!(source.get("nested.nonexistent").unwrap(), None);

    let keys: Vec<String> = source.keys().unwrap();
    assert!(keys.contains(&"name".to_string()));
    assert!(keys.contains(&"value".to_string()));
    assert!(keys.contains(&"nested".to_string()));
    assert!(keys.contains(&"nested.flag".to_string()));
}

#[test]
fn default_contains_key_follows_get() {
    let source = MockLargeSource::new();
    assert!(source.contains_key("app.version").unwrap());
    assert!(!source.contains_key("app.missing").unwrap());
}

#[test]
fn deserializer_source_reports_values_as_text() {
    let data = JsonValue::Object(vec![
        (s("nothing"), JsonValue::Null),
        (s("off"), JsonValue::Bool(false)),
        (s("ratio"), JsonValue::Number(s("0.5"))),
        (
            s("list"),
            JsonValue::Array(vec![
                JsonValue::Number(s("1")),
                JsonValue::Str(s("two")),
                JsonValue::Array(vec![]),
            ]),
        ),
        (
            s("db"),
            JsonValue::Object(vec![
                (s("host"), JsonValue::Str(s("local\"host"))),
                (s("port"), JsonValue::Number(s("5432"))),
            ]),
        ),
        (s("empty"), JsonValue::Object(vec![])),
    ]);
    let source = DeserializerSource::new(data);
    assert_eq!(source.get("nothing").unwrap(), Some(s("null")));
    assert_eq!(source.get("off").unwrap(), Some(s("false")));
    assert_eq!(source.get("ratio").unwrap(), Some(s("0.5")));
    assert_eq!(source.get("list").unwrap(), Some(s("[1,\"two\",[]]")));
    assert_eq!(source.get("db").unwrap(), Some(s("{\"host\":\"local\\\"host\",\"port\":5432}")));
    assert_eq!(source.get("db.host").unwrap(), Some(s("local\"host")));
    assert_eq!(source.get("empty").unwrap(), Some(s("{}")));
    assert_eq!(source.get("list.1").unwrap(), None);
    assert_eq!(source.get("db.port.x").unwrap(), None);
    assert_eq!(source.get("").unwrap(), None);
    assert!(source.contains_key("db.port").unwrap());
    assert!(!source.contains_key("db.user").unwrap());
}

#[test]
fn deserializer_source_lists_keys_in_order() {
    let source = DeserializerSource::new(test_data());
    let keys = source.keys().unwrap();
    assert_eq!(
        keys,
        vec![s("name"), s("name"), s("nested"), s("nested.flag"), s("nested.flag"), s("value"), s("value")]
    );
    let scalar = DeserializerSource::new(JsonValue::Bool(true));
    assert_eq!(scalar.keys().unwrap(), Vec::<String>::new());
}

#[test]
fn every_listed_key_is_found() {
    let source = DeserializerSource::new(test_data());
    for key in source.keys().unwrap() {
        assert!(source.get(&key).unwrap().is_some(), "{}", key);
    }
}

#[test]
fn env_source_settings() {
    let source = EnvSource::with_prefix("APP");
    assert_eq!(source.nested_key_to_env_key("database.host"), "APP_database__host");
    assert_eq!(source.nested_key_to_env_key("DB.HOST"), "APP_DB__HOST");
    assert_eq!(source.nested_key_to_env_key("KEY"), "APP_KEY");
    let plain = EnvSource::new();
    assert_eq!(plain.nested_key_to_env_key("SIMPLE_KEY"), "SIMPLE_KEY");
    assert_eq!(plain.nested_key_to_env_key("a.b.c"), "a__b__c");
    let dashed = EnvSource::with_prefix("MYAPP").separator("-");
    assert_eq!(dashed.nested_key_to_env_key("server.port"), "MYAPP_server-port");
    let default = EnvSource::default();
    assert_eq!(default.nested_key_to_env_key("x.y"), "x__y");
}

#[test]
fn env_source_reads_names_back() {
    let source = EnvSource::with_prefix("APP");
    assert_eq!(source.env_key_to_nested_key("APP_DB__HOST"), Some(s("DB.HOST")));
    assert_eq!(source.env_key_to_nested_key("APP_database__host"), Some(s("database.host")));
    assert_eq!(source.env_key_to_nested_key("APPX_DB"), None);
    assert_eq!(source.env_key_to_nested_key("APP"), None);
    assert_eq!(source.env_key_to_nested_key("APP_"), Some(s("")));
    assert_eq!(source.env_key_to_nested_key("APP_a___b"), Some(s("a._b")));
    let names = vec![s("APP_DB__HOST"), s("PATH"), s("APP_DB__PORT"), s("HOME")];
    assert_eq!(source.nested_keys(&names), vec![s("DB.HOST"), s("DB.PORT")]);
    let plain = EnvSource::new();
    assert_eq!(plain.nested_keys(&names), vec![s("APP_DB.HOST"), s("PATH"), s("APP_DB.PORT"), s("HOME")]);
    let empty_sep = EnvSource::new().separator("");
    assert_eq!(empty_sep.env_key_to_nested_key("ab"), Some(s(".a.b.")));
}

#[test]
fn env_key_round_trip() {
    let source = EnvSource::with_prefix("APP");
    for key in ["database.host", "server.port", "name", "a.b.c"] {
        let env = source.nested_key_to_env_key(key);
        assert_eq!(source.env_key_to_nested_key(&env), Some(key.to_string()));
    }
    for env in ["APP_database__host", "APP_x", "APP_a___b"] {
        let nested = source.env_key_to_nested_key(env).unwrap();
        assert_eq!(source.nested_key_to_env_key(&nested), env);
    }
}

#[test]
fn presence_of_an_answer() {
    assert_eq!(presence(Ok(Some(s("v")))).unwrap(), true);
    assert_eq!(presence(Ok(None)).unwrap(), false);
    match presence(Err(ucfg::Error::Source(s("down")))) {
        Err(ucfg::Error::Source(m)) => assert_eq!(m, "down"),
        other => panic!("unexpected {:?}", other),
    }
}

struct Bare;

impl Source for Bare {
    fn get(&self, _key: &str) -> Result<Option<String>> {
        Ok(None)
    }
}

#[test]
fn default_keys_are_empty() {
    assert!(Bare.keys().unwrap().is_empty());
    assert!(!Bare.contains_key("x").unwrap());
}

#[test]
fn prefixed_source_lists_only_prefixed_names() {
    let source = EnvSource::with_prefix("APP");
    let names = vec![s("APP_A"), s("APPLE"), s("XAPP_B"), s("APP_C__D"), s("app_e")];
    let keys = source.nested_keys(&names);
    assert_eq!(keys, vec![s("A"), s("C.D")]);
}

#[test]
fn distinct_member_names_are_checked() {
    assert!(has_distinct_keys(&test_data()));
    let twice = JsonValue::Object(vec![(s("a"), JsonValue::Null), (s("a"), JsonValue::Bool(true))]);
    assert!(!has_distinct_keys(&twice));
    let nested = JsonValue::Object(vec![(s("outer"), twice)]);
    assert!(!has_distinct_keys(&nested));
    let in_array = JsonValue::Array(vec![
        JsonValue::Null,
        JsonValue::Object(vec![(s("b"), JsonValue::Null), (s("b"), JsonValue::Null)]),
    ]);
    assert!(!has_distinct_keys(&in_array));
    assert!(has_distinct_keys(&JsonValue::Array(vec![JsonValue::Number(s("1"))])));
}

#[test]
fn listed_keys_are_read_under_listed_names() {
    let names = vec![s("APP_database__host"), s("PATH"), s("APP_a___b"), s("APP_port")];
    for source in [EnvSource::with_prefix("APP"), EnvSource::new()] {
        for key in source.nested_keys(&names) {
            assert!(names.contains(&source.nested_key_to_env_key(&key)), "{}", key);
        }
    }
}
