use std::collections::HashMap;
use ucfg::{get_field_value, Builder, Config, Result, Source};

#[derive(Debug, Clone, PartialEq)]
struct TestConfig {
    name: String,
    port: u16,
}

impl Default for TestConfig {
    fn default() -> Self {
        Self {
            name: "default".to_string(),
            port: 3000,
        }
    }
}

impl Config for TestConfig {
    fn configure_from_source(source: &dyn Source) -> Result<Self> {
        let mut config = Self::default();
        config.update_from_source(source)?;
        Ok(config)
    }

    fn update_from_source(&mut self, source: &dyn Source) -> Result<()> {
        if let Some(name) = get_field_value::<String>(source, "name")? {
            self.name = name;
        }
        if let Some(port) = get_field_value::<u16>(source, "port")? {
            self.port = port;
        }
        Ok(())
    }
}

struct MockSource {
    data: HashMap<String, String>,
}

impl MockSource {
    fn new() -> Self {
        Self { data: HashMap::new() }
    }

    fn with_field(mut self, field: &str, value: &str) -> Self {
        self.data.insert(field.to_string(), value.to_string());
        self
    }
}

impl Source for MockSource {
    fn get(&self, key: &str) -> Result<Option<String>> {
        Ok(self.data.get(key).cloned())
    }
}

#[test]
fn test_builder_empty() {
    let builder = Builder::new();
    let config: TestConfig = builder.build().unwrap();
    assert_eq!(config, TestConfig::default());
}

#[test]
fn test_builder_single_source() {
    let source = MockSource::new()
        .with_field("name", "test")
        .with_field("port", "8080");

    let config: TestConfig = Builder::new().add_source(source).build().unwrap();

    assert_eq!(config.name, "test");
    assert_eq!(config.port, 8080);
}

#[test]
fn test_builder_multiple_sources() {
    let source1 = MockSource::new()
        .with_field("name", "base")
        .with_field("port", "3000");

    let source2 = MockSource::new().with_field("port", "8080");

    let config: TestConfig = Builder::new()
        .add_source(source1)
        .add_source(source2)
        .build()
        .unwrap();

    assert_eq!(config.name, "base");
    assert_eq!(config.port, 8080);
}

#[test]
fn builder_counts_sources() {
    let builder = Builder::new();
    assert_eq!(builder.len(), 0);
    assert!(builder.is_empty());
    let builder = builder.add_source(MockSource::new());
    assert_eq!(builder.len(), 1);
    assert!(!builder.is_empty());
    let builder = builder.add_source(MockSource::new());
    assert_eq!(builder.len(), 2);
    let default_builder = Builder::default();
    assert!(default_builder.is_empty());
}

#[test]
fn builder_later_source_overrides_earlier() {
    let first = MockSource::new().with_field("name", "first").with_field("port", "1");
    let second = MockSource::new().with_field("name", "second");
    let third = MockSource::new().with_field("port", "3");
    let config: TestConfig = Builder::new()
        .add_source(first)
        .add_source(second)
        .add_source(third)
        .build()
        .unwrap();
    assert_eq!(config.name, "second");
    assert_eq!(config.port, 3);
}

#[test]
fn builder_stops_at_first_error() {
    let good = MockSource::new().with_field("port", "80");
    let bad = MockSource::new().with_field("port", "eighty");
    let result: Result<TestConfig> = Builder::new().add_source(good).add_source(bad).build();
    match result {
        Err(ucfg::Error::Parse(m)) => {
            assert_eq!(m, "Failed to parse 'eighty': invalid digit found in string")
        }
        other => panic!("unexpected {:?}", other),
    }
}

#[test]
fn builder_len_counts_every_add() {
    let mut builder = Builder::new();
    for k in 0..5 {
        assert_eq!(builder.len(), k);
        builder = builder.add_source(MockSource::new());
    }
    assert_eq!(builder.len(), 5);
}

struct CountingSource {
    asked: std::rc::Rc<std::cell::Cell<usize>>,
}

impl Source for CountingSource {
    fn get(&self, _key: &str) -> Result<Option<String>> {
        self.asked.set(self.asked.get() + 1);
        Ok(None)
    }
}

#[test]
fn builder_hands_no_source_after_an_error() {
    let asked = std::rc::Rc::new(std::cell::Cell::new(0));
    let bad = MockSource::new().with_field("port", "eighty");
    let later = CountingSource { asked: asked.clone() };
    let result: Result<TestConfig> = Builder::new().add_source(bad).add_source(later).build();
    assert!(result.is_err());
    assert_eq!(asked.get(), 0);
}

#[test]
fn builder_hands_every_source_once_in_order() {
    let asked = std::rc::Rc::new(std::cell::Cell::new(0));
    let first = MockSource::new().with_field("name", "first");
    let counted = CountingSource { asked: asked.clone() };
    let last = MockSource::new().with_field("port", "7");
    let config: TestConfig = Builder::new()
        .add_source(first)
        .add_source(counted)
        .add_source(last)
        .build()
        .unwrap();
    assert_eq!(asked.get(), 2);
    assert_eq!(config, TestConfig { name: "first".to_string(), port: 7 });
}

#[test]
fn empty_source_holds_nothing() {
    let empty = ucfg::builder::EmptySource;
    assert_eq!(empty.get("name").unwrap(), None);
    assert_eq!(empty.contains_key("name").unwrap(), false);
    assert_eq!(empty.keys().unwrap(), Vec::<String>::new());
}
