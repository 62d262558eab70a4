use std::collections::HashMap;
use ucfg::config::{parse_integer, parse_lookup, IntErrorKind};
use ucfg::{get_field_value, parse_field_value, Config, Error, FieldValue, Result, Source};

#[derive(Debug, Clone, PartialEq)]
struct SimpleConfig {
    name: String,
    port: u16,
    enabled: bool,
}

impl Default for SimpleConfig {
    fn default() -> Self {
        Self {
            name: "default".to_string(),
            port: 3000,
            enabled: false,
        }
    }
}

impl Config for SimpleConfig {
    fn configure_from_source(source: &dyn Source) -> Result<Self> {
        let mut config = Self::default();
        config.update_from_source(source)?;
        Ok(config)
    }

    fn update_from_source(&mut self, source: &dyn Source) -> Result<()> {
        if let Some(name) = get_field_value::<String>(source, "name")? {
            self.name = name;
        }
        if let Some(port) = get_field_value::<u16>(source, "port")? {
            self.port = port;
        }
        if let Some(enabled) = get_field_value::<bool>(source, "enabled")? {
            self.enabled = enabled;
        }
        Ok(())
    }
}

struct MockSource {
    data: HashMap<String, String>,
}

impl MockSource {
    fn new() -> Self {
        Self { data: HashMap::new() }
    }

    fn with_field(mut self, field: &str, value: &str) -> Self {
        self.data.insert(field.to_string(), value.to_string());
        self
    }
}

impl Source for MockSource {
    fn get(&self, key: &str) -> Result<Option<String>> {
        Ok(self.data.get(key).cloned())
    }
}

#[test]
fn test_config_from_source() {
    let source = MockSource::new()
        .with_field("name", "test")
        .with_field("port", "8080")
        .with_field("enabled", "true");

    let config = SimpleConfig::configure_from_source(&source).unwrap();

    assert_eq!(config.name, "test");
    assert_eq!(config.port, 8080);
    assert_eq!(config.enabled, true);
}

#[test]
fn test_config_partial_override() {
    let source = MockSource::new().with_field("port", "9000");

    let config = SimpleConfig::configure_from_source(&source).unwrap();

    assert_eq!(config.name, "default");
    assert_eq!(config.port, 9000);
    assert_eq!(config.enabled, false);
}

#[test]
fn test_parse_field_value() {
    let result: i32 = parse_field_value("42").unwrap();
    assert_eq!(result, 42);

    let result: bool = parse_field_value("true").unwrap();
    assert_eq!(result, true);

    let result: std::result::Result<i32, _> = parse_field_value("not_a_number");
    assert!(result.is_err());
}

#[test]
fn parse_error_quotes_text_and_reason() {
    let result: Result<i32> = parse_field_value("not_a_number");
    match result {
        Err(Error::Parse(m)) => assert_eq!(m, "Failed to parse 'not_a_number': invalid digit found in string"),
        other => panic!("unexpected {:?}", other),
    }
    let result: Result<bool> = parse_field_value("yes");
    match result {
        Err(Error::Parse(m)) => {
            assert_eq!(m, "Failed to parse 'yes': provided string was not `true` or `false`")
        }
        other => panic!("unexpected {:?}", other),
    }
}

#[test]
fn parse_integer_edges() {
    assert_eq!(parse_field_value::<u8>("255").unwrap(), 255);
    assert_eq!(parse_field_value::<i8>("-128").unwrap(), -128);
    assert_eq!(parse_field_value::<i64>("+17").unwrap(), 17);
    assert_eq!(parse_field_value::<u64>("18446744073709551615").unwrap(), u64::MAX);
    assert_eq!(parse_field_value::<i64>("-9223372036854775808").unwrap(), i64::MIN);
    assert_eq!(parse_field_value::<usize>("0").unwrap(), 0);
    assert_eq!(parse_field_value::<isize>("-5").unwrap(), -5);
    assert_eq!(parse_field_value::<u32>("007").unwrap(), 7);
    assert_eq!(parse_field_value::<i16>("-32768").unwrap(), -32768);
    assert_eq!(u8::parse_field("256"), Err("number too large to fit in target type".to_string()));
    assert_eq!(i8::parse_field("-129"), Err("number too small to fit in target type".to_string()));
    assert_eq!(i32::parse_field(""), Err("cannot parse integer from empty string".to_string()));
    assert_eq!(i32::parse_field("-"), Err("invalid digit found in string".to_string()));
    assert_eq!(i32::parse_field("+"), Err("invalid digit found in string".to_string()));
    assert_eq!(u16::parse_field("-5"), Err("invalid digit found in string".to_string()));
    assert_eq!(i32::parse_field(" 5"), Err("invalid digit found in string".to_string()));
    assert_eq!(i32::parse_field("5 "), Err("invalid digit found in string".to_string()));
    assert_eq!(i32::parse_field("1_000"), Err("invalid digit found in string".to_string()));
    // Scanning stops at the first problem: here the overflow comes first.
    assert_eq!(u8::parse_field("999x"), Err("number too large to fit in target type".to_string()));
    assert_eq!(u8::parse_field("9x99"), Err("invalid digit found in string".to_string()));
}

#[test]
fn integer_parsing_agrees_with_std() {
    let samples = [
        "0", "1", "-1", "+1", "127", "128", "-128", "-129", "255", "256", "65535", "65536",
        "2147483647", "2147483648", "-2147483648", "-2147483649", "", "-", "+", "abc", "12a", "--1",
        "+-1", "4294967295", "4294967296", "٣",
    ];
    for s in samples.iter() {
        assert_eq!(i8::parse_field(s).ok(), s.parse::<i8>().ok(), "i8 {}", s);
        assert_eq!(u8::parse_field(s).ok(), s.parse::<u8>().ok(), "u8 {}", s);
        assert_eq!(i32::parse_field(s).ok(), s.parse::<i32>().ok(), "i32 {}", s);
        assert_eq!(u32::parse_field(s).ok(), s.parse::<u32>().ok(), "u32 {}", s);
        if let Err(e) = s.parse::<i32>() {
            assert_eq!(i32::parse_field(s), Err(e.to_string()), "i32 message {}", s);
        }
        if let Err(e) = s.parse::<u8>() {
            assert_eq!(u8::parse_field(s), Err(e.to_string()), "u8 message {}", s);
        }
    }
    assert_eq!(bool::parse_field("maybe"), Err("maybe".parse::<bool>().unwrap_err().to_string()));
}

#[test]
fn parse_integer_kinds() {
    assert_eq!(parse_integer("12", -128, 127), Ok(12));
    assert_eq!(parse_integer("", -128, 127), Err(IntErrorKind::Empty));
    assert_eq!(parse_integer("x", -128, 127), Err(IntErrorKind::InvalidDigit));
    assert_eq!(parse_integer("128", -128, 127), Err(IntErrorKind::PosOverflow));
    assert_eq!(parse_integer("-129", -128, 127), Err(IntErrorKind::NegOverflow));
    assert_eq!(parse_integer("-1", 0, 255), Err(IntErrorKind::InvalidDigit));
}

#[test]
fn string_and_bool_fields() {
    assert_eq!(String::parse_field("any text"), Ok("any text".to_string()));
    assert_eq!(String::parse_field(""), Ok(String::new()));
    assert_eq!(bool::parse_field("false"), Ok(false));
    assert_eq!(bool::parse_field("True"), Err("provided string was not `true` or `false`".to_string()));
}

#[test]
fn parse_lookup_cases() {
    let found: Result<Option<u16>> = parse_lookup(Ok(Some("8080".to_string())));
    assert_eq!(found.unwrap(), Some(8080));
    let missing: Result<Option<u16>> = parse_lookup(Ok(None));
    assert_eq!(missing.unwrap(), None);
    let failed: Result<Option<u16>> = parse_lookup(Err(Error::Source("down".to_string())));
    match failed {
        Err(Error::Source(m)) => assert_eq!(m, "down"),
        other => panic!("unexpected {:?}", other),
    }
    let refused: Result<Option<u16>> = parse_lookup(Ok(Some("70000".to_string())));
    match refused {
        Err(Error::Parse(m)) => {
            assert_eq!(m, "Failed to parse '70000': number too large to fit in target type")
        }
        other => panic!("unexpected {:?}", other),
    }
}

#[test]
fn error_messages() {
    assert_eq!(Error::Source("x".to_string()).message(), "Source error: x");
    assert_eq!(Error::Deserialize("y".to_string()).message(), "Deserialization error: y");
    assert_eq!(Error::Merge("z".to_string()).message(), "Merge error: z");
    assert_eq!(Error::Parse("w".to_string()).message(), "Parse error: w");
}
