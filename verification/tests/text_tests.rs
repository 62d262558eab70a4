use ucfg::json::{collect_json_keys, compact_chars, query_key, value_text};
use ucfg::text::{
    chars_equal, from_chars, matches_at, replace_char_exec, replace_str_exec, split_char_exec,
    starts_with, to_chars,
};
use ucfg::JsonValue;

fn c(s: &str) -> Vec<char> {
    s.chars().collect()
}

#[test]
fn splitting_on_dots() {
    assert_eq!(split_char_exec(&c("a.b.c"), '.'), vec!["a", "b", "c"]);
    assert_eq!(split_char_exec(&c(""), '.'), vec![""]);
    assert_eq!(split_char_exec(&c(".a."), '.'), vec!["", "a", ""]);
    assert_eq!(split_char_exec(&c("plain"), '.'), vec!["plain"]);
}

#[test]
fn replacing() {
    assert_eq!(replace_char_exec(&c("a.b"), '.', &c("__")), c("a__b"));
    assert_eq!(replace_str_exec(&c("a__b__c"), &c("__"), &c(".")), c("a.b.c"));
    assert_eq!(replace_str_exec(&c("a___b"), &c("__"), &c(".")), c("a._b"));
    assert_eq!(replace_str_exec(&c("abc"), &c(""), &c("x")), c("xaxbxcx"));
    assert_eq!(replace_str_exec(&c(""), &c(""), &c("x")), c("x"));
    for (s, p, r) in [("a__b", "__", "."), ("____", "__", "-"), ("abab", "ab", ""), ("x", "xy", "z")] {
        assert_eq!(replace_str_exec(&c(s), &c(p), &c(r)), c(&s.replace(p, r)));
    }
}

#[test]
fn prefixes_and_equality() {
    assert!(starts_with(&c("APP_X"), &c("APP_")));
    assert!(!starts_with(&c("AP"), &c("APP_")));
    assert!(matches_at(&c("a__b"), &c("__"), 1));
    assert!(!matches_at(&c("a__b"), &c("__"), 3));
    assert!(chars_equal(&c("abc"), &c("abc")));
    assert!(!chars_equal(&c("abc"), &c("abd")));
    assert_eq!(from_chars(&to_chars("héllo")), "héllo");
}

#[test]
fn json_text_and_queries() {
    let doc = JsonValue::Object(vec![(
        "a".to_string(),
        JsonValue::Object(vec![("b".to_string(), JsonValue::Str("tab\there".to_string()))]),
    )]);
    let text: String = compact_chars(&doc).unwrap().into_iter().collect();
    assert_eq!(text, "{\"a\":{\"b\":\"tab\\there\"}}");
    assert!(query_key(&doc, "a.b").is_some());
    assert!(query_key(&doc, "a.c").is_none());
    assert_eq!(value_text(query_key(&doc, "a.b").unwrap()).unwrap(), "tab\there");
    assert_eq!(collect_json_keys(&doc, "root".to_string()), vec!["root.a", "root.a.b", "root.a.b"]);
}

#[test]
fn json_string_escapes() {
    let text: String = compact_chars(&JsonValue::Str("a\"b\\c\u{1}\u{8}\u{c}\n\r\t\u{7f}é".to_string()))
        .unwrap()
        .into_iter()
        .collect();
    assert_eq!(text, "\"a\\\"b\\\\c\\u0001\\b\\f\\n\\r\\t\u{7f}é\"");
}
