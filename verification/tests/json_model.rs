use pontifex_conformance::canonical::canonical;
use pontifex_conformance::json::{object_from_entries, object_insert, Json, JsonNumber};

fn s(text: &str) -> Json {
    Json::Str(text.to_string())
}

fn n(value: u64) -> Json {
    Json::Number(JsonNumber::PosInt(value))
}

fn members(list: Vec<(&str, Json)>) -> Vec<(String, Json)> {
    list.into_iter().map(|(k, v)| (k.to_string(), v)).collect()
}

#[test]
fn rejects_duplicate_object_keys() {
    let result = object_from_entries(members(vec![("schema_version", n(1)), ("schema_version", n(2))]));
    assert!(result.is_err(), "duplicate keys must fail closed");
}

#[test]
fn duplicate_key_message_quotes_the_key() {
    match object_from_entries(members(vec![("a", n(1)), ("b", n(2)), ("a", n(3)), ("b", n(4))])) {
        Err(message) => assert_eq!(message, "duplicate JSON object key \"a\""),
        Ok(_) => panic!("duplicate keys must fail closed"),
    }
    match object_from_entries(members(vec![("say \"hi\"", n(1)), ("say \"hi\"", n(2))])) {
        Err(message) => assert_eq!(message, r#"duplicate JSON object key "say \"hi\"""#),
        Ok(_) => panic!("duplicate keys must fail closed"),
    }
}

#[test]
fn objects_keep_keys_sorted() {
    let object = object_from_entries(members(vec![("b", n(2)), ("a", n(1)), ("B", n(0))]));
    match object {
        Ok(value) => assert_eq!(canonical(&value), r#"{"B":0,"a":1,"b":2}"#),
        Err(message) => panic!("{message}"),
    }
}

#[test]
fn insert_replaces_and_keeps_order() {
    let mut entries = Vec::new();
    object_insert(&mut entries, "m".to_string(), n(1));
    object_insert(&mut entries, "c".to_string(), n(2));
    object_insert(&mut entries, "x".to_string(), n(3));
    object_insert(&mut entries, "c".to_string(), s("again"));
    let keys = entries.iter().map(|(k, _)| k.as_str()).collect::<Vec<_>>();
    assert_eq!(keys, vec!["c", "m", "x"]);
    assert_eq!(canonical(&Json::Object(entries)), r#"{"c":"again","m":1,"x":3}"#);
}

#[test]
fn canonical_text_of_each_kind() {
    let value = object_from_entries(members(vec![
        (
            "a",
            Json::Array(vec![
                n(1),
                Json::Number(JsonNumber::NegInt(-2)),
                Json::Bool(true),
                Json::Null,
            ]),
        ),
        ("f", Json::Number(JsonNumber::Float("1.5".to_string()))),
        ("s", s("line\nquote\"tab\t\u{1}")),
    ]));
    match value {
        Ok(value) => assert_eq!(
            canonical(&value),
            r#"{"a":[1,-2,true,null],"f":1.5,"s":"line\nquote\"tab\t\u0001"}"#
        ),
        Err(message) => panic!("{message}"),
    }
    assert_eq!(canonical(&n(u64::MAX)), "18446744073709551615");
    assert_eq!(canonical(&Json::Number(JsonNumber::NegInt(i64::MIN))), "-9223372036854775808");
    assert_eq!(canonical(&n(0)), "0");
    assert_eq!(
        canonical(&s("\\ \u{8}\u{c}\r\u{1f} \u{7f}é/")),
        "\"\\\\ \\b\\f\\r\\u001f \u{7f}é/\""
    );
    assert_eq!(canonical(&Json::Array(vec![])), "[]");
    assert_eq!(canonical(&Json::Object(vec![])), "{}");
}

#[test]
fn lookups() {
    let value = object_from_entries(members(vec![
        ("name", s("x")),
        ("count", n(7)),
        ("list", Json::Array(vec![n(1)])),
        ("flag", Json::Bool(false)),
        ("neg", Json::Number(JsonNumber::NegInt(-1))),
    ]))
    .unwrap_or(Json::Null);
    assert_eq!(value.get_str("name"), Some("x"));
    assert_eq!(value.get_str("count"), None);
    assert_eq!(value.get_u64("count"), Some(7));
    assert_eq!(value.get_u64("neg"), None);
    assert_eq!(value.get_array("list").map(|l| l.len()), Some(1));
    assert_eq!(value.get("flag").and_then(|f| f.as_bool()), Some(false));
    assert!(value.get("missing").is_none());
    assert!(s("text").get("name").is_none());
}
