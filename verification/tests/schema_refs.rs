use pontifex_conformance::fixtures::{fixture_definition, generated_file_for_fixture, semantic_kind};
use pontifex_conformance::json::{object_from_entries, Json};
use pontifex_conformance::refs::{definition, ref_parts, resolve_ref};
use pontifex_conformance::canonical::canonical;

fn s(text: &str) -> Json {
    Json::Str(text.to_string())
}

fn obj(members: Vec<(&str, Json)>) -> Json {
    object_from_entries(members.into_iter().map(|(k, v)| (k.to_string(), v)).collect())
        .unwrap_or(Json::Null)
}

fn typed(name: &str) -> Json {
    obj(vec![("type", s(name))])
}

fn reference(target: &str) -> Json {
    obj(vec![("$ref", s(target))])
}

fn docs(list: Vec<(&str, Json)>) -> Vec<(String, Json)> {
    list.into_iter().map(|(k, v)| (k.to_string(), v)).collect()
}

fn resolved(value: &Json, authored: &Vec<(String, Json)>, generated: &Vec<(String, Json)>) -> Result<String, String> {
    resolve_ref(value, authored, generated).map(canonical)
}

#[test]
fn fixture_routing_by_name() {
    assert_eq!(
        fixture_definition("valid-realtime-envelope.json"),
        Some(("bridge.schema.json", "realtimeEnvelope"))
    );
    assert_eq!(
        fixture_definition("invalid-acknowledgement-stale.json"),
        Some(("bridge.schema.json", "acknowledgement"))
    );
    assert_eq!(
        fixture_definition("valid-work-handoff.json"),
        Some(("bridge.schema.json", "workHandoff"))
    );
    assert_eq!(fixture_definition("valid-bridge-descriptor.json"), None);
    assert_eq!(fixture_definition("realtime-envelope-acknowledgement.json"), Some(("bridge.schema.json", "realtimeEnvelope")));

    assert_eq!(semantic_kind("a-realtime-envelope.json"), "realtime-envelope");
    assert_eq!(semantic_kind("acknowledgement"), "acknowledgement");
    assert_eq!(semantic_kind("x-work-handoff"), "work-handoff");
    assert_eq!(semantic_kind("descriptor.json"), "service-descriptor");
    assert_eq!(semantic_kind(""), "service-descriptor");

    assert_eq!(generated_file_for_fixture("valid-realtime-envelope.json"), "RealtimeEnvelope.json");
    assert_eq!(generated_file_for_fixture("valid-acknowledgement.json"), "Acknowledgement.json");
    assert_eq!(generated_file_for_fixture("valid-work-handoff.json"), "WorkHandoff.json");
    assert_eq!(generated_file_for_fixture("valid-coordinator.json"), "ServiceDescriptor.json");
}

#[test]
fn reference_parts() {
    assert_eq!(ref_parts("bridge.schema.json#/$defs/role"), ("bridge.schema.json".to_string(), Some("/$defs/role".to_string())));
    assert_eq!(ref_parts("#/$defs/role"), (String::new(), Some("/$defs/role".to_string())));
    assert_eq!(ref_parts("Role.json"), ("Role.json".to_string(), None));
    assert_eq!(ref_parts("a#b#c"), ("a".to_string(), Some("b#c".to_string())));
    assert_eq!(ref_parts("a#"), ("a".to_string(), Some(String::new())));
}

#[test]
fn definitions() {
    let document = obj(vec![("$defs", obj(vec![("role", typed("string"))]))]);
    assert_eq!(definition(&document, "role").map(canonical), Ok(r#"{"type":"string"}"#.to_string()));
    assert_eq!(definition(&document, "").map(canonical), Ok(canonical(&document)));
    assert_eq!(
        definition(&document, "kind").map(canonical),
        Err("missing JSON Schema definition kind".to_string())
    );
    assert_eq!(
        definition(&typed("string"), "kind").map(canonical),
        Err("missing JSON Schema definition kind".to_string())
    );
}

#[test]
fn resolving_references() {
    let common = obj(vec![("$defs", obj(vec![("shared", typed("string")), ("only", typed("integer"))]))]);
    let bridge = obj(vec![("$defs", obj(vec![("shared", typed("boolean")), ("role", typed("null"))]))]);
    let authored = docs(vec![("bridge.schema.json", bridge), ("common.schema.json", common)]);
    let generated = docs(vec![("Role", obj(vec![("enum", Json::Array(vec![s("a")]))]))]);

    assert_eq!(resolved(&reference("#/$defs/only"), &authored, &generated), Ok(r#"{"type":"integer"}"#.to_string()));
    assert_eq!(
        resolved(&reference("#/$defs/shared"), &authored, &generated),
        Err("ambiguous local schema definition #/$defs/shared; qualify the reference".to_string())
    );
    assert_eq!(
        resolved(&reference("#/$defs/none"), &authored, &generated),
        Err("unresolved schema definition #/$defs/none".to_string())
    );
    assert_eq!(
        resolved(&reference("#/definitions/x"), &authored, &generated),
        Err("unsupported local schema reference #/definitions/x".to_string())
    );
    assert_eq!(
        resolved(&reference("bridge.schema.json#/$defs/role"), &authored, &generated),
        Ok(r#"{"type":"null"}"#.to_string())
    );
    assert_eq!(
        resolved(&reference("Role.json"), &authored, &generated),
        Ok(r#"{"enum":["a"]}"#.to_string())
    );
    assert_eq!(
        resolved(&reference("Missing.json"), &authored, &generated),
        Err("unresolved schema reference Missing.json".to_string())
    );
    assert_eq!(
        resolved(&reference("bridge.schema.json#/definitions/role"), &authored, &generated),
        Err("unsupported schema fragment /definitions/role".to_string())
    );
    assert_eq!(
        resolved(&reference("bridge.schema.json#/$defs/absent"), &authored, &generated),
        Err("unresolved schema definition bridge.schema.json#/$defs/absent".to_string())
    );
    assert_eq!(
        resolved(&obj(vec![("$ref", Json::Null)]), &authored, &generated),
        Err("schema reference is not a string".to_string())
    );
    let stemless = docs(vec![("..", typed("string"))]);
    assert_eq!(resolved(&reference(".."), &authored, &stemless), Ok(r#"{"type":"string"}"#.to_string()));
    assert_eq!(
        resolved(&reference("dir/Role.json"), &authored, &generated),
        Ok(r#"{"enum":["a"]}"#.to_string())
    );
}
