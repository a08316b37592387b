use pontifex_conformance::json::{object_from_entries, Json, JsonNumber};
use pontifex_conformance::order::{dedup_strings, sort_strings};
use pontifex_conformance::parity::{enum_pairs, model_pairs, run, scalar_pairs};
use pontifex_conformance::shape::{enum_values, scalar_constraint, shape};

fn s(text: &str) -> Json {
    Json::Str(text.to_string())
}

fn n(value: u64) -> Json {
    Json::Number(JsonNumber::PosInt(value))
}

fn arr(items: Vec<Json>) -> Json {
    Json::Array(items)
}

fn obj(members: Vec<(&str, Json)>) -> Json {
    object_from_entries(members.into_iter().map(|(k, v)| (k.to_string(), v)).collect())
        .unwrap_or(Json::Null)
}

fn typed(name: &str) -> Json {
    obj(vec![("type", s(name))])
}

fn docs(list: Vec<(&str, Json)>) -> Vec<(String, Json)> {
    list.into_iter().map(|(k, v)| (k.to_string(), v)).collect()
}

fn shape_of(value: &Json, authored: &Vec<(String, Json)>, generated: &Vec<(String, Json)>) -> Result<String, String> {
    shape(value, authored, generated, &Vec::new())
}

#[test]
fn scalar_constraints_keep_listed_keys() {
    let value = obj(vec![
        ("type", s("string")),
        ("maxLength", n(5)),
        ("title", s("ignored")),
        ("pattern", s("^a")),
        ("maxItems", n(2)),
    ]);
    assert_eq!(scalar_constraint(&value), r#"{"maxItems":2,"maxLength":5,"pattern":"^a","type":"string"}"#);
    assert_eq!(scalar_constraint(&obj(vec![])), "{}");
    assert_eq!(scalar_constraint(&s("not an object")), "{}");
}

#[test]
fn enum_wire_values() {
    let none = Vec::new();
    let direct = obj(vec![("enum", arr(vec![s("b"), s("a"), n(3)]))]);
    assert_eq!(enum_values(&direct, &none, &none), Ok(vec!["\"a\"".to_string(), "\"b\"".to_string(), "3".to_string()]));
    let union = obj(vec![(
        "oneOf",
        arr(vec![
            obj(vec![("const", s("z"))]),
            obj(vec![("enum", arr(vec![s("y"), s("x")]))]),
        ]),
    )]);
    assert_eq!(
        enum_values(&union, &none, &none),
        Ok(vec!["\"x\"".to_string(), "\"y\"".to_string(), "\"z\"".to_string()])
    );
    assert_eq!(
        enum_values(&typed("string"), &none, &none),
        Err("schema has neither enum nor const union".to_string())
    );
    let authored = docs(vec![("bridge.schema.json", obj(vec![("$defs", obj(vec![("role", direct)]))]))]);
    let via_ref = obj(vec![("$ref", s("#/$defs/role"))]);
    assert_eq!(enum_values(&via_ref, &authored, &none).map(|v| v.len()), Ok(3));
}

#[test]
fn shapes_of_schemas() {
    let none = Vec::new();
    assert_eq!(shape_of(&obj(vec![("const", s("v"))]), &none, &none), Ok("const:\"v\"".to_string()));
    assert_eq!(shape_of(&obj(vec![]), &none, &none), Ok("any".to_string()));
    assert_eq!(shape_of(&typed("string"), &none, &none), Ok(r#"{"type":"string"}"#.to_string()));
    assert_eq!(
        shape_of(&obj(vec![("enum", arr(vec![s("b"), s("a")]))]), &none, &none),
        Ok(r#"enum:["\"a\"", "\"b\""]"#.to_string())
    );
    let union = obj(vec![("anyOf", arr(vec![typed("string"), typed("null"), typed("string")]))]);
    assert_eq!(
        shape_of(&union, &none, &none),
        Ok(r#"union:["{\"type\":\"null\"}", "{\"type\":\"string\"}"]"#.to_string())
    );
    let with_any = obj(vec![("oneOf", arr(vec![typed("string"), obj(vec![])]))]);
    assert_eq!(shape_of(&with_any, &none, &none), Ok("any".to_string()));
    let types = obj(vec![("type", arr(vec![s("string"), s("null")]))]);
    assert_eq!(
        shape_of(&types, &none, &none),
        Ok(r#"union:["{\"type\":\"null\"}", "{\"type\":\"string\"}"]"#.to_string())
    );
    let merged = obj(vec![(
        "allOf",
        arr(vec![
            obj(vec![("type", s("string")), ("minLength", n(1))]),
            obj(vec![("maxLength", n(9)), ("description", s("x"))]),
        ]),
    )]);
    assert_eq!(shape_of(&merged, &none, &none), Ok(r#"{"maxLength":9,"minLength":1,"type":"string"}"#.to_string()));
}

#[test]
fn object_and_array_shapes() {
    let none = Vec::new();
    let closed = obj(vec![
        ("type", s("object")),
        ("additionalProperties", Json::Bool(false)),
        ("properties", obj(vec![("b", typed("integer")), ("a", typed("string"))])),
        ("required", arr(vec![s("a")])),
    ]);
    assert_eq!(
        shape_of(&closed, &none, &none),
        Ok(r#"object:closed{a:required:{"type":"string"},b:optional:{"type":"integer"}}"#.to_string())
    );
    let open = obj(vec![("type", s("object"))]);
    assert_eq!(shape_of(&open, &none, &none), Ok("object:open".to_string()));
    let unevaluated = obj(vec![("type", s("object")), ("unevaluatedProperties", Json::Bool(false))]);
    assert_eq!(shape_of(&unevaluated, &none, &none), Ok("object:closed".to_string()));
    let empty_unevaluated = obj(vec![("type", s("object")), ("unevaluatedProperties", obj(vec![]))]);
    assert_eq!(shape_of(&empty_unevaluated, &none, &none), Ok("object:open".to_string()));
    let array = obj(vec![
        ("type", s("array")),
        ("items", typed("integer")),
        ("minItems", n(1)),
        ("uniqueItems", Json::Bool(true)),
    ]);
    assert_eq!(shape_of(&array, &none, &none), Ok(r#"array<{"type":"integer"}>;minItems=1;uniqueItems=true"#.to_string()));
    assert_eq!(shape_of(&typed("array"), &none, &none), Ok("array<any>".to_string()));
}

#[test]
fn recursive_references_stop() {
    let node = obj(vec![
        ("type", s("object")),
        ("properties", obj(vec![("next", obj(vec![("$ref", s("#/$defs/node"))]))])),
    ]);
    let authored = docs(vec![("common.schema.json", obj(vec![("$defs", obj(vec![("node", node)]))]))]);
    let none = Vec::new();
    assert_eq!(
        shape_of(&obj(vec![("$ref", s("#/$defs/node"))]), &authored, &none),
        Ok("object:open{next:optional:recursive}".to_string())
    );
    assert_eq!(
        shape_of(&obj(vec![("$ref", s("#/$defs/gone"))]), &authored, &none),
        Err("unresolved schema definition #/$defs/gone".to_string())
    );
}

#[test]
fn sorting_and_dedup() {
    let words = vec!["b", "a", "b", "B", "a"].into_iter().map(String::from).collect::<Vec<_>>();
    let sorted = sort_strings(words);
    assert_eq!(sorted, vec!["B", "a", "a", "b", "b"]);
    assert_eq!(dedup_strings(sorted), vec!["B", "a", "b"]);
}

#[test]
fn pair_tables() {
    assert_eq!(enum_pairs().len(), 10);
    assert_eq!(enum_pairs()[0].name, "AgentKind");
    assert!(!model_pairs().is_empty());
    assert!(!scalar_pairs().is_empty());
}

#[test]
fn parity_with_nothing_authored() {
    let generated = docs(vec![("Stray", typed("string")), ("RecordUnknown", obj(vec![]))]);
    let findings = run(&Vec::new(), &generated);
    assert!(findings.contains(&"generated TypeSpec schema Stray has no configured authored JSON Schema peer".to_string()));
    assert!(findings.contains(&"missing authored enum AgentKind".to_string()));
    assert!(!findings.iter().any(|f| f.contains("RecordUnknown")));
    let mut sorted = findings.clone();
    sorted.sort();
    sorted.dedup();
    assert_eq!(findings, sorted);
    let expected = enum_pairs().len() + model_pairs().len() + scalar_pairs().len() + 1;
    assert_eq!(findings.len(), expected);
}

#[test]
fn parity_reports_differences() {
    let bridge = obj(vec![(
        "$defs",
        obj(vec![
            ("agentKind", obj(vec![("enum", arr(vec![s("human"), s("agent")]))])),
        ]),
    )]);
    let authored = docs(vec![("bridge.schema.json", bridge)]);
    let same = docs(vec![("AgentKind", obj(vec![("enum", arr(vec![s("agent"), s("human")]))]))]);
    let findings = run(&authored, &same);
    assert!(!findings.iter().any(|f| f.contains("AgentKind")));
    let different = docs(vec![("AgentKind", obj(vec![("enum", arr(vec![s("agent")]))]))]);
    let findings = run(&authored, &different);
    assert!(findings.contains(&"enum wire values differ for AgentKind".to_string()));
}

#[test]
fn enum_and_const_unions_agree() {
    let none = Vec::new();
    let values = vec![s("b"), n(2), s("a"), s("b")];
    let consts = |values: &Vec<Json>| arr(values.iter().map(|v| obj(vec![("const", clone(v))])).collect());
    let direct = enum_values(&obj(vec![("enum", arr(values.iter().map(clone).collect()))]), &none, &none);
    let any_of = enum_values(&obj(vec![("anyOf", consts(&values))]), &none, &none);
    let one_of = enum_values(&obj(vec![("oneOf", consts(&values))]), &none, &none);
    let expected = Ok(vec!["\"a\"".to_string(), "\"b\"".to_string(), "\"b\"".to_string(), "2".to_string()]);
    assert_eq!(direct, expected);
    assert_eq!(any_of, expected);
    assert_eq!(one_of, expected);
}

#[test]
fn type_arrays_and_type_unions_agree() {
    let none = Vec::new();
    let names = ["string", "object", "array", "null", "string"];
    let types = obj(vec![("type", arr(names.iter().map(|t| s(t)).collect()))]);
    let members = || arr(names.iter().map(|t| typed(t)).collect());
    let expected = shape_of(&types, &none, &none);
    assert_eq!(
        expected,
        Ok(r#"union:["array<any>", "object:open", "{\"type\":\"null\"}", "{\"type\":\"string\"}"]"#.to_string())
    );
    assert_eq!(shape_of(&obj(vec![("anyOf", members())]), &none, &none), expected);
    assert_eq!(shape_of(&obj(vec![("oneOf", members())]), &none, &none), expected);
}

fn clone(value: &Json) -> Json {
    pontifex_conformance::json::clone_json(value)
}
