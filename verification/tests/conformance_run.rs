use pontifex_conformance::canonical::canonical;
use pontifex_conformance::conformance::{
    build_registry, generated_resource, schema_instance_errors, schema_resource, string_field,
    validate_fixture, SCHEMA_BASE,
};
use pontifex_conformance::json::{object_from_entries, Json, JsonNumber};
use pontifex_conformance::verdict::{
    check_fixture, check_projection, judge_fixture, report_failures, Verdict,
};

fn s(text: &str) -> Json {
    Json::Str(text.to_string())
}

fn n(value: u64) -> Json {
    Json::Number(JsonNumber::PosInt(value))
}

fn arr(items: Vec<Json>) -> Json {
    Json::Array(items)
}

fn obj(members: Vec<(&str, Json)>) -> Json {
    object_from_entries(members.into_iter().map(|(k, v)| (k.to_string(), v)).collect())
        .unwrap_or(Json::Null)
}

fn typed(name: &str) -> Json {
    obj(vec![("type", s(name))])
}

const DRAFT: &str = "https://json-schema.org/draft/2020-12/schema";

fn acknowledgement_schema() -> Json {
    obj(vec![
        ("type", s("object")),
        ("required", arr(vec![s("status")])),
        ("properties", obj(vec![("status", typed("string")), ("reason_code", typed("string"))])),
    ])
}

fn bridge_schema() -> Json {
    obj(vec![
        ("$schema", s(DRAFT)),
        ("$id", s(&format!("{SCHEMA_BASE}bridge.schema.json"))),
        ("$defs", obj(vec![("acknowledgement", acknowledgement_schema())])),
    ])
}

fn descriptor_schema() -> Json {
    obj(vec![
        ("$schema", s(DRAFT)),
        ("$id", s(&format!("{SCHEMA_BASE}service-descriptor.schema.json"))),
        ("type", s("object")),
        ("required", arr(vec![s("service")])),
    ])
}

fn authored_resources() -> Vec<(String, Json)> {
    let mut resources = Vec::new();
    for (display, schema) in [("schemas/bridge.schema.json", bridge_schema()), ("schemas/service-descriptor.schema.json", descriptor_schema())] {
        match schema_resource(display, schema) {
            Ok(resource) => resources.push(resource),
            Err(message) => panic!("{message}"),
        }
    }
    resources
}

#[test]
fn authored_resources_are_keyed_by_id() {
    let resources = authored_resources();
    assert_eq!(resources[0].0, format!("{SCHEMA_BASE}bridge.schema.json"));
    assert_eq!(resources[1].0, format!("{SCHEMA_BASE}service-descriptor.schema.json"));
    match schema_resource("schemas/x.json", obj(vec![("type", s("object"))])) {
        Err(message) => assert_eq!(message, "schema field \"$id\" must be a string"),
        Ok(_) => panic!("a schema without $id is no resource"),
    }
    match schema_resource("schemas/bad.json", obj(vec![("type", n(12))])) {
        Err(message) => assert_eq!(message, "schemas/bad.json is not a valid Draft 2020-12 schema"),
        Ok(_) => panic!("an invalid schema is no resource"),
    }
}

#[test]
fn string_fields() {
    let schema = obj(vec![("$id", s("x")), ("n", n(1))]);
    assert_eq!(string_field(&schema, "$id"), Ok("x"));
    assert_eq!(string_field(&schema, "n"), Err("schema field \"n\" must be a string".to_string()));
    assert_eq!(string_field(&schema, "gone"), Err("schema field \"gone\" must be a string".to_string()));
}

#[test]
fn generated_resources_get_their_id() {
    match generated_resource("gen/Acknowledgement.json", "Acknowledgement.json", acknowledgement_schema()) {
        Ok((id, schema)) => {
            assert_eq!(id, format!("{SCHEMA_BASE}Acknowledgement.json"));
            assert_eq!(schema.get_str("$id"), Some(id.as_str()));
            assert!(canonical(&schema).starts_with(r#"{"$id":"https://agent-pontifex.github.io/schemas/Acknowledgement.json","properties""#));
        }
        Err(message) => panic!("{message}"),
    }
    match generated_resource("gen/True.json", "True.json", Json::Bool(true)) {
        Err(message) => assert_eq!(message, "generated True.json must be an object schema"),
        Ok(_) => panic!("a boolean schema is no object schema"),
    }
    match generated_resource("gen/Bad.json", "Bad.json", obj(vec![("minLength", s("x"))])) {
        Err(message) => assert_eq!(message, "generated gen/Bad.json is not a valid Draft 2020-12 schema"),
        Ok(_) => panic!("an invalid schema is no resource"),
    }
}

#[test]
fn registry_refuses_bad_ids() {
    let resources = vec![("bad id".to_string(), typed("string"))];
    match build_registry(&resources) {
        Err(message) => assert!(message.starts_with("failed registering bad id: "), "{message}"),
        Ok(_) => panic!("an invalid id cannot be registered"),
    }
    assert!(build_registry(&authored_resources()).is_ok());
    assert!(build_registry(&Vec::new()).is_ok());
    let twice = vec![authored_resources().remove(0), authored_resources().remove(0)];
    assert!(build_registry(&twice).is_ok());
}

#[test]
fn fixtures_validate_against_their_definitions() {
    let resources = authored_resources();
    let registry = match build_registry(&resources) {
        Ok(registry) => registry,
        Err(message) => panic!("{message}"),
    };
    let good = obj(vec![("status", s("accepted"))]);
    assert_eq!(validate_fixture(&good, "valid-acknowledgement.json", &resources, &registry), Ok(vec![]));

    let missing = obj(vec![("reason_code", s("x"))]);
    let errors = validate_fixture(&missing, "invalid-acknowledgement.json", &resources, &registry);
    assert_eq!(errors.map(|e| e.len()), Ok(1));

    let stale = obj(vec![("status", s("stale_lease"))]);
    assert_eq!(
        validate_fixture(&stale, "invalid-acknowledgement-stale.json", &resources, &registry),
        Ok(vec!["acknowledgements for rejected, expired, unauthorized, or stale leases require reason_code".to_string()])
    );

    let descriptor = obj(vec![("service", s("bridge")), ("protocol", s("agent-pontifex.coordinator"))]);
    assert_eq!(
        validate_fixture(&descriptor, "invalid-descriptor.json", &resources, &registry),
        Ok(vec!["service/protocol mismatch: service=bridge, protocol=agent-pontifex.coordinator".to_string()])
    );
    let nameless = obj(vec![]);
    assert_eq!(validate_fixture(&nameless, "invalid-descriptor.json", &resources, &registry).map(|e| e.len()), Ok(1));
}

#[test]
fn descriptor_schema_must_be_present() {
    let resources = vec![authored_resources().remove(0)];
    let registry = match build_registry(&resources) {
        Ok(registry) => registry,
        Err(message) => panic!("{message}"),
    };
    assert_eq!(
        validate_fixture(&obj(vec![]), "valid-descriptor.json", &resources, &registry),
        Err("service-descriptor.schema.json is missing".to_string())
    );
}

#[test]
fn unresolvable_definition_stops_validation() {
    let resources = authored_resources();
    let registry = match build_registry(&resources) {
        Ok(registry) => registry,
        Err(message) => panic!("{message}"),
    };
    match validate_fixture(&obj(vec![]), "valid-work-handoff.json", &resources, &registry) {
        Err(message) => assert!(message.starts_with("invalid validator for valid-work-handoff.json: "), "{message}"),
        Ok(errors) => panic!("no workHandoff definition, yet {errors:?}"),
    }
}

#[test]
fn generated_schema_errors() {
    let registry = match build_registry(&Vec::new()) {
        Ok(registry) => registry,
        Err(message) => panic!("{message}"),
    };
    assert_eq!(schema_instance_errors(&s("x"), &typed("string"), &registry), Ok(vec![]));
    let email = obj(vec![("type", s("string")), ("format", s("email"))]);
    assert_eq!(schema_instance_errors(&s("not an email"), &email, &registry).map(|e| e.len()), Ok(1));
    assert_eq!(schema_instance_errors(&s("a@example.com"), &email, &registry), Ok(vec![]));
    assert_eq!(schema_instance_errors(&n(1), &typed("string"), &registry).map(|e| e.len()), Ok(1));
    match schema_instance_errors(&n(1), &obj(vec![("$ref", s("Gone.json"))]), &registry) {
        Err(message) => assert!(message.starts_with("generated schema could not compile: "), "{message}"),
        Ok(errors) => panic!("unresolvable reference, yet {errors:?}"),
    }
}

#[test]
fn verdicts_fail_closed() {
    let none: Result<Vec<String>, String> = Ok(vec![]);
    let some: Result<Vec<String>, String> = Ok(vec!["first".to_string(), "second".to_string()]);
    let unread: Result<Vec<String>, String> = Err("invalid JSON: oops".to_string());

    assert!(matches!(judge_fixture("valid-x.json", &none), Verdict::Accepted));
    match judge_fixture("valid-x.json", &some) {
        Verdict::Failure(m) => assert_eq!(m, r#"valid-x.json: expected acceptance, got ["first", "second"]"#),
        _ => panic!("errors on a valid fixture must fail"),
    }
    match judge_fixture("valid-x.json", &unread) {
        Verdict::Failure(m) => assert_eq!(m, "valid-x.json: invalid JSON: oops"),
        _ => panic!("an unreadable valid fixture must fail"),
    }
    match judge_fixture("invalid-x.json", &none) {
        Verdict::Failure(m) => assert_eq!(m, "invalid-x.json: expected rejection, but it validated"),
        _ => panic!("an invalid fixture that validates must fail"),
    }
    match judge_fixture("invalid-x.json", &some) {
        Verdict::Rejected(reason) => assert_eq!(reason, "first"),
        _ => panic!("an invalid fixture with errors is rejected"),
    }
    match judge_fixture("invalid-x.json", &unread) {
        Verdict::Rejected(reason) => assert_eq!(reason, "invalid JSON: oops"),
        _ => panic!("an unreadable invalid fixture is rejected"),
    }
    assert!(matches!(judge_fixture("x-invalid-y.json", &none), Verdict::Accepted));
}

#[test]
fn checking_fixtures() {
    let resources = authored_resources();
    let registry = match build_registry(&resources) {
        Ok(registry) => registry,
        Err(message) => panic!("{message}"),
    };
    let stale: Result<Json, String> = Ok(obj(vec![("status", s("stale_lease"))]));
    match check_fixture("invalid-acknowledgement-stale.json", &stale, &resources, &registry) {
        Ok(Verdict::Rejected(reason)) => assert!(reason.contains("require reason_code")),
        _ => panic!("the stale acknowledgement must be rejected"),
    }
    match check_fixture("valid-acknowledgement-stale.json", &stale, &resources, &registry) {
        Ok(Verdict::Failure(m)) => assert!(m.starts_with("valid-acknowledgement-stale.json: expected acceptance, got [")),
        _ => panic!("a finding on a valid fixture must fail"),
    }
    let unread: Result<Json, String> = Err("invalid JSON: duplicate JSON object key \"a\"".to_string());
    match check_fixture("invalid-duplicate-keys.json", &unread, &resources, &registry) {
        Ok(Verdict::Rejected(reason)) => assert_eq!(reason, "invalid JSON: duplicate JSON object key \"a\""),
        _ => panic!("an unreadable invalid fixture is rejected"),
    }
    let handoff: Result<Json, String> = Ok(obj(vec![]));
    match check_fixture("valid-work-handoff.json", &handoff, &resources, &registry) {
        Err(message) => assert!(message.starts_with("invalid validator for valid-work-handoff.json: ")),
        _ => panic!("a validator that cannot be built stops the run"),
    }
}

#[test]
fn failure_reports() {
    assert_eq!(report_failures(&vec![]), Ok(()));
    assert_eq!(report_failures(&vec!["a".to_string()]), Err("a".to_string()));
    assert_eq!(
        report_failures(&vec!["a".to_string(), "b".to_string(), "c".to_string()]),
        Err("a\n  - b\n  - c".to_string())
    );
}

fn generated_resources(schema: Json) -> Vec<(String, Json)> {
    match generated_resource("gen/Acknowledgement.json", "Acknowledgement.json", schema) {
        Ok(resource) => vec![resource],
        Err(message) => panic!("{message}"),
    }
}

#[test]
fn projection_agreement() {
    let authored = authored_resources();
    let authored_registry = match build_registry(&authored) {
        Ok(registry) => registry,
        Err(message) => panic!("{message}"),
    };
    let agreeing = generated_resources(acknowledgement_schema());
    let agreeing_registry = match build_registry(&agreeing) {
        Ok(registry) => registry,
        Err(message) => panic!("{message}"),
    };
    let good = obj(vec![("status", s("accepted"))]);
    assert_eq!(
        check_projection("valid-acknowledgement.json", &good, &authored, &authored_registry, &agreeing, &agreeing_registry),
        Ok(None)
    );
    let stale = obj(vec![("status", s("stale_lease"))]);
    assert_eq!(
        check_projection("invalid-acknowledgement.json", &stale, &authored, &authored_registry, &agreeing, &agreeing_registry),
        Ok(None)
    );

    let stricter = obj(vec![
        ("type", s("object")),
        ("required", arr(vec![s("status"), s("reason_code")])),
    ]);
    let stricter_resources = generated_resources(stricter);
    let stricter_registry = match build_registry(&stricter_resources) {
        Ok(registry) => registry,
        Err(message) => panic!("{message}"),
    };
    match check_projection("valid-acknowledgement.json", &good, &authored, &authored_registry, &stricter_resources, &stricter_registry) {
        Ok(Some(message)) => assert!(
            message.starts_with("valid-acknowledgement.json: independently authored JSON Schema and generated TypeSpec schema disagree; authored=[], generated=[\""),
            "{message}"
        ),
        other => panic!("the schemas disagree, yet {other:?}"),
    }
    assert_eq!(
        check_projection("valid-work-handoff.json", &good, &authored, &authored_registry, &stricter_resources, &stricter_registry),
        Err("generated TypeSpec schema WorkHandoff.json is missing".to_string())
    );
}
