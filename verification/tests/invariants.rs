use pontifex_conformance::invariants::{
    descriptor_invariants, realtime_invariants, valid_namespaced_identifier,
};
use pontifex_conformance::json::{object_from_entries, Json, JsonNumber};

fn s(text: &str) -> Json {
    Json::Str(text.to_string())
}

fn n(value: u64) -> Json {
    Json::Number(JsonNumber::PosInt(value))
}

fn arr(items: Vec<Json>) -> Json {
    Json::Array(items)
}

fn obj(members: Vec<(&str, Json)>) -> Json {
    object_from_entries(members.into_iter().map(|(k, v)| (k.to_string(), v)).collect())
        .unwrap_or(Json::Null)
}

fn recipient(key: &str, instance: &str) -> Json {
    obj(vec![("agent_key", s(key)), ("instance_id", s(instance))])
}

#[test]
fn rejects_duplicate_realtime_recipient_identity() {
    let document = obj(vec![(
        "recipients",
        arr(vec![recipient("agent.one", "one"), recipient("agent.one", "one")]),
    )]);
    assert!(!realtime_invariants(&document, "realtime-envelope").is_empty());
}

#[test]
fn requires_reason_for_stale_lease_acknowledgement() {
    let document = obj(vec![("status", s("stale_lease"))]);
    assert!(!realtime_invariants(&document, "acknowledgement").is_empty());
}

#[test]
fn duplicate_recipient_message_names_the_identity() {
    let document = obj(vec![(
        "recipients",
        arr(vec![
            recipient("agent.one", "one"),
            recipient("agent.two", "one"),
            recipient("agent.one", "one"),
            recipient("agent.one", "one"),
        ]),
    )]);
    assert_eq!(
        realtime_invariants(&document, "realtime-envelope"),
        vec![
            "duplicate recipient identity agent.one/one".to_string(),
            "duplicate recipient identity agent.one/one".to_string(),
        ]
    );
}

#[test]
fn distinct_recipients_are_accepted() {
    let document = obj(vec![(
        "recipients",
        arr(vec![
            recipient("agent.one", "one"),
            recipient("agent.one", "two"),
            recipient("agent.two", "one"),
            obj(vec![("agent_key", s("agent.one"))]),
            obj(vec![("agent_key", s("agent.one"))]),
        ]),
    )]);
    assert!(realtime_invariants(&document, "realtime-envelope").is_empty());
}

#[test]
fn recipients_are_only_checked_on_envelopes() {
    let document = obj(vec![(
        "recipients",
        arr(vec![recipient("agent.one", "one"), recipient("agent.one", "one")]),
    )]);
    assert!(realtime_invariants(&document, "work-handoff").is_empty());
    assert!(realtime_invariants(&document, "acknowledgement").is_empty());
}

#[test]
fn acknowledgement_reason_rules() {
    let message =
        "acknowledgements for rejected, expired, unauthorized, or stale leases require reason_code";
    for status in ["rejected", "expired", "unauthorized", "stale_lease"] {
        let bare = obj(vec![("status", s(status))]);
        assert_eq!(realtime_invariants(&bare, "acknowledgement"), vec![message.to_string()]);
        let reasoned = obj(vec![("status", s(status)), ("reason_code", s("because"))]);
        assert!(realtime_invariants(&reasoned, "acknowledgement").is_empty());
        let not_text = obj(vec![("status", s(status)), ("reason_code", n(3))]);
        assert_eq!(realtime_invariants(&not_text, "acknowledgement"), vec![message.to_string()]);
    }
    let accepted = obj(vec![("status", s("accepted"))]);
    assert!(realtime_invariants(&accepted, "acknowledgement").is_empty());
    assert!(realtime_invariants(&obj(vec![]), "acknowledgement").is_empty());
}

#[test]
fn namespaced_identifiers() {
    assert!(valid_namespaced_identifier("agent.one"));
    assert!(valid_namespaced_identifier("a_b-c.d9"));
    assert!(valid_namespaced_identifier("."));
    assert!(!valid_namespaced_identifier(""));
    assert!(!valid_namespaced_identifier("agent"));
    assert!(!valid_namespaced_identifier("Agent.one"));
    assert!(!valid_namespaced_identifier("agent one.x"));
    assert!(!valid_namespaced_identifier("agent.é"));
    let longest = format!("a.{}", "b".repeat(126));
    assert_eq!(longest.len(), 128);
    assert!(valid_namespaced_identifier(&longest));
    let too_long = format!("a.{}", "b".repeat(127));
    assert!(!valid_namespaced_identifier(&too_long));
}

#[test]
fn conforming_descriptor_has_no_findings() {
    let document = obj(vec![
        ("service", s("bridge")),
        ("protocol", s("agent-pontifex.bridge")),
        ("capabilities", arr(vec![s("a.one"), s("b.two")])),
        ("extensions", obj(vec![("x.ext", obj(vec![]))])),
        ("protocol_versions", obj(vec![("min_major", n(1)), ("max_major", n(2))])),
    ]);
    assert!(descriptor_invariants(&document).is_empty());
}

#[test]
fn descriptor_findings_in_order() {
    let document = obj(vec![
        ("service", s("bridge")),
        ("protocol", s("agent-pontifex.coordinator")),
        ("capabilities", arr(vec![s("b.two"), s("a.one"), s("b.two"), s("Bad")])),
        ("extensions", obj(vec![("plain", Json::Null)])),
        ("protocol_versions", obj(vec![("min_major", n(3)), ("max_major", n(2))])),
    ]);
    assert_eq!(
        descriptor_invariants(&document),
        vec![
            "service/protocol mismatch: service=bridge, protocol=agent-pontifex.coordinator",
            "capabilities must be sorted for deterministic negotiation",
            "duplicate capability \"b.two\"",
            "invalid or unnamespaced capability \"Bad\"",
            "invalid or unnamespaced extension \"plain\"",
            "invalid protocol major-version range",
        ]
    );
}

#[test]
fn descriptor_limits() {
    let capabilities = (0..257).map(|i| s(&format!("cap.{i:03}"))).collect::<Vec<_>>();
    let extensions = (0..65).map(|i| (format!("ext.{i:03}"), Json::Null)).collect::<Vec<_>>();
    let document = obj(vec![
        ("capabilities", arr(capabilities)),
        ("extensions", object_from_entries(extensions).unwrap_or(Json::Null)),
    ]);
    assert_eq!(
        descriptor_invariants(&document),
        vec!["too many capabilities", "too many extensions"]
    );
}

#[test]
fn non_string_capabilities_read_as_empty() {
    let document = obj(vec![("capabilities", arr(vec![n(1), n(2)]))]);
    assert_eq!(
        descriptor_invariants(&document),
        vec![
            "invalid or unnamespaced capability \"\"",
            "invalid or unnamespaced capability \"\"",
            "duplicate capability \"\"",
        ]
    );
}

#[test]
fn unknown_service_pairs_only_when_both_named() {
    let only_service = obj(vec![("service", s("bridge"))]);
    assert!(descriptor_invariants(&only_service).is_empty());
    let coordinator = obj(vec![
        ("service", s("coordinator")),
        ("protocol", s("agent-pontifex.coordinator")),
    ]);
    assert!(descriptor_invariants(&coordinator).is_empty());
}

#[test]
fn minimum_major_version_is_one() {
    let zero = obj(vec![("protocol_versions", obj(vec![("min_major", n(0)), ("max_major", n(1))]))]);
    assert_eq!(
        descriptor_invariants(&zero),
        vec!["protocol_versions.min_major must be an integer of at least 1"]
    );
    let only_zero = obj(vec![("protocol_versions", obj(vec![("min_major", n(0))]))]);
    assert_eq!(descriptor_invariants(&only_zero).len(), 1);
    let inverted_zero = obj(vec![("protocol_versions", obj(vec![("min_major", n(0)), ("max_major", n(0))]))]);
    assert_eq!(descriptor_invariants(&inverted_zero).len(), 1);
    let one = obj(vec![("protocol_versions", obj(vec![("min_major", n(1)), ("max_major", n(1))]))]);
    assert!(descriptor_invariants(&one).is_empty());
    let negative = obj(vec![("protocol_versions", obj(vec![("min_major", Json::Number(JsonNumber::NegInt(-1)))]))]);
    assert_eq!(descriptor_invariants(&negative).len(), 1);
    let fraction = obj(vec![("protocol_versions", obj(vec![("min_major", Json::Number(JsonNumber::Float("1.5".to_string())))]))]);
    assert_eq!(descriptor_invariants(&fraction).len(), 1);
    let text = obj(vec![("protocol_versions", obj(vec![("min_major", s("1"))]))]);
    assert!(descriptor_invariants(&text).is_empty());
}
