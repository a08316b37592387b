//! The protocol rules that JSON Schema cannot express: namespaced identifiers,
//! sorted unique capabilities, agreeing service and protocol, an ordered major
//! version range, unique realtime recipients, and reasons on negative
//! acknowledgements.

use vstd::prelude::*;
use crate::json::{group_json_view, items_view, entries_view, opt_view, Json, JsonNumber, JsonView, NumberView};
use crate::text::{
    chars_of, concat, debug_quoted, debug_text, lemma_strings_view_push, seq_lt, str_eq,
    str_less, strings_contain, strings_view,
};

use crate::order::{lemma_lt_asymmetric, lemma_lt_irreflexive, lemma_lt_total, lemma_lt_transitive};

verus! {

broadcast use group_json_view;

/// A character allowed in a namespaced identifier.
pub open spec fn identifier_char(c: char) -> bool {
    c == '_' || c == '-' || c == '.' || ('a' <= c && c <= 'z') || ('0' <= c && c <= '9')
}

/// A namespaced identifier: 1 to 128 characters, at least one `.`, and only
/// lower-case ASCII letters, digits, `_`, `-` and `.`.  (All of these are
/// ASCII, so the bound on characters is the bound on bytes.)
pub open spec fn is_namespaced_identifier(v: Seq<char>) -> bool {
    &&& 0 < v.len() <= 128
    &&& v.contains('.')
    &&& forall|i: int| 0 <= i < v.len() ==> identifier_char(#[trigger] v[i])
}

/// Whether `value` is a namespaced identifier.
pub fn valid_namespaced_identifier(value: &str) -> (res: bool)
    ensures
        res == is_namespaced_identifier(value@),
{
    let chars = chars_of(value);
    if chars.len() == 0 || chars.len() > 128 {
        return false;
    }
    let mut dot = false;
    let mut i: usize = 0;
    while i < chars.len()
        invariant
            i <= chars@.len(),
            chars@ == value@,
            forall|j: int| 0 <= j < i ==> identifier_char(#[trigger] chars@[j]),
            dot == exists|j: int| 0 <= j < i && chars@[j] == '.',
        decreases chars.len() - i,
    {
        let c = chars[i];
        if !(c == '_' || c == '-' || c == '.' || ('a' <= c && c <= 'z') || ('0' <= c && c <= '9')) {
            return false;
        }
        if c == '.' {
            dot = true;
        }
        i = i + 1;
    }
    proof {
        if dot {
            let j = choose|j: int| 0 <= j < i && chars@[j] == '.';
            assert(value@.contains('.'));
        } else {
            assert(!value@.contains('.'));
        }
    }
    dot
}

// ----- service descriptors -----

pub open spec fn mismatch_message(service: Seq<char>, protocol: Seq<char>) -> Seq<char> {
    "service/protocol mismatch: service="@ + service + ", protocol="@ + protocol
}

pub open spec fn invalid_capability_message(v: Seq<char>) -> Seq<char> {
    "invalid or unnamespaced capability "@ + debug_text(v)
}

pub open spec fn duplicate_capability_message(v: Seq<char>) -> Seq<char> {
    "duplicate capability "@ + debug_text(v)
}

pub open spec fn invalid_extension_message(k: Seq<char>) -> Seq<char> {
    "invalid or unnamespaced extension "@ + debug_text(k)
}

/// A service and protocol that belong together.
pub open spec fn service_matches_protocol(service: Seq<char>, protocol: Seq<char>) -> bool {
    ||| service == "bridge"@ && protocol == "agent-pontifex.bridge"@
    ||| service == "coordinator"@ && protocol == "agent-pontifex.coordinator"@
}

/// A capability's text: the string, or empty for any other value.
pub open spec fn text_or_empty(v: JsonView) -> Seq<char> {
    match v.as_str() {
        Some(s) => s,
        None => Seq::empty(),
    }
}

/// Some capability comes after the one that follows it.
pub open spec fn capabilities_unsorted(caps: Seq<JsonView>) -> bool {
    exists|i: int| 0 <= i < caps.len() - 1 && seq_lt(text_or_empty(caps[i + 1]), text_or_empty(#[trigger] caps[i]))
}

/// The findings on each capability in turn: not namespaced, then repeated.
pub open spec fn each_capability_findings(caps: Seq<JsonView>) -> Seq<Seq<char>>
    decreases caps.len(),
{
    if caps.len() == 0 {
        Seq::empty()
    } else {
        let prev = caps.drop_last();
        let v = text_or_empty(caps.last());
        each_capability_findings(prev) + (if !is_namespaced_identifier(v) {
            seq![invalid_capability_message(v)]
        } else {
            Seq::empty()
        }) + (if exists|j: int| 0 <= j < prev.len() && text_or_empty(prev[j]) == v {
            seq![duplicate_capability_message(v)]
        } else {
            Seq::empty()
        })
    }
}

/// The findings on each extension key in turn.
pub open spec fn each_extension_findings(ext: Seq<(Seq<char>, JsonView)>) -> Seq<Seq<char>>
    decreases ext.len(),
{
    if ext.len() == 0 {
        Seq::empty()
    } else {
        each_extension_findings(ext.drop_last()) + (if !is_namespaced_identifier(ext.last().0) {
            seq![invalid_extension_message(ext.last().0)]
        } else {
            Seq::empty()
        })
    }
}

pub open spec fn service_findings(doc: JsonView) -> Seq<Seq<char>> {
    match (doc.get_str("service"@), doc.get_str("protocol"@)) {
        (Some(s), Some(p)) => if service_matches_protocol(s, p) {
            Seq::empty()
        } else {
            seq![mismatch_message(s, p)]
        },
        _ => Seq::empty(),
    }
}

pub open spec fn capability_findings(doc: JsonView) -> Seq<Seq<char>> {
    match doc.get_array("capabilities"@) {
        Some(caps) => (if caps.len() > 256 {
            seq!["too many capabilities"@]
        } else {
            Seq::empty()
        }) + (if capabilities_unsorted(caps) {
            seq!["capabilities must be sorted for deterministic negotiation"@]
        } else {
            Seq::empty()
        }) + each_capability_findings(caps),
        None => Seq::empty(),
    }
}

pub open spec fn extension_findings(doc: JsonView) -> Seq<Seq<char>> {
    match doc.get_object("extensions"@) {
        Some(ext) => (if ext.len() > 64 {
            seq!["too many extensions"@]
        } else {
            Seq::empty()
        }) + each_extension_findings(ext),
        None => Seq::empty(),
    }
}

pub open spec fn version_findings(doc: JsonView) -> Seq<Seq<char>> {
    match doc.get_object("protocol_versions"@) {
        Some(v) => (match (
            JsonView::Object(v).get_u64("min_major"@),
            JsonView::Object(v).get_u64("max_major"@),
        ) {
            (Some(min), Some(max)) => if min > max {
                seq!["invalid protocol major-version range"@]
            } else {
                Seq::empty()
            },
            _ => Seq::empty(),
        }) + (if below_one(JsonView::Object(v).get("min_major"@)) {
            seq![minimum_version_message()]
        } else {
            Seq::empty()
        }),
        None => Seq::empty(),
    }
}

pub open spec fn minimum_version_message() -> Seq<char> {
    "protocol_versions.min_major must be an integer of at least 1"@
}

/// A number that is not an integer of at least 1: zero, a negative integer,
/// or a number with a fraction or an exponent.
pub open spec fn below_one(v: Option<JsonView>) -> bool {
    match v {
        Some(JsonView::Number(NumberView::PosInt(n))) => n == 0,
        Some(JsonView::Number(NumberView::NegInt(_))) => true,
        Some(JsonView::Number(NumberView::Float(_))) => true,
        _ => false,
    }
}

/// Whether a minimum major version is a number below 1.
fn minimum_below_one(min: Option<&Json>) -> (res: bool)
    ensures
        res == below_one(opt_view(min)),
{
    match min {
        Some(Json::Number(JsonNumber::PosInt(n))) => *n == 0,
        Some(Json::Number(JsonNumber::NegInt(_))) => true,
        Some(Json::Number(JsonNumber::Float(_))) => true,
        _ => false,
    }
}

/// Everything wrong with a service descriptor beyond its schema, in the order
/// the checks run.
pub open spec fn descriptor_findings(doc: JsonView) -> Seq<Seq<char>> {
    service_findings(doc) + capability_findings(doc) + extension_findings(doc) + version_findings(doc)
}

fn push_message(errors: &mut Vec<String>, m: String)
    ensures
        strings_view(final(errors)@) == strings_view(old(errors)@).push(m@),
{
    proof {
        lemma_strings_view_push(errors@, m);
    }
    errors.push(m);
}

/// The capability text of `v`: its string, or empty.
fn capability_text(v: &Json) -> (res: &str)
    ensures
        res@ == text_or_empty(v@),
{
    match v.as_str() {
        Some(s) => s,
        None => {
            proof {
                reveal_strlit("");
            }
            ""
        },
    }
}

/// Whether some capability comes after the one that follows it.
fn capabilities_out_of_order(caps: &Vec<Json>) -> (res: bool)
    ensures
        res == capabilities_unsorted(items_view(caps@)),
{
    let ghost view = items_view(caps@);
    let mut i: usize = 0;
    while caps.len() > 0 && i < caps.len() - 1
        invariant
            view == items_view(caps@),
            view.len() == caps@.len(),
            forall|j: int| 0 <= j < i ==> !seq_lt(text_or_empty(view[j + 1]), text_or_empty(#[trigger] view[j])),
            i + 1 <= caps@.len() || caps@.len() == 0,
        decreases caps.len() - i,
    {
        let later = capability_text(&caps[i + 1]);
        let earlier = capability_text(&caps[i]);
        if str_less(later, earlier) {
            assert(0 <= i < view.len() - 1 && seq_lt(text_or_empty(view[i + 1]), text_or_empty(view[i as int])));
            return true;
        }
        i = i + 1;
    }
    false
}

fn check_capabilities(caps: &Vec<Json>, errors: &mut Vec<String>)
    ensures
        strings_view(final(errors)@) == strings_view(old(errors)@) + each_capability_findings(
            items_view(caps@),
        ),
{
    let ghost view = items_view(caps@);
    let ghost start = strings_view(errors@);
    let mut seen: Vec<String> = Vec::new();
    let mut i: usize = 0;
    assert(view.take(0) == Seq::<JsonView>::empty());
    while i < caps.len()
        invariant
            i <= caps@.len(),
            view == items_view(caps@),
            view.len() == caps@.len(),
            seen@.len() == i,
            forall|j: int| 0 <= j < i ==> (#[trigger] seen@[j])@ == text_or_empty(view[j]),
            strings_view(errors@) == start + each_capability_findings(view.take(i as int)),
        decreases caps.len() - i,
    {
        let value = capability_text(&caps[i]);
        let ghost prefix = view.take(i as int);
        assert(view.take(i + 1).drop_last() == prefix);
        assert(view.take(i + 1).last() == view[i as int]);
        if !valid_namespaced_identifier(value) {
            let q = debug_quoted(value);
            let m = concat("invalid or unnamespaced capability ", q.as_str());
            push_message(errors, m);
        }
        let owned = String::from_str(value);
        let repeated = strings_contain(&seen, &owned);
        proof {
            if repeated {
                let j = choose|j: int| 0 <= j < seen@.len() && seen@[j]@ == owned@;
                assert(0 <= j < prefix.len() && text_or_empty(prefix[j]) == value@);
            } else {
                assert forall|j: int| 0 <= j < prefix.len() implies text_or_empty(prefix[j]) != value@ by {
                    assert(seen@[j]@ == text_or_empty(view[j]));
                }
            }
        }
        if repeated {
            let q = debug_quoted(value);
            let m = concat("duplicate capability ", q.as_str());
            push_message(errors, m);
        }
        seen.push(owned);
        i = i + 1;
    }
    assert(view.take(caps@.len() as int) == view);
}

fn check_extensions(ext: &Vec<(String, Json)>, errors: &mut Vec<String>)
    ensures
        strings_view(final(errors)@) == strings_view(old(errors)@) + each_extension_findings(
            entries_view(ext@),
        ),
{
    let ghost view = entries_view(ext@);
    let ghost start = strings_view(errors@);
    let mut i: usize = 0;
    assert(view.take(0) == Seq::<(Seq<char>, JsonView)>::empty());
    while i < ext.len()
        invariant
            i <= ext@.len(),
            view == entries_view(ext@),
            view.len() == ext@.len(),
            strings_view(errors@) == start + each_extension_findings(view.take(i as int)),
        decreases ext.len() - i,
    {
        let key = ext[i].0.as_str();
        assert(view.take(i + 1).drop_last() == view.take(i as int));
        assert(view.take(i + 1).last() == view[i as int]);
        assert(view[i as int].0 == key@);
        if !valid_namespaced_identifier(key) {
            let q = debug_quoted(key);
            let m = concat("invalid or unnamespaced extension ", q.as_str());
            push_message(errors, m);
        }
        i = i + 1;
    }
    assert(view.take(ext@.len() as int) == view);
}

/// The findings on a service descriptor beyond its schema: a service and
/// protocol that do not belong together; more than 256 capabilities,
/// capabilities out of order, or one that is not namespaced or repeats; more
/// than 64 extensions, or an extension key that is not namespaced; a minimum
/// major version above the maximum, or below 1.
pub fn descriptor_invariants(document: &Json) -> (res: Vec<String>)
    ensures
        strings_view(res@) == descriptor_findings(document@),
{
    let mut errors: Vec<String> = Vec::new();
    let service = document.get_str("service");
    let protocol = document.get_str("protocol");
    match (service, protocol) {
        (Some(s), Some(p)) => {
            let bridge = str_eq(s, "bridge") && str_eq(p, "agent-pontifex.bridge");
            let coordinator = str_eq(s, "coordinator") && str_eq(p, "agent-pontifex.coordinator");
            if !(bridge || coordinator) {
                let m1 = concat("service/protocol mismatch: service=", s);
                let m2 = concat(m1.as_str(), ", protocol=");
                let m3 = concat(m2.as_str(), p);
                push_message(&mut errors, m3);
            }
        },
        _ => {},
    }
    assert(strings_view(errors@) == service_findings(document@));
    let ghost after_service = strings_view(errors@);
    if let Some(caps) = document.get_array("capabilities") {
        let ghost before = strings_view(errors@);
        if caps.len() > 256 {
            push_message(&mut errors, String::from_str("too many capabilities"));
        }
        if capabilities_out_of_order(caps) {
            push_message(
                &mut errors,
                String::from_str("capabilities must be sorted for deterministic negotiation"),
            );
        }
        check_capabilities(caps, &mut errors);
    }
    assert(strings_view(errors@) == after_service + capability_findings(document@));
    let ghost after_capabilities = strings_view(errors@);
    if let Some(ext) = document.get_object("extensions") {
        if ext.len() > 64 {
            push_message(&mut errors, String::from_str("too many extensions"));
        }
        check_extensions(ext, &mut errors);
    }
    assert(strings_view(errors@) == after_capabilities + extension_findings(document@));
    let ghost after_extensions = strings_view(errors@);
    if let Some(versions) = document.get("protocol_versions") {
        if let Some(_) = versions.as_object() {
            let min = versions.get_u64("min_major");
            let max = versions.get_u64("max_major");
            match (min, max) {
                (Some(min), Some(max)) => {
                    if min > max {
                        push_message(
                            &mut errors,
                            String::from_str("invalid protocol major-version range"),
                        );
                    }
                },
                _ => {},
            }
            if minimum_below_one(versions.get("min_major")) {
                push_message(
                    &mut errors,
                    String::from_str("protocol_versions.min_major must be an integer of at least 1"),
                );
            }
        }
    }
    assert(strings_view(errors@) == after_extensions + version_findings(document@));
    errors
}

// ----- realtime envelopes and acknowledgements -----

/// A recipient's identity: its agent key and instance id, when both are strings.
pub open spec fn recipient_identity(r: JsonView) -> Option<(Seq<char>, Seq<char>)> {
    match (r.get_str("agent_key"@), r.get_str("instance_id"@)) {
        (Some(k), Some(i)) => Some((k, i)),
        _ => None,
    }
}

pub open spec fn duplicate_recipient_message(key: Seq<char>, instance: Seq<char>) -> Seq<char> {
    "duplicate recipient identity "@ + key + "/"@ + instance
}

/// The findings on each recipient in turn: an identity that an earlier
/// recipient already has.
pub open spec fn recipient_findings(rs: Seq<JsonView>) -> Seq<Seq<char>>
    decreases rs.len(),
{
    if rs.len() == 0 {
        Seq::empty()
    } else {
        let prev = rs.drop_last();
        recipient_findings(prev) + match recipient_identity(rs.last()) {
            Some((k, i)) => if exists|j: int|
                0 <= j < prev.len() && recipient_identity(prev[j]) == Some((k, i)) {
                seq![duplicate_recipient_message(k, i)]
            } else {
                Seq::empty()
            },
            None => Seq::empty(),
        }
    }
}

/// An acknowledgement status that must carry a `reason_code`.
pub open spec fn reason_required(status: Option<Seq<char>>) -> bool {
    match status {
        Some(s) => s == "rejected"@ || s == "expired"@ || s == "unauthorized"@ || s == "stale_lease"@,
        None => false,
    }
}

pub open spec fn missing_reason_message() -> Seq<char> {
    "acknowledgements for rejected, expired, unauthorized, or stale leases require reason_code"@
}

/// Everything wrong with a realtime document of kind `kind` beyond its schema.
pub open spec fn realtime_findings(doc: JsonView, kind: Seq<char>) -> Seq<Seq<char>> {
    (if kind == "realtime-envelope"@ {
        match doc.get_array("recipients"@) {
            Some(rs) => recipient_findings(rs),
            None => Seq::empty(),
        }
    } else {
        Seq::empty()
    }) + (if kind == "acknowledgement"@ && reason_required(doc.get_str("status"@))
        && doc.get_str("reason_code"@) is None {
        seq![missing_reason_message()]
    } else {
        Seq::empty()
    })
}

/// The identity of recipient `r`, if it has one.
fn identity_of(r: &Json) -> (res: Option<(&str, &str)>)
    ensures
        match res {
            Some((k, i)) => recipient_identity(r@) == Some((k@, i@)),
            None => recipient_identity(r@) is None,
        },
{
    match (r.get_str("agent_key"), r.get_str("instance_id")) {
        (Some(k), Some(i)) => Some((k, i)),
        _ => None,
    }
}

/// The identity that `slot` records, as views.
pub open spec fn slot_view(slot: Option<(String, String)>) -> Option<(Seq<char>, Seq<char>)> {
    match slot {
        Some((k, i)) => Some((k@, i@)),
        None => None,
    }
}

/// Whether some slot records the identity `key`/`instance`.
fn identity_recorded(slots: &Vec<Option<(String, String)>>, key: &str, instance: &str) -> (res: bool)
    ensures
        res == exists|j: int| 0 <= j < slots@.len() && slot_view(slots@[j]) == Some((key@, instance@)),
{
    let mut j: usize = 0;
    while j < slots.len()
        invariant
            j <= slots@.len(),
            forall|x: int| 0 <= x < j ==> slot_view(slots@[x]) != Some((key@, instance@)),
        decreases slots.len() - j,
    {
        match &slots[j] {
            Some((k, n)) => {
                if str_eq(k.as_str(), key) && str_eq(n.as_str(), instance) {
                    return true;
                }
            },
            None => {},
        }
        j = j + 1;
    }
    false
}

fn check_recipients(rs: &Vec<Json>, errors: &mut Vec<String>)
    ensures
        strings_view(final(errors)@) == strings_view(old(errors)@) + recipient_findings(
            items_view(rs@),
        ),
{
    let ghost view = items_view(rs@);
    let ghost start = strings_view(errors@);
    let mut slots: Vec<Option<(String, String)>> = Vec::new();
    let mut i: usize = 0;
    assert(view.take(0) == Seq::<JsonView>::empty());
    while i < rs.len()
        invariant
            i <= rs@.len(),
            view == items_view(rs@),
            view.len() == rs@.len(),
            slots@.len() == i,
            forall|j: int| 0 <= j < i ==> slot_view(#[trigger] slots@[j]) == recipient_identity(view[j]),
            strings_view(errors@) == start + recipient_findings(view.take(i as int)),
        decreases rs.len() - i,
    {
        let ghost prefix = view.take(i as int);
        assert(view.take(i + 1).drop_last() == prefix);
        assert(view.take(i + 1).last() == view[i as int]);
        match identity_of(&rs[i]) {
            Some((key, instance)) => {
                let found = identity_recorded(&slots, key, instance);
                proof {
                    if found {
                        let j = choose|j: int|
                            0 <= j < slots@.len() && slot_view(slots@[j]) == Some((key@, instance@));
                        assert(prefix[j] == view[j]);
                    } else {
                        assert forall|j: int| 0 <= j < prefix.len() implies recipient_identity(prefix[j])
                            != Some((key@, instance@)) by {
                            assert(prefix[j] == view[j]);
                            assert(slot_view(slots@[j]) == recipient_identity(view[j]));
                        }
                    }
                }
                if found {
                    let m1 = concat("duplicate recipient identity ", key);
                    let m2 = concat(m1.as_str(), "/");
                    let m3 = concat(m2.as_str(), instance);
                    push_message(errors, m3);
                }
                slots.push(Some((String::from_str(key), String::from_str(instance))));
            },
            None => {
                slots.push(None);
            },
        }
        i = i + 1;
    }
    assert(view.take(rs@.len() as int) == view);
}

/// The findings on a realtime document of kind `kind` beyond its schema: for a
/// realtime envelope, a recipient whose agent key and instance id repeat an
/// earlier recipient's; for an acknowledgement whose status is rejected,
/// expired, unauthorized or stale_lease, a missing string `reason_code`.
pub fn realtime_invariants(document: &Json, kind: &str) -> (res: Vec<String>)
    ensures
        strings_view(res@) == realtime_findings(document@, kind@),
{
    let mut errors: Vec<String> = Vec::new();
    if str_eq(kind, "realtime-envelope") {
        if let Some(recipients) = document.get_array("recipients") {
            check_recipients(recipients, &mut errors);
        }
    }
    let ghost after_envelope = strings_view(errors@);
    if str_eq(kind, "acknowledgement") {
        let status = document.get_str("status");
        let required = match status {
            Some(s) => str_eq(s, "rejected") || str_eq(s, "expired") || str_eq(s, "unauthorized")
                || str_eq(s, "stale_lease"),
            None => false,
        };
        if required && document.get_str("reason_code").is_none() {
            push_message(
                &mut errors,
                String::from_str(
                    "acknowledgements for rejected, expired, unauthorized, or stale leases require reason_code",
                ),
            );
        }
    }
    assert(strings_view(errors@) == after_envelope + (if kind@ == "acknowledgement"@ && reason_required(
        document@.get_str("status"@),
    ) && document@.get_str("reason_code"@) is None {
        seq![missing_reason_message()]
    } else {
        Seq::<Seq<char>>::empty()
    }));
    errors
}

// ----- the rules as laws -----

/// Every capability is namespaced and no two capabilities are the same.
pub open spec fn capabilities_valid_and_unique(caps: Seq<JsonView>) -> bool {
    &&& forall|i: int| 0 <= i < caps.len() ==> is_namespaced_identifier(text_or_empty(#[trigger] caps[i]))
    &&& forall|i: int, j: int|
        0 <= i < j < caps.len() ==> text_or_empty(#[trigger] caps[i]) != text_or_empty(#[trigger] caps[j])
}

proof fn lemma_capability_findings_empty(caps: Seq<JsonView>)
    ensures
        each_capability_findings(caps).len() == 0 <==> capabilities_valid_and_unique(caps),
    decreases caps.len(),
{
    if caps.len() > 0 {
        let prev = caps.drop_last();
        lemma_capability_findings_empty(prev);
        assert forall|i: int| 0 <= i < prev.len() implies prev[i] == caps[i] by {}
        if each_capability_findings(caps).len() == 0 {
            assert(each_capability_findings(prev).len() == 0);
            assert forall|i: int, j: int|
                0 <= i < j < caps.len() implies text_or_empty(#[trigger] caps[i]) != text_or_empty(#[trigger] caps[j]) by {
                if j == caps.len() - 1 {
                    assert(prev[i] == caps[i]);
                } else {
                    assert(prev[i] == caps[i] && prev[j] == caps[j]);
                }
            }
            assert forall|i: int| 0 <= i < caps.len() implies is_namespaced_identifier(text_or_empty(#[trigger] caps[i])) by {
                if i < caps.len() - 1 {
                    assert(prev[i] == caps[i]);
                }
            }
        }
        if capabilities_valid_and_unique(caps) {
            assert(capabilities_valid_and_unique(prev)) by {
                assert forall|i: int, j: int|
                    0 <= i < j < prev.len() implies text_or_empty(#[trigger] prev[i]) != text_or_empty(#[trigger] prev[j]) by {
                    assert(prev[i] == caps[i] && prev[j] == caps[j]);
                }
                assert forall|i: int| 0 <= i < prev.len() implies is_namespaced_identifier(text_or_empty(#[trigger] prev[i])) by {
                    assert(prev[i] == caps[i]);
                }
            }
            assert(!exists|j: int| 0 <= j < prev.len() && text_or_empty(prev[j]) == text_or_empty(caps.last())) by {
                assert forall|j: int| 0 <= j < prev.len() implies text_or_empty(prev[j]) != text_or_empty(caps.last()) by {
                    assert(prev[j] == caps[j]);
                    assert(text_or_empty(caps[j]) != text_or_empty(caps[caps.len() - 1]));
                }
            }
        }
    }
}

proof fn lemma_extension_findings_empty(ext: Seq<(Seq<char>, JsonView)>)
    ensures
        each_extension_findings(ext).len() == 0 <==> forall|i: int|
            0 <= i < ext.len() ==> is_namespaced_identifier(#[trigger] ext[i].0),
    decreases ext.len(),
{
    if ext.len() > 0 {
        let prev = ext.drop_last();
        lemma_extension_findings_empty(prev);
        assert forall|i: int| 0 <= i < prev.len() implies prev[i] == ext[i] by {}
        if forall|i: int| 0 <= i < ext.len() ==> is_namespaced_identifier(#[trigger] ext[i].0) {
            assert forall|i: int| 0 <= i < prev.len() implies is_namespaced_identifier(#[trigger] prev[i].0) by {
                assert(prev[i] == ext[i]);
            }
        }
        if each_extension_findings(ext).len() == 0 {
            assert forall|i: int| 0 <= i < ext.len() implies is_namespaced_identifier(#[trigger] ext[i].0) by {
                if i < ext.len() - 1 {
                    assert(prev[i] == ext[i]);
                }
            }
        }
    }
}

/// A service descriptor that keeps every rule the schema cannot express: a
/// service and protocol that belong together (`bridge` with
/// `agent-pontifex.bridge`, `coordinator` with `agent-pontifex.coordinator`);
/// at most 256 capabilities, sorted, namespaced and unique; at most 64
/// extensions, each key namespaced; and a minimum major version of at least 1
/// and no greater than the maximum (a number below 1, or one with a fraction
/// or an exponent, is refused).
pub open spec fn descriptor_conforms(doc: JsonView) -> bool {
    &&& (doc.get_str("service"@) matches Some(s) ==> doc.get_str("protocol"@) matches Some(p)
        ==> service_matches_protocol(s, p))
    &&& (doc.get_array("capabilities"@) matches Some(caps) ==> {
        &&& caps.len() <= 256
        &&& !capabilities_unsorted(caps)
        &&& capabilities_valid_and_unique(caps)
    })
    &&& (doc.get_object("extensions"@) matches Some(ext) ==> {
        &&& ext.len() <= 64
        &&& forall|i: int| 0 <= i < ext.len() ==> is_namespaced_identifier(#[trigger] ext[i].0)
    })
    &&& (doc.get_object("protocol_versions"@) matches Some(v) ==> JsonView::Object(v).get_u64(
        "min_major"@,
    ) matches Some(min) ==> JsonView::Object(v).get_u64("max_major"@) matches Some(max) ==> min
        <= max)
    &&& (doc.get_object("protocol_versions"@) matches Some(v) ==> !below_one(
        JsonView::Object(v).get("min_major"@),
    ))
}

/// Law: a service descriptor draws no finding exactly when it keeps every rule
/// that its schema cannot express.
pub proof fn lemma_descriptor_accepted_iff_conforms(doc: JsonView)
    ensures
        descriptor_findings(doc).len() == 0 <==> descriptor_conforms(doc),
{
    if let Some(caps) = doc.get_array("capabilities"@) {
        lemma_capability_findings_empty(caps);
    }
    if let Some(ext) = doc.get_object("extensions"@) {
        lemma_extension_findings_empty(ext);
    }
}

/// No two recipients share an agent key and instance id.
pub open spec fn recipients_distinct(rs: Seq<JsonView>) -> bool {
    forall|i: int, j: int|
        0 <= i < j < rs.len() && (#[trigger] recipient_identity(rs[i])) is Some ==> recipient_identity(rs[i])
            != #[trigger] recipient_identity(rs[j])
}

proof fn lemma_recipient_findings_empty(rs: Seq<JsonView>)
    ensures
        recipient_findings(rs).len() == 0 <==> recipients_distinct(rs),
    decreases rs.len(),
{
    if rs.len() > 0 {
        let prev = rs.drop_last();
        lemma_recipient_findings_empty(prev);
        assert forall|i: int| 0 <= i < prev.len() implies prev[i] == rs[i] by {}
        if recipient_findings(rs).len() == 0 {
            assert(recipient_findings(prev).len() == 0);
            assert forall|i: int, j: int|
                0 <= i < j < rs.len() && (#[trigger] recipient_identity(rs[i])) is Some implies recipient_identity(rs[i])
                    != #[trigger] recipient_identity(rs[j]) by {
                if j == rs.len() - 1 {
                    assert(prev[i] == rs[i]);
                } else {
                    assert(prev[i] == rs[i] && prev[j] == rs[j]);
                }
            }
        }
        if recipients_distinct(rs) {
            assert forall|i: int, j: int|
                0 <= i < j < prev.len() && (#[trigger] recipient_identity(prev[i])) is Some implies recipient_identity(prev[i])
                    != #[trigger] recipient_identity(prev[j]) by {
                assert(prev[i] == rs[i] && prev[j] == rs[j]);
            }
            if let Some((k, n)) = recipient_identity(rs.last()) {
                assert forall|j: int| 0 <= j < prev.len() implies recipient_identity(prev[j]) != Some((k, n)) by {
                    assert(prev[j] == rs[j]);
                    if recipient_identity(rs[j]) is Some {
                        assert(recipient_identity(rs[j]) != recipient_identity(rs[rs.len() - 1]));
                    }
                }
            }
        }
    }
}

/// Law: a realtime envelope draws no finding exactly when no two of its
/// recipients share an agent key and instance id.
pub proof fn lemma_envelope_accepted_iff_recipients_distinct(doc: JsonView)
    ensures
        realtime_findings(doc, "realtime-envelope"@).len() == 0 <==> (doc.get_array("recipients"@) matches Some(
            rs,
        ) ==> recipients_distinct(rs)),
{
    if let Some(rs) = doc.get_array("recipients"@) {
        lemma_recipient_findings_empty(rs);
    }
    reveal_strlit("realtime-envelope");
    reveal_strlit("acknowledgement");
    assert("realtime-envelope"@.len() != "acknowledgement"@.len());
}

/// Law: an acknowledgement draws no finding exactly when a rejected, expired,
/// unauthorized or stale_lease status comes with a string `reason_code`.
pub proof fn lemma_acknowledgement_accepted_iff_reasoned(doc: JsonView)
    ensures
        realtime_findings(doc, "acknowledgement"@).len() == 0 <==> (reason_required(
            doc.get_str("status"@),
        ) ==> doc.get_str("reason_code"@) is Some),
{
    reveal_strlit("realtime-envelope");
    reveal_strlit("acknowledgement");
    assert("realtime-envelope"@.len() != "acknowledgement"@.len());
}

proof fn lemma_capability_chain(caps: Seq<JsonView>, i: int, j: int)
    requires
        0 <= i < j < caps.len(),
        forall|k: int| 0 <= k < caps.len() - 1 ==> seq_lt(text_or_empty(#[trigger] caps[k]), text_or_empty(caps[k + 1])),
    ensures
        seq_lt(text_or_empty(caps[i]), text_or_empty(caps[j])),
    decreases j - i,
{
    if j > i + 1 {
        lemma_capability_chain(caps, i, j - 1);
        assert(seq_lt(text_or_empty(caps[j - 1]), text_or_empty(caps[j])));
        lemma_lt_transitive(text_or_empty(caps[i]), text_or_empty(caps[j - 1]), text_or_empty(caps[j]));
    }
}

/// Capabilities that are in order and never repeat are exactly those whose
/// texts strictly increase.
pub proof fn lemma_sorted_unique_capabilities(caps: Seq<JsonView>)
    ensures
        (!capabilities_unsorted(caps) && forall|i: int, j: int|
            0 <= i < j < caps.len() ==> text_or_empty(#[trigger] caps[i]) != text_or_empty(#[trigger] caps[j]))
            <==> forall|i: int, j: int|
            0 <= i < j < caps.len() ==> seq_lt(text_or_empty(#[trigger] caps[i]), text_or_empty(#[trigger] caps[j])),
{
    if forall|i: int, j: int|
        0 <= i < j < caps.len() ==> seq_lt(text_or_empty(#[trigger] caps[i]), text_or_empty(#[trigger] caps[j])) {
        assert forall|i: int| 0 <= i < caps.len() - 1 implies !seq_lt(
            text_or_empty(caps[i + 1]),
            text_or_empty(#[trigger] caps[i]),
        ) by {
            assert(seq_lt(text_or_empty(caps[i]), text_or_empty(caps[i + 1])));
            lemma_lt_asymmetric(text_or_empty(caps[i]), text_or_empty(caps[i + 1]));
        }
        assert forall|i: int, j: int| 0 <= i < j < caps.len() implies text_or_empty(#[trigger] caps[i])
            != text_or_empty(#[trigger] caps[j]) by {
            lemma_lt_irreflexive(text_or_empty(caps[i]));
        }
    }
    if !capabilities_unsorted(caps) && forall|i: int, j: int|
        0 <= i < j < caps.len() ==> text_or_empty(#[trigger] caps[i]) != text_or_empty(#[trigger] caps[j]) {
        assert forall|k: int| 0 <= k < caps.len() - 1 implies seq_lt(
            text_or_empty(#[trigger] caps[k]),
            text_or_empty(caps[k + 1]),
        ) by {
            assert(!seq_lt(text_or_empty(caps[k + 1]), text_or_empty(caps[k])));
            assert(text_or_empty(caps[k]) != text_or_empty(caps[k + 1]));
            lemma_lt_total(text_or_empty(caps[k]), text_or_empty(caps[k + 1]));
        }
        assert forall|i: int, j: int| 0 <= i < j < caps.len() implies seq_lt(
            text_or_empty(#[trigger] caps[i]),
            text_or_empty(#[trigger] caps[j]),
        ) by {
            lemma_capability_chain(caps, i, j);
        }
    }
}

/// Service and protocol agree exactly when the protocol is
/// `agent-pontifex.` followed by the service, and the service is `bridge` or
/// `coordinator`: any other pair of strings draws the mismatch finding, which
/// comes first among a descriptor's findings.
pub proof fn lemma_service_protocol_agreement(doc: JsonView)
    ensures
        doc.get_str("service"@) matches Some(s) ==> doc.get_str("protocol"@) matches Some(p) ==> {
            &&& (service_findings(doc).len() == 0 <==> (p == "agent-pontifex."@ + s && (s == "bridge"@ || s
                == "coordinator"@)))
            &&& (service_findings(doc).len() > 0 ==> descriptor_findings(doc)[0] == mismatch_message(s, p))
        },
        (doc.get_str("service"@) is None || doc.get_str("protocol"@) is None) ==> service_findings(doc).len() == 0,
{
    reveal_strlit("agent-pontifex.");
    reveal_strlit("bridge");
    reveal_strlit("coordinator");
    reveal_strlit("agent-pontifex.bridge");
    reveal_strlit("agent-pontifex.coordinator");
    assert("agent-pontifex."@ + "bridge"@ =~= "agent-pontifex.bridge"@);
    assert("agent-pontifex."@ + "coordinator"@ =~= "agent-pontifex.coordinator"@);
    if let (Some(s), Some(p)) = (doc.get_str("service"@), doc.get_str("protocol"@)) {
        if service_findings(doc).len() > 0 {
            assert(descriptor_findings(doc)[0] == service_findings(doc)[0]);
        }
    }
}

} // verus!
