//! The peer-parity check: every TypeSpec-generated schema has an authored
//! JSON Schema peer, and each configured pair agrees on its enum wire values
//! or its wire shape.

use vstd::prelude::*;
use crate::json::{entries_view, lemma_entries_view, lookup, lookup_entries, Json, JsonView};
use crate::order::{dedup, dedup_strings, lemma_sorted_dedup, sort_strings, sorted_strings};
use crate::refs::{definition, definition_of};
use crate::shape::{
    enum_result, enum_terminates, enum_values, shape, shape_result, shape_terminates,
    strings_result_view, string_result_view, DocsView,
};
use crate::text::{
    concat, debug_quoted, debug_text, lemma_strings_view_push, seq_lt, strings_view,
};

verus! {

/// A configured pair: a generated schema's name, and the authored schema file
/// and `$defs` entry (empty for the whole file) that is its peer.
pub struct Pair {
    pub name: &'static str,
    pub schema_file: &'static str,
    pub definition: &'static str,
}

pub open spec fn pair_view(p: Pair) -> (Seq<char>, Seq<char>, Seq<char>) {
    (p.name@, p.schema_file@, p.definition@)
}

pub open spec fn pairs_view(ps: Seq<Pair>) -> Seq<(Seq<char>, Seq<char>, Seq<char>)> {
    ps.map_values(|p: Pair| pair_view(p))
}

/// The enum pairs.
pub open spec fn enum_pair_list() -> Seq<(Seq<char>, Seq<char>, Seq<char>)> {
    seq![
        ("AgentKind"@, "bridge.schema.json"@, "agentKind"@),
        ("Role"@, "bridge.schema.json"@, "role"@),
        ("MemberRole"@, "bridge.schema.json"@, "memberRole"@),
        ("PresenceKind"@, "bridge.schema.json"@, "presenceKind"@),
        ("JobStatus"@, "coordinator.schema.json"@, "jobStatus"@),
        ("CompletionOutcome"@, "coordinator.schema.json"@, "completionOutcome"@),
        ("ServiceKind"@, "service-descriptor.schema.json"@, "serviceKind"@),
        ("MessageKind"@, "bridge.schema.json"@, "messageKind"@),
        ("DeliveryMode"@, "bridge.schema.json"@, "deliveryMode"@),
        ("AckStatus"@, "bridge.schema.json"@, "ackStatus"@),
    ]
}

/// The model pairs.
pub open spec fn model_pair_list() -> Seq<(Seq<char>, Seq<char>, Seq<char>)> {
    seq![
        ("ProtocolVersionRange"@, "common.schema.json"@, "protocolVersionRange"@),
        ("ErrorResponse"@, "common.schema.json"@, "errorResponse"@),
        ("ServiceDescriptor"@, "service-descriptor.schema.json"@, ""@),
        ("Agent"@, "bridge.schema.json"@, "agent"@),
        ("FileLease"@, "bridge.schema.json"@, "fileLease"@),
        ("Message"@, "bridge.schema.json"@, "message"@),
        ("Channel"@, "bridge.schema.json"@, "channel"@),
        ("AcquireFileLeaseRequest"@, "bridge.schema.json"@, "acquireFileLeaseRequest"@),
        ("PostMessageRequest"@, "bridge.schema.json"@, "postMessageRequest"@),
        ("Job"@, "coordinator.schema.json"@, "job"@),
        ("CreateJobRequest"@, "coordinator.schema.json"@, "createJobRequest"@),
        ("ClaimJobRequest"@, "coordinator.schema.json"@, "claimJobRequest"@),
        ("CompleteJobRequest"@, "coordinator.schema.json"@, "completeJobRequest"@),
        ("AgentRef"@, "bridge.schema.json"@, "agentRef"@),
        ("TraceContext"@, "bridge.schema.json"@, "traceContext"@),
        ("LeaseRef"@, "bridge.schema.json"@, "leaseRef"@),
        ("RealtimeEnvelope"@, "bridge.schema.json"@, "realtimeEnvelope"@),
        ("Acknowledgement"@, "bridge.schema.json"@, "acknowledgement"@),
        ("WorkHandoff"@, "bridge.schema.json"@, "workHandoff"@),
    ]
}

/// The scalar pairs.
pub open spec fn scalar_pair_list() -> Seq<(Seq<char>, Seq<char>, Seq<char>)> {
    seq![
        ("Identifier"@, "common.schema.json"@, "identifier"@),
        ("NamespacedIdentifier"@, "common.schema.json"@, "namespacedIdentifier"@),
        ("Timestamp"@, "common.schema.json"@, "timestamp"@),
    ]
}

fn pair(name: &'static str, schema_file: &'static str, definition: &'static str) -> (res: Pair)
    ensures
        pair_view(res) == (name@, schema_file@, definition@),
{
    Pair { name, schema_file, definition }
}

/// The enum pairs.
pub fn enum_pairs() -> (res: Vec<Pair>)
    ensures
        pairs_view(res@) == enum_pair_list(),
{
    let v = vec![
        pair("AgentKind", "bridge.schema.json", "agentKind"),
        pair("Role", "bridge.schema.json", "role"),
        pair("MemberRole", "bridge.schema.json", "memberRole"),
        pair("PresenceKind", "bridge.schema.json", "presenceKind"),
        pair("JobStatus", "coordinator.schema.json", "jobStatus"),
        pair("CompletionOutcome", "coordinator.schema.json", "completionOutcome"),
        pair("ServiceKind", "service-descriptor.schema.json", "serviceKind"),
        pair("MessageKind", "bridge.schema.json", "messageKind"),
        pair("DeliveryMode", "bridge.schema.json", "deliveryMode"),
        pair("AckStatus", "bridge.schema.json", "ackStatus"),
    ];
    assert(pairs_view(v@) =~= enum_pair_list());
    v
}

/// The model pairs.
pub fn model_pairs() -> (res: Vec<Pair>)
    ensures
        pairs_view(res@) == model_pair_list(),
{
    let v = vec![
        pair("ProtocolVersionRange", "common.schema.json", "protocolVersionRange"),
        pair("ErrorResponse", "common.schema.json", "errorResponse"),
        pair("ServiceDescriptor", "service-descriptor.schema.json", ""),
        pair("Agent", "bridge.schema.json", "agent"),
        pair("FileLease", "bridge.schema.json", "fileLease"),
        pair("Message", "bridge.schema.json", "message"),
        pair("Channel", "bridge.schema.json", "channel"),
        pair("AcquireFileLeaseRequest", "bridge.schema.json", "acquireFileLeaseRequest"),
        pair("PostMessageRequest", "bridge.schema.json", "postMessageRequest"),
        pair("Job", "coordinator.schema.json", "job"),
        pair("CreateJobRequest", "coordinator.schema.json", "createJobRequest"),
        pair("ClaimJobRequest", "coordinator.schema.json", "claimJobRequest"),
        pair("CompleteJobRequest", "coordinator.schema.json", "completeJobRequest"),
        pair("AgentRef", "bridge.schema.json", "agentRef"),
        pair("TraceContext", "bridge.schema.json", "traceContext"),
        pair("LeaseRef", "bridge.schema.json", "leaseRef"),
        pair("RealtimeEnvelope", "bridge.schema.json", "realtimeEnvelope"),
        pair("Acknowledgement", "bridge.schema.json", "acknowledgement"),
        pair("WorkHandoff", "bridge.schema.json", "workHandoff"),
    ];
    assert(pairs_view(v@) =~= model_pair_list());
    v
}

/// The scalar pairs.
pub fn scalar_pairs() -> (res: Vec<Pair>)
    ensures
        pairs_view(res@) == scalar_pair_list(),
{
    let v = vec![
        pair("Identifier", "common.schema.json", "identifier"),
        pair("NamespacedIdentifier", "common.schema.json", "namespacedIdentifier"),
        pair("Timestamp", "common.schema.json", "timestamp"),
    ];
    assert(pairs_view(v@) =~= scalar_pair_list());
    v
}

/// The names a generated schema may have: every configured pair's, and
/// `RecordUnknown`.
pub open spec fn expected_names() -> Seq<Seq<char>> {
    (enum_pair_list() + model_pair_list() + scalar_pair_list()).map_values(
        |p: (Seq<char>, Seq<char>, Seq<char>)| p.0,
    ).push("RecordUnknown"@)
}

pub open spec fn unpaired_message(name: Seq<char>) -> Seq<char> {
    "generated TypeSpec schema "@ + name + " has no configured authored JSON Schema peer"@
}

/// A finding for each generated schema, in order, whose name is not expected.
pub open spec fn unpaired_findings(generated: DocsView) -> Seq<Seq<char>>
    decreases generated.len(),
{
    if generated.len() == 0 {
        Seq::empty()
    } else {
        let rest = unpaired_findings(generated.drop_last());
        if expected_names().contains(generated.last().0) {
            rest
        } else {
            rest.push(unpaired_message(generated.last().0))
        }
    }
}

/// The authored peer of a pair: its definition in its schema file.
pub open spec fn authored_peer(p: (Seq<char>, Seq<char>, Seq<char>), authored: DocsView) -> Option<JsonView> {
    match lookup(authored, p.1) {
        Some(doc) => match definition_of(doc, p.2) {
            Ok(v) => Some(v),
            Err(_) => None,
        },
        None => None,
    }
}

/// Every enum pair whose two schemas exist has enum values that terminate.
pub open spec fn enum_pairs_terminate(ps: Seq<(Seq<char>, Seq<char>, Seq<char>)>, a: DocsView, g: DocsView) -> bool {
    forall|i: int|
        0 <= i < ps.len() ==> (authored_peer(#[trigger] ps[i], a) matches Some(av) ==> lookup(g, ps[i].0) matches Some(gv)
            ==> enum_terminates(av, a, g) && enum_terminates(gv, a, g))
}

/// Every shape pair whose two schemas exist has shapes that terminate.
pub open spec fn shape_pairs_terminate(ps: Seq<(Seq<char>, Seq<char>, Seq<char>)>, a: DocsView, g: DocsView) -> bool {
    forall|i: int|
        0 <= i < ps.len() ==> (authored_peer(#[trigger] ps[i], a) matches Some(av) ==> lookup(g, ps[i].0) matches Some(gv)
            ==> shape_terminates(av, a, g, Seq::empty()) && shape_terminates(gv, a, g, Seq::empty()))
}

/// The findings on enum pairs, in order: a missing authored enum, or enum
/// values that differ.
pub open spec fn enum_findings(ps: Seq<(Seq<char>, Seq<char>, Seq<char>)>, a: DocsView, g: DocsView) -> Seq<Seq<char>>
    decreases ps.len(),
{
    if ps.len() == 0 {
        Seq::empty()
    } else {
        let rest = enum_findings(ps.drop_last(), a, g);
        let p = ps.last();
        match authored_peer(p, a) {
            None => rest.push("missing authored enum "@ + p.0),
            Some(av) => match lookup(g, p.0) {
                None => rest,
                Some(gv) => if enum_result(av, a, g) != enum_result(gv, a, g) {
                    rest.push("enum wire values differ for "@ + p.0)
                } else {
                    rest
                },
            },
        }
    }
}

/// `{:?}` of a shape result: `Ok("...")` or `Err("...")`.
pub open spec fn debug_result(r: Result<Seq<char>, Seq<char>>) -> Seq<char> {
    match r {
        Ok(s) => "Ok("@ + debug_text(s) + ")"@,
        Err(e) => "Err("@ + debug_text(e) + ")"@,
    }
}

pub open spec fn shape_difference_message(
    name: Seq<char>,
    left: Result<Seq<char>, Seq<char>>,
    right: Result<Seq<char>, Seq<char>>,
) -> Seq<char> {
    "wire shape differs for "@ + name + ": authored="@ + debug_result(left) + "; generated="@
        + debug_result(right)
}

/// The findings on model and scalar pairs, in order: a missing authored
/// schema, or shapes that differ.
pub open spec fn shape_findings(ps: Seq<(Seq<char>, Seq<char>, Seq<char>)>, a: DocsView, g: DocsView) -> Seq<Seq<char>>
    decreases ps.len(),
{
    if ps.len() == 0 {
        Seq::empty()
    } else {
        let rest = shape_findings(ps.drop_last(), a, g);
        let p = ps.last();
        match authored_peer(p, a) {
            None => rest.push("missing authored schema "@ + p.0),
            Some(av) => match lookup(g, p.0) {
                None => rest,
                Some(gv) => {
                    let left = shape_result(av, a, g, Seq::empty());
                    let right = shape_result(gv, a, g, Seq::empty());
                    if left != right {
                        rest.push(shape_difference_message(p.0, left, right))
                    } else {
                        rest
                    }
                },
            },
        }
    }
}

/// All the enums and shapes of the configured pairs terminate.
pub open spec fn parity_terminates(a: DocsView, g: DocsView) -> bool {
    &&& enum_pairs_terminate(enum_pair_list(), a, g)
    &&& shape_pairs_terminate(model_pair_list() + scalar_pair_list(), a, g)
}

/// The findings of the parity check, sorted and without repeats.
pub open spec fn parity_findings(a: DocsView, g: DocsView) -> Seq<Seq<char>> {
    dedup(
        sorted_strings(
            unpaired_findings(g) + enum_findings(enum_pair_list(), a, g) + shape_findings(
                model_pair_list() + scalar_pair_list(),
                a,
                g,
            ),
        ),
    )
}


/// Whether two lists of strings are equal.
fn strings_equal(l: &Vec<String>, r: &Vec<String>) -> (res: bool)
    ensures
        res == (strings_view(l@) == strings_view(r@)),
{
    if l.len() != r.len() {
        assert(strings_view(l@).len() != strings_view(r@).len());
        return false;
    }
    let mut i: usize = 0;
    while i < l.len()
        invariant
            i <= l@.len(),
            l@.len() == r@.len(),
            forall|j: int| 0 <= j < i ==> l@[j]@ == r@[j]@,
        decreases l.len() - i,
    {
        if l[i] != r[i] {
            assert(strings_view(l@)[i as int] != strings_view(r@)[i as int]);
            return false;
        }
        i = i + 1;
    }
    assert(strings_view(l@) =~= strings_view(r@));
    true
}

/// Whether two enum results are equal.
fn enum_results_equal(l: &Result<Vec<String>, String>, r: &Result<Vec<String>, String>) -> (res: bool)
    ensures
        res == (strings_result_view(*l) == strings_result_view(*r)),
{
    match (l, r) {
        (Ok(x), Ok(y)) => strings_equal(x, y),
        (Err(x), Err(y)) => *x == *y,
        _ => false,
    }
}

/// Whether two shape results are equal.
fn shape_results_equal(l: &Result<String, String>, r: &Result<String, String>) -> (res: bool)
    ensures
        res == (string_result_view(*l) == string_result_view(*r)),
{
    match (l, r) {
        (Ok(x), Ok(y)) => *x == *y,
        (Err(x), Err(y)) => *x == *y,
        _ => false,
    }
}

/// `{:?}` of a shape result.
fn debug_shape_result(r: &Result<String, String>) -> (res: String)
    ensures
        res@ == debug_result(string_result_view(*r)),
{
    match r {
        Ok(s) => {
            let q = debug_quoted(s.as_str());
            let m = concat("Ok(", q.as_str());
            concat(m.as_str(), ")")
        },
        Err(e) => {
            let q = debug_quoted(e.as_str());
            let m = concat("Err(", q.as_str());
            concat(m.as_str(), ")")
        },
    }
}

/// The expected generated schema names.
fn expected_name_list() -> (res: Vec<String>)
    ensures
        strings_view(res@) == expected_names(),
{
    let e = enum_pairs();
    let m = model_pairs();
    let sc = scalar_pairs();
    let ghost all = enum_pair_list() + model_pair_list() + scalar_pair_list();
    let mut out: Vec<String> = Vec::new();
    let mut i: usize = 0;
    while i < e.len()
        invariant
            i <= e@.len(),
            pairs_view(e@) == enum_pair_list(),
            strings_view(out@) == enum_pair_list().take(i as int).map_values(
                |p: (Seq<char>, Seq<char>, Seq<char>)| p.0,
            ),
        decreases e.len() - i,
    {
        assert(pairs_view(e@)[i as int] == pair_view(e@[i as int]));
        let n = String::from_str(e[i].name);
        proof {
            lemma_strings_view_push(out@, n);
        }
        out.push(n);
        assert(enum_pair_list().take(i + 1).map_values(|p: (Seq<char>, Seq<char>, Seq<char>)| p.0)
            =~= enum_pair_list().take(i as int).map_values(|p: (Seq<char>, Seq<char>, Seq<char>)| p.0).push(
            enum_pair_list()[i as int].0,
        ));
        i = i + 1;
    }
    assert(enum_pair_list().take(10) =~= enum_pair_list());
    let mut i: usize = 0;
    let ghost base = strings_view(out@);
    while i < m.len()
        invariant
            i <= m@.len(),
            pairs_view(m@) == model_pair_list(),
            strings_view(out@) == base + model_pair_list().take(i as int).map_values(
                |p: (Seq<char>, Seq<char>, Seq<char>)| p.0,
            ),
        decreases m.len() - i,
    {
        assert(pairs_view(m@)[i as int] == pair_view(m@[i as int]));
        let n = String::from_str(m[i].name);
        proof {
            lemma_strings_view_push(out@, n);
        }
        out.push(n);
        assert(model_pair_list().take(i + 1).map_values(|p: (Seq<char>, Seq<char>, Seq<char>)| p.0)
            =~= model_pair_list().take(i as int).map_values(|p: (Seq<char>, Seq<char>, Seq<char>)| p.0).push(
            model_pair_list()[i as int].0,
        ));
        i = i + 1;
    }
    assert(model_pair_list().take(19) =~= model_pair_list());
    let mut i: usize = 0;
    let ghost base2 = strings_view(out@);
    while i < sc.len()
        invariant
            i <= sc@.len(),
            pairs_view(sc@) == scalar_pair_list(),
            strings_view(out@) == base2 + scalar_pair_list().take(i as int).map_values(
                |p: (Seq<char>, Seq<char>, Seq<char>)| p.0,
            ),
        decreases sc.len() - i,
    {
        assert(pairs_view(sc@)[i as int] == pair_view(sc@[i as int]));
        let n = String::from_str(sc[i].name);
        proof {
            lemma_strings_view_push(out@, n);
        }
        out.push(n);
        assert(scalar_pair_list().take(i + 1).map_values(|p: (Seq<char>, Seq<char>, Seq<char>)| p.0)
            =~= scalar_pair_list().take(i as int).map_values(|p: (Seq<char>, Seq<char>, Seq<char>)| p.0).push(
            scalar_pair_list()[i as int].0,
        ));
        i = i + 1;
    }
    assert(scalar_pair_list().take(3) =~= scalar_pair_list());
    let r = String::from_str("RecordUnknown");
    proof {
        lemma_strings_view_push(out@, r);
    }
    out.push(r);
    assert(strings_view(out@) =~= expected_names());
    out
}

/// The findings on generated schemas without a configured peer.
fn unpaired(generated: &Vec<(String, Json)>) -> (res: Vec<String>)
    ensures
        strings_view(res@) == unpaired_findings(entries_view(generated@)),
{
    let expected = expected_name_list();
    let ghost gv = entries_view(generated@);
    let mut out: Vec<String> = Vec::new();
    let mut i: usize = 0;
    proof {
        lemma_entries_view(generated@);
    }
    assert(gv.take(0) =~= DocsView::empty());
    assert(strings_view(out@) =~= Seq::<Seq<char>>::empty());
    while i < generated.len()
        invariant
            i <= generated@.len(),
            gv == entries_view(generated@),
            gv.len() == generated@.len(),
            strings_view(expected@) == expected_names(),
            strings_view(out@) == unpaired_findings(gv.take(i as int)),
        decreases generated.len() - i,
    {
        proof {
            lemma_entries_view(generated@);
        }
        assert(gv.take(i + 1).drop_last() =~= gv.take(i as int));
        assert(gv.take(i + 1).last().0 == generated@[i as int].0@);
        let name = &generated[i].0;
        let mut found = false;
        let mut j: usize = 0;
        while j < expected.len()
            invariant
                j <= expected@.len(),
                strings_view(expected@) == expected_names(),
                found == exists|k: int| 0 <= k < j && expected@[k]@ == name@,
            decreases expected.len() - j,
        {
            if expected[j] == *name {
                found = true;
            }
            j = j + 1;
        }
        proof {
            if found {
                let k = choose|k: int| 0 <= k < expected@.len() && expected@[k]@ == name@;
                assert(expected_names()[k] == name@);
            } else {
                assert forall|k: int| 0 <= k < expected_names().len() implies expected_names()[k] != name@ by {
                    assert(expected_names()[k] == expected@[k]@);
                }
            }
        }
        if !found {
            let m1 = concat("generated TypeSpec schema ", name.as_str());
            let m = concat(m1.as_str(), " has no configured authored JSON Schema peer");
            proof {
                lemma_strings_view_push(out@, m);
            }
            out.push(m);
        }
        i = i + 1;
    }
    assert(gv.take(generated@.len() as int) =~= gv);
    out
}

/// The authored peer of `p`.
fn peer_of<'a>(p: &Pair, authored: &'a Vec<(String, Json)>) -> (res: Option<&'a Json>)
    ensures
        match res {
            Some(v) => authored_peer(pair_view(*p), entries_view(authored@)) == Some(v@),
            None => authored_peer(pair_view(*p), entries_view(authored@)) is None,
        },
{
    match lookup_entries(authored, p.schema_file) {
        Some(doc) => match definition(doc, p.definition) {
            Ok(v) => Some(v),
            Err(_) => None,
        },
        None => None,
    }
}

fn check_enum_pairs(
    authored: &Vec<(String, Json)>,
    generated: &Vec<(String, Json)>,
    findings: &mut Vec<String>,
)
    requires
        enum_pairs_terminate(enum_pair_list(), entries_view(authored@), entries_view(generated@)),
    ensures
        strings_view(final(findings)@) == strings_view(old(findings)@) + enum_findings(
            enum_pair_list(),
            entries_view(authored@),
            entries_view(generated@),
        ),
{
    let pairs = enum_pairs();
    let ghost pl = enum_pair_list();
    let ghost av = entries_view(authored@);
    let ghost gv = entries_view(generated@);
    let ghost start = strings_view(findings@);
    let mut i: usize = 0;
    assert(pl.take(0) =~= Seq::<(Seq<char>, Seq<char>, Seq<char>)>::empty());
    assert(start + Seq::<Seq<char>>::empty() =~= start);
    while i < pairs.len()
        invariant
            i <= pairs@.len(),
            pairs_view(pairs@) == pl,
            pl == enum_pair_list(),
            pl.len() == pairs@.len(),
            av == entries_view(authored@),
            gv == entries_view(generated@),
            enum_pairs_terminate(pl, av, gv),
            strings_view(findings@) == start + enum_findings(pl.take(i as int), av, gv),
        decreases pairs.len() - i,
    {
        let p = &pairs[i];
        assert(pl[i as int] == pair_view(*p));
        assert(pl.take(i + 1).drop_last() =~= pl.take(i as int));
        assert(pl.take(i + 1).last() == pl[i as int]);
        match peer_of(p, authored) {
            None => {
                let m = concat("missing authored enum ", p.name);
                proof {
                    lemma_strings_view_push(findings@, m);
                }
                findings.push(m);
            },
            Some(authored_value) => match lookup_entries(generated, p.name) {
                None => {},
                Some(generated_value) => {
                    let left = enum_values(authored_value, authored, generated);
                    let right = enum_values(generated_value, authored, generated);
                    if !enum_results_equal(&left, &right) {
                        let m = concat("enum wire values differ for ", p.name);
                        proof {
                            lemma_strings_view_push(findings@, m);
                        }
                        findings.push(m);
                    }
                },
            },
        }
        i = i + 1;
    }
    assert(pl.take(pairs@.len() as int) =~= pl);
}

fn check_shape_pairs(
    pairs: &Vec<Pair>,
    authored: &Vec<(String, Json)>,
    generated: &Vec<(String, Json)>,
    findings: &mut Vec<String>,
)
    requires
        shape_pairs_terminate(pairs_view(pairs@), entries_view(authored@), entries_view(generated@)),
    ensures
        strings_view(final(findings)@) == strings_view(old(findings)@) + shape_findings(
            pairs_view(pairs@),
            entries_view(authored@),
            entries_view(generated@),
        ),
{
    let ghost pl = pairs_view(pairs@);
    let ghost av = entries_view(authored@);
    let ghost gv = entries_view(generated@);
    let ghost start = strings_view(findings@);
    let empty: Vec<String> = Vec::new();
    let mut i: usize = 0;
    assert(pl.take(0) =~= Seq::<(Seq<char>, Seq<char>, Seq<char>)>::empty());
    assert(start + Seq::<Seq<char>>::empty() =~= start);
    assert(strings_view(empty@) =~= Seq::<Seq<char>>::empty());
    while i < pairs.len()
        invariant
            i <= pairs@.len(),
            pl == pairs_view(pairs@),
            pl.len() == pairs@.len(),
            av == entries_view(authored@),
            gv == entries_view(generated@),
            strings_view(empty@) == Seq::<Seq<char>>::empty(),
            shape_pairs_terminate(pl, av, gv),
            strings_view(findings@) == start + shape_findings(pl.take(i as int), av, gv),
        decreases pairs.len() - i,
    {
        let p = &pairs[i];
        assert(pl[i as int] == pair_view(*p));
        assert(pl.take(i + 1).drop_last() =~= pl.take(i as int));
        assert(pl.take(i + 1).last() == pl[i as int]);
        match peer_of(p, authored) {
            None => {
                let m = concat("missing authored schema ", p.name);
                proof {
                    lemma_strings_view_push(findings@, m);
                }
                findings.push(m);
            },
            Some(authored_value) => match lookup_entries(generated, p.name) {
                None => {},
                Some(generated_value) => {
                    let left = shape(authored_value, authored, generated, &empty);
                    let right = shape(generated_value, authored, generated, &empty);
                    if !shape_results_equal(&left, &right) {
                        let m1 = concat("wire shape differs for ", p.name);
                        let m2 = concat(m1.as_str(), ": authored=");
                        let m3 = concat(m2.as_str(), debug_shape_result(&left).as_str());
                        let m4 = concat(m3.as_str(), "; generated=");
                        let m5 = concat(m4.as_str(), debug_shape_result(&right).as_str());
                        proof {
                            lemma_strings_view_push(findings@, m5);
                        }
                        findings.push(m5);
                    }
                },
            },
        }
        i = i + 1;
    }
    assert(pl.take(pairs@.len() as int) =~= pl);
}

/// The parity findings between the authored documents (keyed by file name)
/// and the generated ones (keyed by file stem): generated schemas without a
/// configured peer, missing authored peers, and pairs whose enum values or
/// wire shapes differ; sorted, without repeats.  Empty when the two
/// authorities agree.
pub fn run(authored: &Vec<(String, Json)>, generated: &Vec<(String, Json)>) -> (res: Vec<String>)
    requires
        parity_terminates(entries_view(authored@), entries_view(generated@)),
    ensures
        strings_view(res@) == parity_findings(entries_view(authored@), entries_view(generated@)),
{
    let mut findings = unpaired(generated);
    check_enum_pairs(authored, generated, &mut findings);
    let mut shape_pairs = model_pairs();
    let mut scalars = scalar_pairs();
    let ghost mp = shape_pairs@;
    let ghost sp = scalars@;
    shape_pairs.append(&mut scalars);
    assert(pairs_view(shape_pairs@) =~= model_pair_list() + scalar_pair_list()) by {
        assert(shape_pairs@ =~= mp + sp);
    }
    check_shape_pairs(&shape_pairs, authored, generated, &mut findings);
    let sorted = sort_strings(findings);
    dedup_strings(sorted)
}

/// The parity findings are exactly the findings on unpaired generated
/// schemas, enum pairs and shape pairs, each reported once, in strictly
/// ascending order; there are none exactly when none of those checks finds
/// anything.
pub proof fn lemma_parity_findings_sorted(a: DocsView, g: DocsView)
    ensures
        forall|i: int, j: int|
            0 <= i < j < parity_findings(a, g).len() ==> seq_lt(
                #[trigger] parity_findings(a, g)[i],
                #[trigger] parity_findings(a, g)[j],
            ),
        forall|x: Seq<char>| #[trigger] parity_findings(a, g).contains(x) <==> (unpaired_findings(g).contains(x)
            || enum_findings(enum_pair_list(), a, g).contains(x) || shape_findings(
            model_pair_list() + scalar_pair_list(),
            a,
            g,
        ).contains(x)),
        parity_findings(a, g).len() == 0 <==> (unpaired_findings(g).len() == 0 && enum_findings(
            enum_pair_list(),
            a,
            g,
        ).len() == 0 && shape_findings(model_pair_list() + scalar_pair_list(), a, g).len() == 0),
{
    let u = unpaired_findings(g);
    let e = enum_findings(enum_pair_list(), a, g);
    let h = shape_findings(model_pair_list() + scalar_pair_list(), a, g);
    let raw = u + e + h;
    lemma_sorted_dedup(raw);
    assert forall|x: Seq<char>| raw.contains(x) <==> (u.contains(x) || e.contains(x) || h.contains(x)) by {
        if raw.contains(x) {
            let k = choose|k: int| 0 <= k < raw.len() && raw[k] == x;
            if k < u.len() {
                assert(u[k] == x);
            } else if k < u.len() + e.len() {
                assert(e[k - u.len()] == x);
            } else {
                assert(h[k - u.len() - e.len()] == x);
            }
        }
        if u.contains(x) {
            let k = choose|k: int| 0 <= k < u.len() && u[k] == x;
            assert(raw[k] == x);
        }
        if e.contains(x) {
            let k = choose|k: int| 0 <= k < e.len() && e[k] == x;
            assert(raw[u.len() + k] == x);
        }
        if h.contains(x) {
            let k = choose|k: int| 0 <= k < h.len() && h[k] == x;
            assert(raw[u.len() + e.len() + k] == x);
        }
    }
    let f = parity_findings(a, g);
    if f.len() > 0 {
        assert(f.contains(f[0]));
    }
    if u.len() > 0 {
        assert(u.contains(u[0]));
        assert(f.contains(u[0]));
    }
    if e.len() > 0 {
        assert(e.contains(e[0]));
        assert(f.contains(e[0]));
    }
    if h.len() > 0 {
        assert(h.contains(h[0]));
        assert(f.contains(h[0]));
    }
}

/// An enum pair raises no finding: its authored peer exists and, when the
/// generated schema exists, both have the same enum values.
pub open spec fn enum_pair_agrees(p: (Seq<char>, Seq<char>, Seq<char>), a: DocsView, g: DocsView) -> bool {
    match authored_peer(p, a) {
        None => false,
        Some(av) => lookup(g, p.0) matches Some(gv) ==> enum_result(av, a, g) == enum_result(gv, a, g),
    }
}

/// A model or scalar pair raises no finding: its authored peer exists and,
/// when the generated schema exists, both have the same wire shape.
pub open spec fn shape_pair_agrees(p: (Seq<char>, Seq<char>, Seq<char>), a: DocsView, g: DocsView) -> bool {
    match authored_peer(p, a) {
        None => false,
        Some(av) => lookup(g, p.0) matches Some(gv) ==> shape_result(av, a, g, Seq::empty()) == shape_result(
            gv,
            a,
            g,
            Seq::empty(),
        ),
    }
}

proof fn lemma_unpaired_empty(g: DocsView)
    ensures
        unpaired_findings(g).len() == 0 <==> forall|i: int| 0 <= i < g.len() ==> expected_names().contains(#[trigger] g[i].0),
    decreases g.len(),
{
    if g.len() > 0 {
        lemma_unpaired_empty(g.drop_last());
        assert forall|i: int| 0 <= i < g.len() - 1 implies g.drop_last()[i] == g[i] by {}
        if forall|i: int| 0 <= i < g.len() ==> expected_names().contains(#[trigger] g[i].0) {
            assert(expected_names().contains(g[g.len() - 1].0));
            assert forall|i: int| 0 <= i < g.drop_last().len() implies expected_names().contains(
                #[trigger] g.drop_last()[i].0,
            ) by {
                assert(expected_names().contains(g[i].0));
            }
        }
        if unpaired_findings(g).len() == 0 {
            assert forall|i: int| 0 <= i < g.len() implies expected_names().contains(#[trigger] g[i].0) by {
                if i < g.len() - 1 {
                    assert(expected_names().contains(g.drop_last()[i].0));
                }
            }
        }
    }
}

proof fn lemma_enum_findings_empty(ps: Seq<(Seq<char>, Seq<char>, Seq<char>)>, a: DocsView, g: DocsView)
    ensures
        enum_findings(ps, a, g).len() == 0 <==> forall|i: int| 0 <= i < ps.len() ==> enum_pair_agrees(#[trigger] ps[i], a, g),
    decreases ps.len(),
{
    if ps.len() > 0 {
        lemma_enum_findings_empty(ps.drop_last(), a, g);
        assert forall|i: int| 0 <= i < ps.len() - 1 implies ps.drop_last()[i] == ps[i] by {}
        if forall|i: int| 0 <= i < ps.len() ==> enum_pair_agrees(#[trigger] ps[i], a, g) {
            assert(enum_pair_agrees(ps[ps.len() - 1], a, g));
            assert forall|i: int| 0 <= i < ps.drop_last().len() implies enum_pair_agrees(
                #[trigger] ps.drop_last()[i],
                a,
                g,
            ) by {
                assert(enum_pair_agrees(ps[i], a, g));
            }
        }
        if enum_findings(ps, a, g).len() == 0 {
            assert forall|i: int| 0 <= i < ps.len() implies enum_pair_agrees(#[trigger] ps[i], a, g) by {
                if i < ps.len() - 1 {
                    assert(enum_pair_agrees(ps.drop_last()[i], a, g));
                }
            }
        }
    }
}

proof fn lemma_shape_findings_empty(ps: Seq<(Seq<char>, Seq<char>, Seq<char>)>, a: DocsView, g: DocsView)
    ensures
        shape_findings(ps, a, g).len() == 0 <==> forall|i: int| 0 <= i < ps.len() ==> shape_pair_agrees(#[trigger] ps[i], a, g),
    decreases ps.len(),
{
    if ps.len() > 0 {
        lemma_shape_findings_empty(ps.drop_last(), a, g);
        assert forall|i: int| 0 <= i < ps.len() - 1 implies ps.drop_last()[i] == ps[i] by {}
        if forall|i: int| 0 <= i < ps.len() ==> shape_pair_agrees(#[trigger] ps[i], a, g) {
            assert(shape_pair_agrees(ps[ps.len() - 1], a, g));
            assert forall|i: int| 0 <= i < ps.drop_last().len() implies shape_pair_agrees(
                #[trigger] ps.drop_last()[i],
                a,
                g,
            ) by {
                assert(shape_pair_agrees(ps[i], a, g));
            }
        }
        if shape_findings(ps, a, g).len() == 0 {
            assert forall|i: int| 0 <= i < ps.len() implies shape_pair_agrees(#[trigger] ps[i], a, g) by {
                if i < ps.len() - 1 {
                    assert(shape_pair_agrees(ps.drop_last()[i], a, g));
                }
            }
        }
    }
}

/// The two authorities are at parity (no finding) exactly when every
/// generated schema has a configured name, every configured pair has its
/// authored peer, and every pair whose generated schema exists agrees on its
/// enum values or its wire shape.
pub proof fn lemma_parity_iff_pairs_agree(a: DocsView, g: DocsView)
    ensures
        parity_findings(a, g).len() == 0 <==> {
            &&& forall|i: int| 0 <= i < g.len() ==> expected_names().contains(#[trigger] g[i].0)
            &&& forall|i: int| 0 <= i < enum_pair_list().len() ==> enum_pair_agrees(#[trigger] enum_pair_list()[i], a, g)
            &&& forall|i: int|
                0 <= i < (model_pair_list() + scalar_pair_list()).len() ==> shape_pair_agrees(
                    #[trigger] (model_pair_list() + scalar_pair_list())[i],
                    a,
                    g,
                )
        },
{
    lemma_parity_findings_sorted(a, g);
    lemma_unpaired_empty(g);
    lemma_enum_findings_empty(enum_pair_list(), a, g);
    lemma_shape_findings_empty(model_pair_list() + scalar_pair_list(), a, g);
}

} // verus!
