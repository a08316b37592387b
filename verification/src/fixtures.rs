//! How a conformance fixture's file name selects what it is checked against.

use vstd::prelude::*;
use crate::text::{seq_contains, str_contains};

verus! {

/// The kind of document a fixture holds, read from its file name.
pub open spec fn kind_of(name: Seq<char>) -> Seq<char> {
    if seq_contains(name, "realtime-envelope"@) {
        "realtime-envelope"@
    } else if seq_contains(name, "acknowledgement"@) {
        "acknowledgement"@
    } else if seq_contains(name, "work-handoff"@) {
        "work-handoff"@
    } else {
        "service-descriptor"@
    }
}

/// The schema file and `$defs` entry that a fixture is validated against;
/// `None` for a service descriptor, which is validated against its whole schema.
pub open spec fn definition_of(name: Seq<char>) -> Option<(Seq<char>, Seq<char>)> {
    if seq_contains(name, "realtime-envelope"@) {
        Some(("bridge.schema.json"@, "realtimeEnvelope"@))
    } else if seq_contains(name, "acknowledgement"@) {
        Some(("bridge.schema.json"@, "acknowledgement"@))
    } else if seq_contains(name, "work-handoff"@) {
        Some(("bridge.schema.json"@, "workHandoff"@))
    } else {
        None
    }
}

/// The TypeSpec-generated schema file that a fixture is checked against.
pub open spec fn generated_file_of(name: Seq<char>) -> Seq<char> {
    if seq_contains(name, "realtime-envelope"@) {
        "RealtimeEnvelope.json"@
    } else if seq_contains(name, "acknowledgement"@) {
        "Acknowledgement.json"@
    } else if seq_contains(name, "work-handoff"@) {
        "WorkHandoff.json"@
    } else {
        "ServiceDescriptor.json"@
    }
}

/// The schema file and definition for a fixture named `name`.
pub fn fixture_definition(name: &str) -> (res: Option<(&'static str, &'static str)>)
    ensures
        match res {
            Some((file, def)) => definition_of(name@) == Some((file@, def@)),
            None => definition_of(name@) is None,
        },
{
    if str_contains(name, "realtime-envelope") {
        Some(("bridge.schema.json", "realtimeEnvelope"))
    } else if str_contains(name, "acknowledgement") {
        Some(("bridge.schema.json", "acknowledgement"))
    } else if str_contains(name, "work-handoff") {
        Some(("bridge.schema.json", "workHandoff"))
    } else {
        None
    }
}

/// The kind of document that a fixture named `name` holds.
pub fn semantic_kind(name: &str) -> (res: &'static str)
    ensures
        res@ == kind_of(name@),
{
    if str_contains(name, "realtime-envelope") {
        "realtime-envelope"
    } else if str_contains(name, "acknowledgement") {
        "acknowledgement"
    } else if str_contains(name, "work-handoff") {
        "work-handoff"
    } else {
        "service-descriptor"
    }
}

/// The generated schema file for a fixture named `name`.
pub fn generated_file_for_fixture(name: &str) -> (res: &'static str)
    ensures
        res@ == generated_file_of(name@),
{
    if str_contains(name, "realtime-envelope") {
        "RealtimeEnvelope.json"
    } else if str_contains(name, "acknowledgement") {
        "Acknowledgement.json"
    } else if str_contains(name, "work-handoff") {
        "WorkHandoff.json"
    } else {
        "ServiceDescriptor.json"
    }
}

} // verus!
