//! What the conformance run makes of each fixture: a fixture named
//! `invalid-*` must be rejected, any other must be accepted, and the
//! TypeSpec-generated schemas must agree with the authored ones.

use vstd::prelude::*;
use crate::conformance::{
    errors_view, extend_strings, find_with_suffix, first_with_suffix, fixture_findings,
    fixture_outcome, generated_outcome, schema_instance_errors, semantic_findings,
    validate_fixture, SchemaRegistry,
};
use crate::fixtures::{generated_file_for_fixture, generated_file_of};
use crate::json::{entries_view, Json, JsonView};
use crate::shape::DocsView;
use crate::text::{
    concat, debug_list, debug_list_text, has_prefix, join, join_strings, str_starts_with,
    strings_view,
};

verus! {

/// What became of one fixture.
pub enum Verdict {
    /// The fixture was to be accepted, and was.
    Accepted,
    /// The fixture was to be rejected, and was; the first reason.
    Rejected(String),
    /// The fixture broke its expectation; the failure to report.
    Failure(String),
}

/// A verdict with its texts as sequences.
pub enum VerdictView {
    Accepted,
    Rejected(Seq<char>),
    Failure(Seq<char>),
}

impl View for Verdict {
    type V = VerdictView;

    open spec fn view(&self) -> VerdictView {
        match self {
            Verdict::Accepted => VerdictView::Accepted,
            Verdict::Rejected(r) => VerdictView::Rejected(r@),
            Verdict::Failure(f) => VerdictView::Failure(f@),
        }
    }
}

/// A fixture named `invalid-*` must be rejected.
pub open spec fn must_fail(name: Seq<char>) -> bool {
    has_prefix(name, "invalid-"@)
}

/// The verdict on a fixture named `name`, from what reading and validating it
/// gave: the error when it could not be read as JSON, else what was found
/// against it.
pub open spec fn verdict_of(name: Seq<char>, outcome: Result<Seq<Seq<char>>, Seq<char>>) -> VerdictView {
    match outcome {
        Err(e) => if must_fail(name) {
            VerdictView::Rejected(e)
        } else {
            VerdictView::Failure(name + ": "@ + e)
        },
        Ok(errors) => if must_fail(name) && errors.len() == 0 {
            VerdictView::Failure(name + ": expected rejection, but it validated"@)
        } else if !must_fail(name) && errors.len() > 0 {
            VerdictView::Failure(name + ": expected acceptance, got "@ + debug_list_text(errors))
        } else if must_fail(name) {
            VerdictView::Rejected(errors[0])
        } else {
            VerdictView::Accepted
        },
    }
}

/// The verdict on a fixture named `name`; `outcome` is what was found against
/// it, or why it could not be read as JSON.
pub fn judge_fixture(name: &str, outcome: &Result<Vec<String>, String>) -> (res: Verdict)
    ensures
        res@ == verdict_of(name@, errors_view(*outcome)),
{
    let should_fail = str_starts_with(name, "invalid-");
    proof {
        reveal_strlit("invalid-");
    }
    match outcome {
        Err(error) => {
            if should_fail {
                Verdict::Rejected(error.clone())
            } else {
                let m = concat(name, ": ");
                Verdict::Failure(concat(m.as_str(), error.as_str()))
            }
        },
        Ok(errors) => {
            if should_fail && errors.len() == 0 {
                Verdict::Failure(concat(name, ": expected rejection, but it validated"))
            } else if !should_fail && errors.len() > 0 {
                let m = concat(name, ": expected acceptance, got ");
                let listed = debug_list(errors);
                Verdict::Failure(concat(m.as_str(), listed.as_str()))
            } else if should_fail {
                Verdict::Rejected(errors[0].clone())
            } else {
                Verdict::Accepted
            }
        },
    }
}

/// A verdict, or the error that stopped the run.
pub open spec fn verdict_result_view(r: Result<Verdict, String>) -> Result<VerdictView, Seq<char>> {
    match r {
        Ok(v) => Ok(v@),
        Err(e) => Err(e@),
    }
}

/// The verdict once validation gave `validated`; an error of validation stops the run.
pub open spec fn judged(name: Seq<char>, validated: Result<Seq<Seq<char>>, Seq<char>>) -> Result<
    VerdictView,
    Seq<char>,
> {
    match validated {
        Ok(errors) => Ok(verdict_of(name, Ok(errors))),
        Err(e) => Err(e),
    }
}

/// Checks one fixture named `name` against the authored schemas: `parsed` is
/// the document, or why it could not be read as JSON.
pub fn check_fixture(
    name: &str,
    parsed: &Result<Json, String>,
    resources: &Vec<(String, Json)>,
    registry: &SchemaRegistry,
) -> (res: Result<Verdict, String>)
    ensures
        verdict_result_view(res) == match parsed {
            Err(e) => Ok::<VerdictView, Seq<char>>(verdict_of(name@, Err(e@))),
            Ok(doc) => judged(name@, fixture_outcome(doc@, name@, entries_view(resources@), registry.sources())),
        },
{
    match parsed {
        Err(error) => {
            let outcome: Result<Vec<String>, String> = Err(error.clone());
            Ok(judge_fixture(name, &outcome))
        },
        Ok(document) => match validate_fixture(document, name, resources, registry) {
            Err(e) => Err(e),
            Ok(errors) => {
                let outcome: Result<Vec<String>, String> = Ok(errors);
                Ok(judge_fixture(name, &outcome))
            },
        },
    }
}

/// The failures of a run, one per line after the first, or `Ok` when none.
pub fn report_failures(failures: &Vec<String>) -> (res: Result<(), String>)
    ensures
        res is Ok <==> failures@.len() == 0,
        res matches Err(m) ==> m@ == join(strings_view(failures@), "\n  - "@),
{
    if failures.len() == 0 {
        Ok(())
    } else {
        Err(join_strings(failures, "\n  - "))
    }
}

// ----- the TypeSpec-generated schemas -----

/// What is reported when the authored and generated schemas disagree on a fixture.
pub open spec fn disagreement(name: Seq<char>, authored: Seq<Seq<char>>, generated: Seq<Seq<char>>) -> Seq<char> {
    name + ": independently authored JSON Schema and generated TypeSpec schema disagree; authored="@
        + debug_list_text(authored) + ", generated="@ + debug_list_text(generated)
}

/// A disagreement, if any, or the error that stopped the run.
pub open spec fn projection_view(r: Result<Option<String>, String>) -> Result<Option<Seq<char>>, Seq<char>> {
    match r {
        Ok(Some(m)) => Ok(Some(m@)),
        Ok(None) => Ok(None),
        Err(e) => Err(e@),
    }
}

/// What checking a fixture against both authorities gives: the generated
/// schema for it must exist; the authored validation runs first, then the
/// generated one, which adds the same findings beyond schema; the two
/// disagree when exactly one of them found nothing.
pub open spec fn projection_outcome(
    name: Seq<char>,
    doc: JsonView,
    authored: DocsView,
    authored_sources: Map<Seq<char>, Seq<char>>,
    generated: DocsView,
    generated_sources: Map<Seq<char>, Seq<char>>,
) -> Result<Option<Seq<char>>, Seq<char>> {
    let file = generated_file_of(name);
    match first_with_suffix(generated, file) {
        None => Err("generated TypeSpec schema "@ + file + " is missing"@),
        Some(schema) => match fixture_outcome(doc, name, authored, authored_sources) {
            Err(m) => Err(m),
            Ok(a) => match generated_outcome(doc, schema, generated_sources) {
                Err(m) => Err(m),
                Ok(errors) => {
                    let g = errors + semantic_findings(doc, name);
                    Ok(
                        if (a.len() == 0) == (g.len() == 0) {
                            None
                        } else {
                            Some(disagreement(name, a, g))
                        },
                    )
                },
            },
        },
    }
}

/// Checks a fixture named `name` against the authored schemas and the
/// TypeSpec-generated ones: the disagreement to report, if they disagree.
pub fn check_projection(
    name: &str,
    document: &Json,
    authored: &Vec<(String, Json)>,
    authored_registry: &SchemaRegistry,
    generated: &Vec<(String, Json)>,
    generated_registry: &SchemaRegistry,
) -> (res: Result<Option<String>, String>)
    ensures
        projection_view(res) == projection_outcome(
            name@,
            document@,
            entries_view(authored@),
            authored_registry.sources(),
            entries_view(generated@),
            generated_registry.sources(),
        ),
{
    let file = generated_file_for_fixture(name);
    let schema = match find_with_suffix(generated, file) {
        Some(schema) => schema,
        None => {
            let m = concat("generated TypeSpec schema ", file);
            return Err(concat(m.as_str(), " is missing"));
        },
    };
    let authored_errors = match validate_fixture(document, name, authored, authored_registry) {
        Ok(errors) => errors,
        Err(e) => return Err(e),
    };
    let mut generated_errors = match schema_instance_errors(document, schema, generated_registry) {
        Ok(errors) => errors,
        Err(e) => return Err(e),
    };
    let findings = fixture_findings(document, name);
    extend_strings(&mut generated_errors, findings);
    if (authored_errors.len() == 0) == (generated_errors.len() == 0) {
        Ok(None)
    } else {
        let a = debug_list(&authored_errors);
        let g = debug_list(&generated_errors);
        let m1 = concat(name, ": independently authored JSON Schema and generated TypeSpec schema disagree; authored=");
        let m2 = concat(m1.as_str(), a.as_str());
        let m3 = concat(m2.as_str(), ", generated=");
        Ok(Some(concat(m3.as_str(), g.as_str())))
    }
}

// ----- laws -----

/// Fixtures fail closed: one named `invalid-*` is never accepted, whether or
/// not it could be read; any other is accepted exactly when it was read and
/// nothing was found against it.
pub proof fn lemma_verdict_fails_closed(name: Seq<char>, outcome: Result<Seq<Seq<char>>, Seq<char>>)
    ensures
        must_fail(name) ==> verdict_of(name, outcome) != VerdictView::Accepted,
        !must_fail(name) ==> (verdict_of(name, outcome) == VerdictView::Accepted <==> (outcome matches Ok(
            errors,
        ) && errors.len() == 0)),
{
}

/// A fixture expected to fail that was rejected is reported with a reason
/// that was actually given: the read error, or the first error found.
pub proof fn lemma_rejection_reason(name: Seq<char>, outcome: Result<Seq<Seq<char>>, Seq<char>>)
    ensures
        verdict_of(name, outcome) matches VerdictView::Rejected(reason) ==> must_fail(name) && match outcome {
            Err(e) => reason == e,
            Ok(errors) => errors.len() > 0 && reason == errors[0],
        },
{
}

/// The two authorities agree on a fixture exactly when it has findings beyond
/// schema (then both reject it) or both schemas find errors or both find none.
pub proof fn lemma_authorities_agree(
    authored_schema_errors: Seq<Seq<char>>,
    generated_schema_errors: Seq<Seq<char>>,
    findings: Seq<Seq<char>>,
)
    ensures
        (((authored_schema_errors + findings).len() == 0) == ((generated_schema_errors + findings).len() == 0))
            <==> (findings.len() > 0 || (authored_schema_errors.len() == 0) == (
            generated_schema_errors.len() == 0)),
{
}

/// The projection check reports a disagreement exactly when one authority
/// found nothing against the fixture and the other found something: with the
/// authored outcome `a` and the generated schema's errors `e` (plus the same
/// findings beyond schema), the result is a disagreement iff `a` is empty and
/// the generated side is not, or the other way round.
pub proof fn lemma_projection_disagrees_iff_one_side_empty(
    name: Seq<char>,
    doc: JsonView,
    authored: DocsView,
    authored_sources: Map<Seq<char>, Seq<char>>,
    generated: DocsView,
    generated_sources: Map<Seq<char>, Seq<char>>,
)
    ensures
        first_with_suffix(generated, generated_file_of(name)) matches Some(schema) ==> fixture_outcome(
            doc,
            name,
            authored,
            authored_sources,
        ) matches Ok(a) ==> generated_outcome(doc, schema, generated_sources) matches Ok(e) ==> {
            let g = e + semantic_findings(doc, name);
            &&& projection_outcome(name, doc, authored, authored_sources, generated, generated_sources) is Ok
            &&& (projection_outcome(name, doc, authored, authored_sources, generated, generated_sources) matches Ok(
                Some(_),
            ) <==> (a.len() == 0 && g.len() > 0) || (a.len() > 0 && g.len() == 0))
            &&& (a.len() > 0 && g.len() == 0 ==> projection_outcome(
                name,
                doc,
                authored,
                authored_sources,
                generated,
                generated_sources,
            ) == Ok::<Option<Seq<char>>, Seq<char>>(Some(disagreement(name, a, g))))
        },
{
}

} // verus!
