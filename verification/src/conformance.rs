//! The conformance check: fixtures validated against the authored JSON Schema
//! (Draft 2020-12, formats checked) and the rules schema cannot express;
//! fixtures named `invalid-*` must be rejected and all others accepted; and,
//! optionally, the same verdicts from the TypeSpec-generated schemas.

use vstd::prelude::*;
use crate::canonical::{canonical, canonical_text};
use crate::fixtures::{definition_of, fixture_definition, kind_of, semantic_kind};
use crate::invariants::{descriptor_findings, descriptor_invariants, realtime_findings, realtime_invariants};
use crate::json::{
    clone_json, entries_view, lemma_entries_view, map_insert, object_insert, Json, JsonView,
};
use crate::shape::DocsView;
use crate::text::{
    concat, debug_quoted, debug_text, has_prefix, has_suffix, lemma_strings_view_push, str_ends_with,
    strings_view,
};
use jsonschema::{Draft, Registry, RegistryBuilder};
use serde_json::Value;

verus! {

/// The base URI of the authored schemas.
pub const SCHEMA_BASE: &'static str = "https://agent-pontifex.github.io/schemas/";

// ----- the validator -----

#[verifier::external_type_specification]
#[verifier::external_body]
pub struct ExRegistryBuilder<'a>(jsonschema::RegistryBuilder<'a>);

#[verifier::external_type_specification]
#[verifier::external_body]
pub struct ExRegistry<'a>(jsonschema::Registry<'a>);

/// Whether a JSON text is a schema that the Draft 2020-12 meta-schema accepts.
pub uninterp spec fn meta_schema_valid(schema_text: Seq<char>) -> bool;

/// Whether `schema_text` is a valid Draft 2020-12 schema.
/// Parses the text with `serde_json::from_str` and calls
/// `jsonschema::draft202012::meta::is_valid` on it (text that does not parse
/// is not valid); trusted to give the same answer for the same text.
#[verifier::external_body]
fn is_valid_schema_text(schema_text: &str) -> (res: bool)
    ensures
        res == meta_schema_valid(schema_text@),
{
    match serde_json::from_str::<Value>(schema_text) {
        Ok(schema) => jsonschema::draft202012::meta::is_valid(&schema),
        Err(_) => false,
    }
}

/// The text of the URI under which a resource added with `id` is kept: what
/// `referencing::uri::from_str` makes of `id` without its trailing `#`s.
pub uninterp spec fn resource_key(id: Seq<char>) -> Seq<char>;

/// The resources of a registry builder: each schema's JSON text, under the
/// URI it is kept by.
pub uninterp spec fn builder_resources(builder: RegistryBuilder<'static>) -> Map<Seq<char>, Seq<char>>;

/// The resources a prepared registry holds: each schema's JSON text, under
/// the URI it is kept by.
pub uninterp spec fn registry_resources(registry: Registry<'static>) -> Map<Seq<char>, Seq<char>>;

/// No resources.
pub open spec fn no_resources() -> Map<Seq<char>, Seq<char>> {
    Map::empty()
}

/// An empty registry builder (`jsonschema::Registry::new`).
#[verifier::external_body]
fn new_builder() -> (res: RegistryBuilder<'static>)
    ensures
        builder_resources(res) == no_resources(),
{
    Registry::new()
}

/// Whether a schema text parses as JSON and can be added under `id`.
pub uninterp spec fn resource_addable(id: Seq<char>, schema_text: Seq<char>) -> bool;

/// Why a schema text cannot be added under `id`: the text of the outside error.
pub uninterp spec fn add_failure_text(id: Seq<char>, schema_text: Seq<char>) -> Seq<char>;

/// Adds the schema `schema_text` under `id`: parses the text
/// (`serde_json::from_str`) and calls `jsonschema::RegistryBuilder::add`,
/// which parses `id` as a URI (refusing an invalid one) and inserts the
/// resource into its map under that URI, replacing any resource kept there.
/// Trusted to succeed or fail, and to give the same message, alike for the
/// same id and text.
#[verifier::external_body]
fn add_resource(builder: RegistryBuilder<'static>, id: &str, schema_text: &str) -> (res: Result<
    RegistryBuilder<'static>,
    String,
>)
    ensures
        res is Ok <==> resource_addable(id@, schema_text@),
        res matches Ok(b) ==> builder_resources(b) == builder_resources(builder).insert(
            resource_key(id@),
            schema_text@,
        ),
        res matches Err(m) ==> m@ == add_failure_text(id@, schema_text@),
{
    let schema = serde_json::from_str::<Value>(schema_text).map_err(|error| error.to_string())?;
    builder.add(id, schema).map_err(|error| error.to_string())
}

/// Whether a registry of these resources can be prepared.
pub uninterp spec fn registry_prepares(resources: Map<Seq<char>, Seq<char>>) -> bool;

/// Prepares the registry (`jsonschema::RegistryBuilder::prepare`), which
/// indexes the resources and fetches nothing.  Trusted to succeed or fail
/// alike for the same resources, and to hold the resources it was built
/// from.  Its message on failure is left unsaid: it names the first resource
/// that fails in the order of a hash map, which is seeded per process.
#[verifier::external_body]
fn prepare_registry(builder: RegistryBuilder<'static>) -> (res: Result<Registry<'static>, String>)
    ensures
        res is Ok <==> registry_prepares(builder_resources(builder)),
        res matches Ok(r) ==> registry_resources(r) == builder_resources(builder),
{
    builder.prepare().map_err(|error| error.to_string())
}

/// Whether a validator for the schema builds, with the resources registered,
/// and validation runs on the document.
pub uninterp spec fn validation_runs(
    document_text: Seq<char>,
    schema_text: Seq<char>,
    sources: Map<Seq<char>, Seq<char>>,
    base_uri: Seq<char>,
    draft: SchemaDraft,
    check_formats: bool,
) -> bool;

/// The texts of the errors found validating the document against the schema,
/// in the order the validator reports them.
pub uninterp spec fn validation_error_texts(
    document_text: Seq<char>,
    schema_text: Seq<char>,
    sources: Map<Seq<char>, Seq<char>>,
    base_uri: Seq<char>,
    draft: SchemaDraft,
    check_formats: bool,
) -> Seq<Seq<char>>;

/// Why validation does not run: the text of the outside error.
pub uninterp spec fn validation_failure_text(
    document_text: Seq<char>,
    schema_text: Seq<char>,
    sources: Map<Seq<char>, Seq<char>>,
    base_uri: Seq<char>,
    draft: SchemaDraft,
    check_formats: bool,
) -> Seq<char>;

/// A JSON Schema draft that a validator can be built for.
pub enum SchemaDraft {
    Draft4,
    Draft6,
    Draft7,
    Draft201909,
    Draft202012,
}

/// The errors of validating a document against a schema.
/// Parses the texts (`serde_json::from_str`), builds a validator for `draft`,
/// checking formats when `check_formats` holds, with the registry and the
/// base URI (`jsonschema::options()...build`), and renders each error of
/// `Validator::iter_errors` as text.  Nothing is fetched: the crate is built
/// without its retrieval features.  Trusted to run or fail, to report the same
/// errors in the same order, and to give the same message on failure, alike
/// for the same arguments.
#[verifier::external_body]
fn validation_errors(
    document_text: &str,
    schema_text: &str,
    registry: &Registry<'static>,
    base_uri: &str,
    draft: SchemaDraft,
    check_formats: bool,
) -> (res: Result<Vec<String>, String>)
    ensures
        res is Ok <==> validation_runs(
            document_text@,
            schema_text@,
            registry_resources(*registry),
            base_uri@,
            draft,
            check_formats,
        ),
        res matches Ok(errors) ==> strings_view(errors@) == validation_error_texts(
            document_text@,
            schema_text@,
            registry_resources(*registry),
            base_uri@,
            draft,
            check_formats,
        ),
        res matches Err(m) ==> m@ == validation_failure_text(
            document_text@,
            schema_text@,
            registry_resources(*registry),
            base_uri@,
            draft,
            check_formats,
        ),
{
    let draft = match draft {
        SchemaDraft::Draft4 => Draft::Draft4,
        SchemaDraft::Draft6 => Draft::Draft6,
        SchemaDraft::Draft7 => Draft::Draft7,
        SchemaDraft::Draft201909 => Draft::Draft201909,
        SchemaDraft::Draft202012 => Draft::Draft202012,
    };
    let schema = serde_json::from_str::<Value>(schema_text).map_err(|error| error.to_string())?;
    let document = serde_json::from_str::<Value>(document_text).map_err(|error| error.to_string())?;
    let validator = jsonschema::options().with_draft(draft).with_registry(registry)
        .with_base_uri(base_uri).should_validate_formats(check_formats).build(&schema)
        .map_err(|error| error.to_string())?;
    Ok(validator.iter_errors(&document).map(|error| error.to_string()).collect())
}

// ----- registries -----

/// A prepared registry of schema resources.
pub struct SchemaRegistry {
    registry: Registry<'static>,
}

impl SchemaRegistry {
    /// The resources registered: each schema's JSON text, under the URI it is
    /// kept by.
    pub closed spec fn sources(&self) -> Map<Seq<char>, Seq<char>> {
        registry_resources(self.registry)
    }
}

/// The resources of a registry built from schema documents, added in order:
/// each schema's compact text under its id's URI, a later one replacing an
/// earlier one kept under the same URI.
pub open spec fn registry_sources(resources: DocsView) -> Map<Seq<char>, Seq<char>>
    decreases resources.len(),
{
    if resources.len() == 0 {
        no_resources()
    } else {
        registry_sources(resources.drop_last()).insert(
            resource_key(resources.last().0),
            canonical_text(resources.last().1),
        )
    }
}

/// Every resource can be added.
pub open spec fn all_addable(resources: DocsView) -> bool {
    forall|i: int|
        0 <= i < resources.len() ==> #[trigger] resource_addable(resources[i].0, canonical_text(resources[i].1))
}

/// The message when the resource `id` with schema text `text` cannot be added.
pub open spec fn register_message(id: Seq<char>, text: Seq<char>) -> Seq<char> {
    "failed registering "@ + id + ": "@ + add_failure_text(id, text)
}

/// A registry of the resources (id and schema), as the validator sees them:
/// refused at the first resource that cannot be added, or when the registry
/// cannot be prepared.
pub fn build_registry(resources: &Vec<(String, Json)>) -> (res: Result<SchemaRegistry, String>)
    ensures
        res is Ok <==> all_addable(entries_view(resources@)) && registry_prepares(
            registry_sources(entries_view(resources@)),
        ),
        res matches Ok(r) ==> r.sources() == registry_sources(entries_view(resources@)),
        res matches Err(m) ==> if all_addable(entries_view(resources@)) {
            has_prefix(m@, "failed preparing schema registry: "@)
        } else {
            exists|i: int|
                0 <= i < resources@.len() && !resource_addable(
                    entries_view(resources@)[i].0,
                    canonical_text(entries_view(resources@)[i].1),
                ) && all_addable(entries_view(resources@).take(i)) && m@ == register_message(
                    entries_view(resources@)[i].0,
                    canonical_text(entries_view(resources@)[i].1),
                )
        },
{
    let ghost rv = entries_view(resources@);
    let mut builder = new_builder();
    let mut i: usize = 0;
    proof {
        lemma_entries_view(resources@);
        assert(rv.take(0) =~= Seq::<(Seq<char>, JsonView)>::empty());
    }
    while i < resources.len()
        invariant
            i <= resources@.len(),
            rv == entries_view(resources@),
            rv.len() == resources@.len(),
            builder_resources(builder) == registry_sources(rv.take(i as int)),
            all_addable(rv.take(i as int)),
        decreases resources.len() - i,
    {
        proof {
            lemma_entries_view(resources@);
        }
        let text = canonical(&resources[i].1);
        let id = resources[i].0.as_str();
        assert(rv[i as int].0 == id@ && canonical_text(rv[i as int].1) == text@);
        match add_resource(builder, id, text.as_str()) {
            Ok(b) => {
                builder = b;
                assert(rv.take(i + 1).drop_last() =~= rv.take(i as int));
                assert(rv.take(i + 1).last() == rv[i as int]);
                assert forall|j: int| 0 <= j < i + 1 implies #[trigger] resource_addable(
                    rv.take(i + 1)[j].0,
                    canonical_text(rv.take(i + 1)[j].1),
                ) by {
                    if j < i {
                        assert(rv.take(i + 1)[j] == rv.take(i as int)[j]);
                    }
                }
            },
            Err(message) => {
                let m1 = concat("failed registering ", id);
                let m2 = concat(m1.as_str(), ": ");
                let m = concat(m2.as_str(), message.as_str());
                proof {
                    assert(!resource_addable(rv[i as int].0, canonical_text(rv[i as int].1)));
                    assert(!all_addable(rv));
                    assert(rv.take(i as int) =~= entries_view(resources@).take(i as int));
                }
                return Err(m);
            },
        }
        i = i + 1;
    }
    assert(rv.take(resources@.len() as int) =~= rv);
    match prepare_registry(builder) {
        Ok(registry) => Ok(SchemaRegistry { registry }),
        Err(message) => {
            let m = concat("failed preparing schema registry: ", message.as_str());
            proof {
                reveal_strlit("failed preparing schema registry: ");
                assert(m@.take("failed preparing schema registry: "@.len() as int)
                    =~= "failed preparing schema registry: "@);
            }
            Err(m)
        },
    }
}

// ----- schema resources -----

pub open spec fn field_message(field: Seq<char>) -> Seq<char> {
    "schema field "@ + debug_text(field) + " must be a string"@
}

/// The string at `field` of a schema, or why there is none.
pub fn string_field<'a>(value: &'a Json, field: &str) -> (res: Result<&'a str, String>)
    ensures
        match res {
            Ok(s) => value@.get_str(field@) == Some(s@),
            Err(m) => value@.get_str(field@) is None && m@ == field_message(field@),
        },
{
    match value.get_str(field) {
        Some(s) => Ok(s),
        None => {
            let q = debug_quoted(field);
            let m1 = concat("schema field ", q.as_str());
            Err(concat(m1.as_str(), " must be a string"))
        },
    }
}

pub open spec fn resource_view(r: Result<(String, Json), String>) -> Result<(Seq<char>, JsonView), Seq<char>> {
    match r {
        Ok((i, s)) => Ok((i@, s@)),
        Err(m) => Err(m@),
    }
}

/// An authored schema as a resource: keyed by its `$id`; refused when the
/// Draft 2020-12 meta-schema does not accept it, or its `$id` is no string.
pub open spec fn authored_resource(display: Seq<char>, schema: JsonView) -> Result<(Seq<char>, JsonView), Seq<char>> {
    if !meta_schema_valid(canonical_text(schema)) {
        Err(display + " is not a valid Draft 2020-12 schema"@)
    } else {
        match schema.get_str("$id"@) {
            Some(id) => Ok((id, schema)),
            None => Err(field_message("$id"@)),
        }
    }
}

/// A generated schema as a resource: keyed by the base URI and its file name,
/// with that `$id` written into it; refused when the Draft 2020-12
/// meta-schema does not accept it, or it is not an object.
pub open spec fn generated_resource_of(display: Seq<char>, file_name: Seq<char>, schema: JsonView) -> Result<
    (Seq<char>, JsonView),
    Seq<char>,
> {
    if !meta_schema_valid(canonical_text(schema)) {
        Err("generated "@ + display + " is not a valid Draft 2020-12 schema"@)
    } else {
        let id = SCHEMA_BASE@ + file_name;
        match schema {
            JsonView::Object(entries) => Ok((id, JsonView::Object(map_insert(entries, "$id"@, JsonView::Str(id))))),
            _ => Err("generated "@ + file_name + " must be an object schema"@),
        }
    }
}

/// An authored schema read from `display`, as a resource keyed by its `$id`.
pub fn schema_resource(display: &str, schema: Json) -> (res: Result<(String, Json), String>)
    ensures
        resource_view(res) == authored_resource(display@, schema@),
{
    let text = canonical(&schema);
    if !is_valid_schema_text(text.as_str()) {
        return Err(concat(display, " is not a valid Draft 2020-12 schema"));
    }
    let id = match string_field(&schema, "$id") {
        Ok(id) => String::from_str(id),
        Err(e) => return Err(e),
    };
    Ok((id, schema))
}

/// A generated schema read from `display` (file name `file_name`), as a
/// resource keyed by the base URI and its file name.
pub fn generated_resource(display: &str, file_name: &str, schema: Json) -> (res: Result<
    (String, Json),
    String,
>)
    ensures
        resource_view(res) == generated_resource_of(display@, file_name@, schema@),
{
    let text = canonical(&schema);
    if !is_valid_schema_text(text.as_str()) {
        let m = concat("generated ", display);
        return Err(concat(m.as_str(), " is not a valid Draft 2020-12 schema"));
    }
    let id = concat(SCHEMA_BASE, file_name);
    match schema {
        Json::Object(mut entries) => {
            let value = Json::Str(id.clone());
            object_insert(&mut entries, String::from_str("$id"), value);
            Ok((id, Json::Object(entries)))
        },
        _ => {
            let m = concat("generated ", file_name);
            Err(concat(m.as_str(), " must be an object schema"))
        },
    }
}


// ----- validating fixtures -----

/// The schema that refers a fixture to a definition of a schema file:
/// `{"$schema": Draft 2020-12, "$id": <base><name>.fixture.json, "$ref": <file>#/$defs/<definition>}`.
pub open spec fn definition_schema(name: Seq<char>, file: Seq<char>, def: Seq<char>) -> JsonView {
    JsonView::Object(
        map_insert(
            map_insert(
                map_insert(
                    Seq::empty(),
                    "$schema"@,
                    JsonView::Str("https://json-schema.org/draft/2020-12/schema"@),
                ),
                "$id"@,
                JsonView::Str(SCHEMA_BASE@ + name + ".fixture.json"@),
            ),
            "$ref"@,
            JsonView::Str(file + "#/$defs/"@ + def),
        ),
    )
}

/// The first resource whose id ends with `suffix`.
pub open spec fn first_with_suffix(resources: DocsView, suffix: Seq<char>) -> Option<JsonView>
    decreases resources.len(),
{
    if resources.len() == 0 {
        None
    } else if has_suffix(resources[0].0, suffix) {
        Some(resources[0].1)
    } else {
        first_with_suffix(resources.drop_first(), suffix)
    }
}

/// The schema a fixture is validated against: a reference to its definition,
/// or the service-descriptor schema itself.
pub open spec fn fixture_schema(name: Seq<char>, resources: DocsView) -> Result<JsonView, Seq<char>> {
    match definition_of(name) {
        Some((file, def)) => Ok(definition_schema(name, file, def)),
        None => match first_with_suffix(resources, "service-descriptor.schema.json"@) {
            Some(v) => Ok(v),
            None => Err("service-descriptor.schema.json is missing"@),
        },
    }
}

/// The findings beyond schema on a fixture named `name`.
pub open spec fn semantic_findings(doc: JsonView, name: Seq<char>) -> Seq<Seq<char>> {
    let kind = kind_of(name);
    if kind == "service-descriptor"@ {
        descriptor_findings(doc)
    } else {
        realtime_findings(doc, kind)
    }
}

/// The first resource whose id ends with `suffix`.
pub(crate) fn find_with_suffix<'a>(resources: &'a Vec<(String, Json)>, suffix: &str) -> (res: Option<&'a Json>)
    ensures
        match res {
            Some(v) => first_with_suffix(entries_view(resources@), suffix@) == Some(v@),
            None => first_with_suffix(entries_view(resources@), suffix@) is None,
        },
{
    let ghost rv = entries_view(resources@);
    let mut i: usize = 0;
    proof {
        lemma_entries_view(resources@);
        assert(rv.skip(0) =~= rv);
    }
    while i < resources.len()
        invariant
            i <= resources@.len(),
            rv == entries_view(resources@),
            rv.len() == resources@.len(),
            first_with_suffix(rv, suffix@) == first_with_suffix(rv.skip(i as int), suffix@),
        decreases resources.len() - i,
    {
        proof {
            lemma_entries_view(resources@);
            assert(rv.skip(i as int)[0] == rv[i as int]);
            assert(rv.skip(i as int).drop_first() =~= rv.skip(i + 1));
        }
        if str_ends_with(resources[i].0.as_str(), suffix) {
            return Some(&resources[i].1);
        }
        i = i + 1;
    }
    None
}

/// The schema for a fixture named `name` with the definition `file`/`def`.
fn definition_schema_of(name: &str, file: &str, def: &str) -> (res: Json)
    ensures
        res@ == definition_schema(name@, file@, def@),
{
    let mut entries: Vec<(String, Json)> = Vec::new();
    proof {
        lemma_entries_view(entries@);
        assert(entries_view(entries@) =~= Seq::<(Seq<char>, JsonView)>::empty());
    }
    object_insert(
        &mut entries,
        String::from_str("$schema"),
        Json::Str(String::from_str("https://json-schema.org/draft/2020-12/schema")),
    );
    let id1 = concat(SCHEMA_BASE, name);
    let id = concat(id1.as_str(), ".fixture.json");
    object_insert(&mut entries, String::from_str("$id"), Json::Str(id));
    let r1 = concat(file, "#/$defs/");
    let r = concat(r1.as_str(), def);
    object_insert(&mut entries, String::from_str("$ref"), Json::Str(r));
    Json::Object(entries)
}

/// The schema a fixture named `name` is validated against.
fn schema_for_fixture(name: &str, resources: &Vec<(String, Json)>) -> (res: Result<Json, String>)
    ensures
        match res {
            Ok(s) => fixture_schema(name@, entries_view(resources@)) == Ok::<JsonView, Seq<char>>(s@),
            Err(e) => fixture_schema(name@, entries_view(resources@)) == Err::<JsonView, Seq<char>>(e@),
        },
{
    match fixture_definition(name) {
        Some((file, def)) => Ok(definition_schema_of(name, file, def)),
        None => match find_with_suffix(resources, "service-descriptor.schema.json") {
            Some(v) => Ok(clone_json(v)),
            None => Err(String::from_str("service-descriptor.schema.json is missing")),
        },
    }
}

/// The findings beyond schema on a fixture named `name`.
pub(crate) fn fixture_findings(document: &Json, name: &str) -> (res: Vec<String>)
    ensures
        strings_view(res@) == semantic_findings(document@, name@),
{
    let kind = semantic_kind(name);
    if crate::text::str_eq(kind, "service-descriptor") {
        descriptor_invariants(document)
    } else {
        realtime_invariants(document, kind)
    }
}

/// `errors` followed by `more`.
pub(crate) fn extend_strings(errors: &mut Vec<String>, more: Vec<String>)
    ensures
        strings_view(final(errors)@) == strings_view(old(errors)@) + strings_view(more@),
{
    let ghost start = strings_view(errors@);
    let mut i: usize = 0;
    while i < more.len()
        invariant
            i <= more@.len(),
            strings_view(errors@) == start + strings_view(more@).take(i as int),
        decreases more.len() - i,
    {
        proof {
            lemma_strings_view_push(errors@, more@[i as int]);
        }
        errors.push(more[i].clone());
        assert(strings_view(more@).take(i + 1) =~= strings_view(more@).take(i as int).push(more@[i as int]@));
        i = i + 1;
    }
    assert(strings_view(more@).take(more@.len() as int) =~= strings_view(more@));
}

/// What validating a document against a schema gives, with the resources
/// `sources` registered: a Draft 2020-12 validator with format checks and
/// the base URI of the authored schemas; the errors found, or why validation
/// does not run.
pub open spec fn schema_outcome(doc: JsonView, schema: JsonView, sources: Map<Seq<char>, Seq<char>>) -> Result<
    Seq<Seq<char>>,
    Seq<char>,
> {
    let d = canonical_text(doc);
    let s = canonical_text(schema);
    if validation_runs(d, s, sources, SCHEMA_BASE@, SchemaDraft::Draft202012, true) {
        Ok(validation_error_texts(d, s, sources, SCHEMA_BASE@, SchemaDraft::Draft202012, true))
    } else {
        Err(validation_failure_text(d, s, sources, SCHEMA_BASE@, SchemaDraft::Draft202012, true))
    }
}

/// What validating a fixture named `name` gives: refused when its schema
/// cannot be found or the validator does not run; otherwise the schema errors
/// followed by the findings beyond schema.
pub open spec fn fixture_outcome(
    doc: JsonView,
    name: Seq<char>,
    resources: DocsView,
    sources: Map<Seq<char>, Seq<char>>,
) -> Result<Seq<Seq<char>>, Seq<char>> {
    match fixture_schema(name, resources) {
        Err(e) => Err(e),
        Ok(schema) => match schema_outcome(doc, schema, sources) {
            Err(m) => Err("invalid validator for "@ + name + ": "@ + m),
            Ok(errors) => Ok(errors + semantic_findings(doc, name)),
        },
    }
}

pub open spec fn errors_view(r: Result<Vec<String>, String>) -> Result<Seq<Seq<char>>, Seq<char>> {
    match r {
        Ok(v) => Ok(strings_view(v@)),
        Err(e) => Err(e@),
    }
}

/// Validates a fixture named `name` against its authored schema: the schema
/// errors, then the findings beyond schema (none when it conforms).
pub fn validate_fixture(
    document: &Json,
    name: &str,
    resources: &Vec<(String, Json)>,
    registry: &SchemaRegistry,
) -> (res: Result<Vec<String>, String>)
    ensures
        errors_view(res) == fixture_outcome(document@, name@, entries_view(resources@), registry.sources()),
{
    let schema = match schema_for_fixture(name, resources) {
        Ok(s) => s,
        Err(e) => return Err(e),
    };
    let document_text = canonical(document);
    let schema_text = canonical(&schema);
    let mut errors = match validation_errors(document_text.as_str(), schema_text.as_str(), &registry.registry, SCHEMA_BASE, SchemaDraft::Draft202012, true) {
        Ok(errors) => errors,
        Err(error) => {
            let m1 = concat("invalid validator for ", name);
            let m2 = concat(m1.as_str(), ": ");
            return Err(concat(m2.as_str(), error.as_str()));
        },
    };
    let findings = fixture_findings(document, name);
    extend_strings(&mut errors, findings);
    Ok(errors)
}

/// What validating a document against a generated schema gives: the errors
/// found, or why the schema could not compile.
pub open spec fn generated_outcome(doc: JsonView, schema: JsonView, sources: Map<Seq<char>, Seq<char>>) -> Result<
    Seq<Seq<char>>,
    Seq<char>,
> {
    match schema_outcome(doc, schema, sources) {
        Err(m) => Err("generated schema could not compile: "@ + m),
        Ok(errors) => Ok(errors),
    }
}

/// The errors of validating `document` against a generated `schema`.
pub fn schema_instance_errors(document: &Json, schema: &Json, registry: &SchemaRegistry) -> (res: Result<
    Vec<String>,
    String,
>)
    ensures
        errors_view(res) == generated_outcome(document@, schema@, registry.sources()),
{
    let document_text = canonical(document);
    let schema_text = canonical(schema);
    match validation_errors(document_text.as_str(), schema_text.as_str(), &registry.registry, SCHEMA_BASE, SchemaDraft::Draft202012, true) {
        Ok(errors) => Ok(errors),
        Err(error) => Err(concat("generated schema could not compile: ", error.as_str())),
    }
}

} // verus!
