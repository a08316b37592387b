//! Finding schema definitions and following `$ref` references across the
//! authored documents (keyed by file name) and the generated ones (keyed by
//! file stem).

use vstd::prelude::*;
use crate::json::{
    entries_view, lemma_entries_view, lookup, lookup_entries, opt_view, Json, JsonView,
};
use crate::text::{concat, split_once, str_split_once, str_strip_prefix, strip_prefix};

verus! {

/// The stem of a path (`Path::file_stem`), where it has one.
pub uninterp spec fn path_stem(file: Seq<char>) -> Option<Seq<char>>;

/// The file stem of `file`, where it has one.
/// Wraps `std::path::Path::file_stem`; trusted to give the same stem for the
/// same text.
#[verifier::external_body]
fn file_stem(file: &str) -> (res: Option<String>)
    ensures
        match res {
            Some(stem) => path_stem(file@) == Some(stem@),
            None => path_stem(file@) is None,
        },
{
    std::path::Path::new(file).file_stem().and_then(|stem| stem.to_str()).map(|stem| stem.to_owned())
}

/// The `$defs` entry `name` of a schema document.
pub open spec fn defs_entry(doc: JsonView, name: Seq<char>) -> Option<JsonView> {
    match doc.get_object("$defs"@) {
        Some(defs) => lookup(defs, name),
        None => None,
    }
}

/// A definition of `document`: the document itself for an empty name, else
/// its `$defs` entry.
pub open spec fn definition_of(document: JsonView, name: Seq<char>) -> Result<JsonView, Seq<char>> {
    if name.len() == 0 {
        Ok(document)
    } else {
        match defs_entry(document, name) {
            Some(v) => Ok(v),
            None => Err("missing JSON Schema definition "@ + name),
        }
    }
}

pub open spec fn result_view(r: Result<&Json, String>) -> Result<JsonView, Seq<char>> {
    match r {
        Ok(j) => Ok(j@),
        Err(e) => Err(e@),
    }
}

/// The `$defs` entry `name` of `document`.
fn defs_lookup<'a>(document: &'a Json, name: &str) -> (res: Option<&'a Json>)
    ensures
        opt_view(res) == defs_entry(document@, name@),
{
    match document.get_object("$defs") {
        Some(defs) => lookup_entries(defs, name),
        None => None,
    }
}

/// The definition `name` of `document` (the whole document for an empty name).
pub fn definition<'a>(document: &'a Json, name: &str) -> (res: Result<&'a Json, String>)
    ensures
        result_view(res) == definition_of(document@, name@),
{
    if name.is_empty() {
        return Ok(document);
    }
    match defs_lookup(document, name) {
        Some(v) => Ok(v),
        None => Err(concat("missing JSON Schema definition ", name)),
    }
}

/// A reference split at its first `#`: the file, and the fragment if any.
pub fn ref_parts(reference: &str) -> (res: (String, Option<String>))
    ensures
        (res.0@, match res.1 {
            Some(t) => Some(t@),
            None => None,
        }) == split_once(reference@, '#'),
{
    str_split_once(reference, '#')
}

/// The definitions named `name` in the documents, in document order.
pub open spec fn local_candidates(docs: Seq<(Seq<char>, JsonView)>, name: Seq<char>) -> Seq<JsonView>
    decreases docs.len(),
{
    if docs.len() == 0 {
        Seq::empty()
    } else {
        let rest = local_candidates(docs.drop_last(), name);
        match defs_entry(docs.last().1, name) {
            Some(v) => rest.push(v),
            None => rest,
        }
    }
}

/// The document a reference's file names: an authored document by that file
/// name, else a generated document by its stem (the whole file name where it
/// has no stem).
pub open spec fn document_for(
    file: Seq<char>,
    authored: Seq<(Seq<char>, JsonView)>,
    generated: Seq<(Seq<char>, JsonView)>,
) -> Option<JsonView> {
    match lookup(authored, file) {
        Some(d) => Some(d),
        None => lookup(
            generated,
            match path_stem(file) {
                Some(stem) => stem,
                None => file,
            },
        ),
    }
}

/// What a `$ref` resolves to: a local `#/$defs/name` reference to the one
/// authored document that defines `name`; otherwise the named document, or its
/// `$defs` entry for a `#/$defs/name` fragment.
pub open spec fn resolved(
    value: JsonView,
    authored: Seq<(Seq<char>, JsonView)>,
    generated: Seq<(Seq<char>, JsonView)>,
) -> Result<JsonView, Seq<char>> {
    match value.get_str("$ref"@) {
        None => Err("schema reference is not a string"@),
        Some(reference) => {
            let (file, fragment) = split_once(reference, '#');
            if file.len() == 0 {
                match (match fragment {
                    Some(f) => strip_prefix(f, "/$defs/"@),
                    None => None,
                }) {
                    None => Err("unsupported local schema reference "@ + reference),
                    Some(name) => {
                        let c = local_candidates(authored, name);
                        if c.len() == 0 {
                            Err("unresolved schema definition "@ + reference)
                        } else if c.len() >= 2 {
                            Err(
                                "ambiguous local schema definition "@ + reference
                                    + "; qualify the reference"@,
                            )
                        } else {
                            Ok(c[0])
                        }
                    },
                }
            } else {
                match document_for(file, authored, generated) {
                    None => Err("unresolved schema reference "@ + reference),
                    Some(doc) => match fragment {
                        None => Ok(doc),
                        Some(f) => match strip_prefix(f, "/$defs/"@) {
                            None => Err("unsupported schema fragment "@ + f),
                            Some(name) => match defs_entry(doc, name) {
                                Some(v) => Ok(v),
                                None => Err("unresolved schema definition "@ + reference),
                            },
                        },
                    },
                }
            }
        },
    }
}

/// The only local definition `name` among the authored documents, or why
/// there is none.
fn local_definition<'a>(authored: &'a Vec<(String, Json)>, name: &str, reference: &str) -> (res: Result<
    &'a Json,
    String,
>)
    ensures
        result_view(res) == ({
            let c = local_candidates(entries_view(authored@), name@);
            if c.len() == 0 {
                Err("unresolved schema definition "@ + reference@)
            } else if c.len() >= 2 {
                Err("ambiguous local schema definition "@ + reference@ + "; qualify the reference"@)
            } else {
                Ok(c[0])
            }
        }),
{
    let ghost docs = entries_view(authored@);
    let mut first: Option<&'a Json> = None;
    let mut i: usize = 0;
    proof {
        lemma_entries_view(authored@);
    }
    assert(docs.take(0) =~= Seq::<(Seq<char>, JsonView)>::empty());
    while i < authored.len()
        invariant
            i <= authored@.len(),
            docs == entries_view(authored@),
            docs.len() == authored@.len(),
            local_candidates(docs.take(i as int), name@).len() <= 1,
            match first {
                Some(f) => local_candidates(docs.take(i as int), name@) == seq![f@],
                None => local_candidates(docs.take(i as int), name@).len() == 0,
            },
        decreases authored.len() - i,
    {
        proof {
            lemma_entries_view(authored@);
        }
        assert(docs.take(i + 1).drop_last() =~= docs.take(i as int));
        assert(docs.take(i + 1).last() == docs[i as int]);
        match defs_lookup(&authored[i].1, name) {
            Some(v) => {
                if first.is_some() {
                    let ghost c = local_candidates(docs.take(i + 1), name@);
                    assert(c.len() == 2);
                    proof {
                        lemma_candidates_grow(docs, name@, i + 1);
                    }
                    return Err(concat(
                        concat("ambiguous local schema definition ", reference).as_str(),
                        "; qualify the reference",
                    ));
                }
                first = Some(v);
            },
            None => {},
        }
        i = i + 1;
    }
    assert(docs.take(authored@.len() as int) =~= docs);
    match first {
        Some(f) => Ok(f),
        None => Err(concat("unresolved schema definition ", reference)),
    }
}

/// Lemma: the candidates of a longer prefix are at least as many.
proof fn lemma_candidates_grow(docs: Seq<(Seq<char>, JsonView)>, name: Seq<char>, m: int)
    requires
        0 <= m <= docs.len(),
    ensures
        local_candidates(docs, name).len() >= local_candidates(docs.take(m), name).len(),
    decreases docs.len() - m,
{
    if m < docs.len() {
        assert(docs.take(m + 1).drop_last() =~= docs.take(m));
        lemma_candidates_grow(docs, name, m + 1);
    } else {
        assert(docs.take(m) =~= docs);
    }
}

/// What the `$ref` of `value` resolves to, among the authored and generated
/// documents.
pub fn resolve_ref<'a>(
    value: &'a Json,
    authored: &'a Vec<(String, Json)>,
    generated: &'a Vec<(String, Json)>,
) -> (res: Result<&'a Json, String>)
    ensures
        result_view(res) == resolved(value@, entries_view(authored@), entries_view(generated@)),
{
    let reference = match value.get_str("$ref") {
        Some(r) => r,
        None => return Err(String::from_str("schema reference is not a string")),
    };
    let (file, fragment) = ref_parts(reference);
    if file.as_str().is_empty() {
        let name = match &fragment {
            Some(f) => str_strip_prefix(f.as_str(), "/$defs/"),
            None => None,
        };
        let name = match name {
            Some(n) => n,
            None => return Err(concat("unsupported local schema reference ", reference)),
        };
        return local_definition(authored, name.as_str(), reference);
    }
    let document = match lookup_entries(authored, file.as_str()) {
        Some(d) => Some(d),
        None => {
            match file_stem(file.as_str()) {
                Some(stem) => lookup_entries(generated, stem.as_str()),
                None => lookup_entries(generated, file.as_str()),
            }
        },
    };
    let document = match document {
        Some(d) => d,
        None => return Err(concat("unresolved schema reference ", reference)),
    };
    match fragment {
        None => Ok(document),
        Some(f) => {
            let name = match str_strip_prefix(f.as_str(), "/$defs/") {
                Some(n) => n,
                None => return Err(concat("unsupported schema fragment ", f.as_str())),
            };
            match defs_lookup(document, name.as_str()) {
                Some(v) => Ok(v),
                None => Err(concat("unresolved schema definition ", reference)),
            }
        },
    }
}

} // verus!
