//! The wire shape of a schema: its enum values, scalar constraints, and the
//! structure of objects, arrays and unions, rendered as text so that an
//! authored schema and a generated one can be compared.
//!
//! `$ref` chains are followed; a reference already being followed on the
//! current path renders as `recursive`.  Enum values are followed through
//! `anyOf`/`oneOf` members without such a guard, so on a cycle of references
//! there they do not come back: the recursive functions here are defined with
//! a depth budget (`fuel`), and the public functions ask that some budget
//! suffices, which is exactly when the computation terminates.

use vstd::prelude::*;
use crate::canonical::{canonical, canonical_text};
use crate::json::{
    clone_json, entries_view, items_view, lemma_entries_view, lemma_items_view, lookup, map_insert,
    object_insert, Json, JsonView,
};
use crate::order::{dedup, dedup_strings, lemma_sorted_dedup, lemma_str_order_total, sort_strings, sorted_strings, str_order};
use vstd::relations::sorted_by;
use crate::refs::{resolve_ref, resolved, result_view};
use crate::text::{
    clone_strings, concat, debug_list, debug_list_text, join, join_strings, lemma_strings_view_push, str_eq,
    strings_contain, strings_view, strs_view,
};

verus! {

broadcast use {crate::json::group_json_view};

pub type DocsView = Seq<(Seq<char>, JsonView)>;

/// The keys that `allOf` members contribute to a merged constraint.
pub open spec fn merge_key_list() -> Seq<Seq<char>> {
    seq![
        "type"@,
        "minLength"@,
        "maxLength"@,
        "pattern"@,
        "format"@,
        "minimum"@,
        "maximum"@,
        "exclusiveMinimum"@,
        "exclusiveMaximum"@,
    ]
}

/// The keys that make up a scalar constraint.
pub open spec fn scalar_key_list() -> Seq<Seq<char>> {
    seq![
        "type"@,
        "const"@,
        "minLength"@,
        "maxLength"@,
        "pattern"@,
        "format"@,
        "minimum"@,
        "maximum"@,
        "exclusiveMinimum"@,
        "exclusiveMaximum"@,
        "maxItems"@,
        "minItems"@,
    ]
}

/// The constraints of an array shape, in the order they are listed.
pub open spec fn array_key_list() -> Seq<Seq<char>> {
    seq!["minItems"@, "maxItems"@, "uniqueItems"@]
}

fn merge_keys() -> (res: Vec<&'static str>)
    ensures
        strs_view(res@) == merge_key_list(),
{
    let v = vec![
        "type",
        "minLength",
        "maxLength",
        "pattern",
        "format",
        "minimum",
        "maximum",
        "exclusiveMinimum",
        "exclusiveMaximum",
    ];
    assert(strs_view(v@) =~= merge_key_list());
    v
}

fn scalar_keys() -> (res: Vec<&'static str>)
    ensures
        strs_view(res@) == scalar_key_list(),
{
    let v = vec![
        "type",
        "const",
        "minLength",
        "maxLength",
        "pattern",
        "format",
        "minimum",
        "maximum",
        "exclusiveMinimum",
        "exclusiveMaximum",
        "maxItems",
        "minItems",
    ];
    assert(strs_view(v@) =~= scalar_key_list());
    v
}

fn array_keys() -> (res: Vec<&'static str>)
    ensures
        strs_view(res@) == array_key_list(),
{
    let v = vec!["minItems", "maxItems", "uniqueItems"];
    assert(strs_view(v@) =~= array_key_list());
    v
}

/// `map` with each of `keys` that `member` has inserted, in turn, with the
/// member's value.
pub open spec fn insert_present(map: DocsView, member: JsonView, keys: Seq<Seq<char>>) -> DocsView
    decreases keys.len(),
{
    if keys.len() == 0 {
        map
    } else {
        let m = insert_present(map, member, keys.drop_last());
        match member.get(keys.last()) {
            Some(x) => map_insert(m, keys.last(), x),
            None => m,
        }
    }
}

fn copy_present(map: &mut Vec<(String, Json)>, member: &Json, keys: &Vec<&'static str>)
    ensures
        entries_view(final(map)@) == insert_present(entries_view(old(map)@), member@, strs_view(keys@)),
{
    let ghost start = entries_view(map@);
    let ghost ks = strs_view(keys@);
    let mut i: usize = 0;
    assert(ks.take(0) =~= Seq::<Seq<char>>::empty());
    while i < keys.len()
        invariant
            i <= keys@.len(),
            ks == strs_view(keys@),
            ks.len() == keys@.len(),
            entries_view(map@) == insert_present(start, member@, ks.take(i as int)),
        decreases keys.len() - i,
    {
        assert(ks.take(i + 1).drop_last() =~= ks.take(i as int));
        assert(ks.take(i + 1).last() == keys@[i as int]@);
        match member.get(keys[i]) {
            Some(item) => {
                let c = clone_json(item);
                object_insert(map, String::from_str(keys[i]), c);
            },
            None => {},
        }
        i = i + 1;
    }
    assert(ks.take(keys@.len() as int) =~= ks);
}

/// The canonical text of the scalar constraints of a schema: its `type`,
/// `const`, length, pattern, format, range and item-count keywords, as an
/// object sorted by key.
pub open spec fn scalar_constraint_text(value: JsonView) -> Seq<char> {
    canonical_text(JsonView::Object(insert_present(Seq::empty(), value, scalar_key_list())))
}

/// The scalar constraints of `value`, as canonical JSON text.
pub fn scalar_constraint(value: &Json) -> (res: String)
    ensures
        res@ == scalar_constraint_text(value@),
{
    let keys = scalar_keys();
    let mut map: Vec<(String, Json)> = Vec::new();
    copy_present(&mut map, value, &keys);
    canonical(&Json::Object(map))
}

// ----- enum values -----

/// The members of a union: `anyOf`, or else `oneOf`, when it is an array.
pub open spec fn union_members(v: JsonView) -> Option<Seq<JsonView>> {
    match (match v.get("anyOf"@) {
        Some(x) => Some(x),
        None => v.get("oneOf"@),
    }) {
        Some(x) => x.as_array(),
        None => None,
    }
}

/// The schema a value stands for: its `$ref` target, when it has a `$ref`.
pub open spec fn dereferenced(v: JsonView, a: DocsView, g: DocsView) -> Result<JsonView, Seq<char>> {
    if v.get("$ref"@) is Some {
        resolved(v, a, g)
    } else {
        Ok(v)
    }
}

/// The enum wire values of a schema, with `fuel` levels of nesting to spend:
/// the canonical texts of its `enum`, or of the `const`s and nested enums of
/// its union members, sorted.  `None` when the fuel runs out.
pub open spec fn enum_fuel(v: JsonView, a: DocsView, g: DocsView, fuel: nat) -> Option<
    Result<Seq<Seq<char>>, Seq<char>>,
>
    decreases fuel, 0int,
{
    if fuel == 0 {
        None
    } else {
        match dereferenced(v, a, g) {
            Err(e) => Some(Err(e)),
            Ok(t) => match t.get_array("enum"@) {
                Some(values) => Some(
                    Ok(sorted_strings(values.map_values(|x: JsonView| canonical_text(x)))),
                ),
                None => match union_members(t) {
                    Some(members) => match member_values_fuel(members, a, g, (fuel - 1) as nat) {
                        None => None,
                        Some(Err(e)) => Some(Err(e)),
                        Some(Ok(vals)) => Some(Ok(sorted_strings(vals))),
                    },
                    None => Some(Err("schema has neither enum nor const union"@)),
                },
            },
        }
    }
}

/// The values that union members contribute, in member order: a member's
/// `const`, or its own enum values.
pub open spec fn member_values_fuel(ms: Seq<JsonView>, a: DocsView, g: DocsView, fuel: nat) -> Option<
    Result<Seq<Seq<char>>, Seq<char>>,
>
    decreases fuel, ms.len(),
{
    if ms.len() == 0 {
        Some(Ok(Seq::empty()))
    } else {
        match member_values_fuel(ms.drop_last(), a, g, fuel) {
            None => None,
            Some(Err(e)) => Some(Err(e)),
            Some(Ok(prev)) => {
                let m = ms.last();
                match m.get("const"@) {
                    Some(c) => Some(Ok(prev.push(canonical_text(c)))),
                    None => match enum_fuel(m, a, g, fuel) {
                        None => None,
                        Some(Err(e)) => Some(Err(e)),
                        Some(Ok(vals)) => Some(Ok(prev + vals)),
                    },
                }
            },
        }
    }
}

pub open spec fn strings_result_view(r: Result<Vec<String>, String>) -> Result<Seq<Seq<char>>, Seq<char>> {
    match r {
        Ok(v) => Ok(strings_view(v@)),
        Err(e) => Err(e@),
    }
}

/// The schema `value` stands for, its `$ref` followed.
fn dereference<'a>(value: &'a Json, a: &'a Vec<(String, Json)>, g: &'a Vec<(String, Json)>) -> (res: Result<
    &'a Json,
    String,
>)
    ensures
        result_view(res) == dereferenced(value@, entries_view(a@), entries_view(g@)),
{
    if value.get("$ref").is_some() {
        resolve_ref(value, a, g)
    } else {
        Ok(value)
    }
}

/// The union members of `value`.
fn union_of(value: &Json) -> (res: Option<&Vec<Json>>)
    ensures
        match res {
            Some(ms) => union_members(value@) == Some(items_view(ms@)),
            None => union_members(value@) is None,
        },
{
    let x = match value.get("anyOf") {
        Some(x) => Some(x),
        None => value.get("oneOf"),
    };
    match x {
        Some(x) => x.as_array(),
        None => None,
    }
}

fn enum_values_inner(
    value: &Json,
    a: &Vec<(String, Json)>,
    g: &Vec<(String, Json)>,
    Ghost(fuel): Ghost<nat>,
) -> (res: Result<Vec<String>, String>)
    requires
        enum_fuel(value@, entries_view(a@), entries_view(g@), fuel) is Some,
    ensures
        Some(strings_result_view(res)) == enum_fuel(value@, entries_view(a@), entries_view(g@), fuel),
    decreases fuel, 0int,
{
    let ghost av = entries_view(a@);
    let ghost gv = entries_view(g@);
    let target = match dereference(value, a, g) {
        Ok(t) => t,
        Err(e) => return Err(e),
    };
    if let Some(values) = target.get_array("enum") {
        let ghost vv = items_view(values@);
        let mut texts: Vec<String> = Vec::new();
        let mut i: usize = 0;
        while i < values.len()
            invariant
                i <= values@.len(),
                vv == items_view(values@),
                vv.len() == values@.len(),
                strings_view(texts@) == vv.take(i as int).map_values(|x: JsonView| canonical_text(x)),
            decreases values.len() - i,
        {
            let t = canonical(&values[i]);
            proof {
                lemma_strings_view_push(texts@, t);
                assert(vv.take(i + 1).map_values(|x: JsonView| canonical_text(x)) =~= vv.take(
                    i as int,
                ).map_values(|x: JsonView| canonical_text(x)).push(canonical_text(vv[i as int])));
            }
            texts.push(t);
            i = i + 1;
        }
        assert(vv.take(values@.len() as int) =~= vv);
        return Ok(sort_strings(texts));
    }
    match union_of(target) {
        Some(members) => {
            let vals = member_values_inner(members, a, g, Ghost((fuel - 1) as nat));
            match vals {
                Ok(vals) => Ok(sort_strings(vals)),
                Err(e) => Err(e),
            }
        },
        None => Err(String::from_str("schema has neither enum nor const union")),
    }
}

fn member_values_inner(
    members: &Vec<Json>,
    a: &Vec<(String, Json)>,
    g: &Vec<(String, Json)>,
    Ghost(fuel): Ghost<nat>,
) -> (res: Result<Vec<String>, String>)
    requires
        member_values_fuel(items_view(members@), entries_view(a@), entries_view(g@), fuel) is Some,
    ensures
        Some(strings_result_view(res)) == member_values_fuel(
            items_view(members@),
            entries_view(a@),
            entries_view(g@),
            fuel,
        ),
    decreases fuel, members@.len(),
{
    let ghost ms = items_view(members@);
    let ghost av = entries_view(a@);
    let ghost gv = entries_view(g@);
    let mut result: Vec<String> = Vec::new();
    let mut i: usize = 0;
    assert(ms.take(0) =~= Seq::<JsonView>::empty());
    assert(strings_view(result@) =~= Seq::<Seq<char>>::empty());
    proof {
        assert(ms.take(ms.len() as int) =~= ms);
        lemma_member_values_prefix(ms, av, gv, fuel, ms.len() as int);
    }
    while i < members.len()
        invariant
            i <= members@.len(),
            ms == items_view(members@),
            ms.len() == members@.len(),
            av == entries_view(a@),
            gv == entries_view(g@),
            forall|k: int| 0 <= k <= ms.len() ==> #[trigger] member_values_fuel(ms.take(k), av, gv, fuel) is Some,
            member_values_fuel(ms.take(i as int), av, gv, fuel) == Some(Ok::<Seq<Seq<char>>, Seq<char>>(strings_view(result@))),
        decreases members.len() - i,
    {
        proof {
            lemma_items_view(members@);
        }
        assert(ms.take(i + 1).drop_last() =~= ms.take(i as int));
        assert(ms.take(i + 1).last() == ms[i as int]);
        assert(ms[i as int] == members@[i as int]@);
        assert(member_values_fuel(ms.take(i + 1), av, gv, fuel) is Some);
        let member = &members[i];
        match member.get("const") {
            Some(c) => {
                let t = canonical(c);
                proof {
                    lemma_strings_view_push(result@, t);
                }
                result.push(t);
            },
            None => {
                let ghost t = ms.take(i + 1);
                assert(t.len() > 0);
                assert(member_values_fuel(t.drop_last(), av, gv, fuel) == Some(Ok::<Seq<Seq<char>>, Seq<char>>(strings_view(result@))));
                assert(t.last().get("const"@) is None);
                assert(member_values_fuel(t, av, gv, fuel) == match enum_fuel(t.last(), av, gv, fuel) {
                    None => None,
                    Some(Err(e)) => Some(Err(e)),
                    Some(Ok(vals)) => Some(Ok(strings_view(result@) + vals)),
                });
                assert(t.last() == member@);
                assert(member_values_fuel(t, av, gv, fuel) is Some);
                assert(enum_fuel(member@, av, gv, fuel) is Some);
                let vals = enum_values_inner(member, a, g, Ghost(fuel));
                match vals {
                    Ok(vals) => {
                        let mut j: usize = 0;
                        let ghost before = strings_view(result@);
                        while j < vals.len()
                            invariant
                                j <= vals@.len(),
                                strings_view(result@) == before + strings_view(vals@).take(j as int),
                            decreases vals.len() - j,
                        {
                            proof {
                                lemma_strings_view_push(result@, vals@[j as int]);
                            }
                            result.push(vals[j].clone());
                            assert(strings_view(vals@).take(j + 1) =~= strings_view(vals@).take(j as int).push(vals@[j as int]@));
                            j = j + 1;
                        }
                        assert(strings_view(vals@).take(vals@.len() as int) =~= strings_view(vals@));
                    },
                    Err(e) => {
                        proof {
                            lemma_member_values_error(ms, av, gv, fuel, i + 1);
                        }
                        return Err(e);
                    },
                }
            },
        }
        i = i + 1;
    }
    assert(ms.take(members@.len() as int) =~= ms);
    Ok(result)
}

/// Lemma: a sufficient budget for all members suffices for every prefix.
proof fn lemma_member_values_prefix(ms: Seq<JsonView>, a: DocsView, g: DocsView, fuel: nat, n: int)
    requires
        0 <= n <= ms.len(),
        member_values_fuel(ms.take(n), a, g, fuel) is Some,
    ensures
        forall|k: int| 0 <= k <= n ==> #[trigger] member_values_fuel(ms.take(k), a, g, fuel) is Some,
    decreases n,
{
    if n > 0 {
        assert(ms.take(n).drop_last() =~= ms.take(n - 1));
        lemma_member_values_prefix(ms, a, g, fuel, n - 1);
    }
}

/// Lemma: an error at member `n - 1` is the error of the whole list.
proof fn lemma_member_values_error(ms: Seq<JsonView>, a: DocsView, g: DocsView, fuel: nat, n: int)
    requires
        0 < n <= ms.len(),
        member_values_fuel(ms.take(n), a, g, fuel) matches Some(Err(_)),
    ensures
        member_values_fuel(ms, a, g, fuel) == member_values_fuel(ms.take(n), a, g, fuel),
    decreases ms.len() - n,
{
    if n < ms.len() {
        assert(ms.take(n + 1).drop_last() =~= ms.take(n));
        lemma_member_values_error(ms, a, g, fuel, n + 1);
    } else {
        assert(ms.take(n) =~= ms);
    }
}

/// The enum values terminate: some budget suffices.
pub open spec fn enum_terminates(v: JsonView, a: DocsView, g: DocsView) -> bool {
    exists|fuel: nat| enum_fuel(v, a, g, fuel) is Some
}

/// The enum values of a schema whose computation terminates.
pub open spec fn enum_result(v: JsonView, a: DocsView, g: DocsView) -> Result<Seq<Seq<char>>, Seq<char>> {
    enum_fuel(v, a, g, choose|fuel: nat| enum_fuel(v, a, g, fuel) is Some).unwrap()
}

/// The enum wire values of `value`: the canonical texts of its `enum`, or of
/// the `const`s and nested enum values of its `anyOf`/`oneOf` members, sorted;
/// a `$ref` is followed first.
pub fn enum_values(value: &Json, authored: &Vec<(String, Json)>, generated: &Vec<(String, Json)>) -> (res:
    Result<Vec<String>, String>)
    requires
        enum_terminates(value@, entries_view(authored@), entries_view(generated@)),
    ensures
        strings_result_view(res) == enum_result(value@, entries_view(authored@), entries_view(generated@)),
{
    let ghost fuel = choose|fuel: nat|
        enum_fuel(value@, entries_view(authored@), entries_view(generated@), fuel) is Some;
    enum_values_inner(value, authored, generated, Ghost(fuel))
}


// ----- shapes -----

/// The merged constraints of `allOf` members (each `$ref` followed): for each
/// merge key, the value of the last member that has it, as a sorted map.
pub open spec fn allof_merged(members: Seq<JsonView>, a: DocsView, g: DocsView) -> Result<DocsView, Seq<char>>
    decreases members.len(),
{
    if members.len() == 0 {
        Ok(Seq::empty())
    } else {
        match allof_merged(members.drop_last(), a, g) {
            Err(e) => Err(e),
            Ok(m) => match dereferenced(members.last(), a, g) {
                Err(e) => Err(e),
                Ok(t) => Ok(insert_present(m, t, merge_key_list())),
            },
        }
    }
}

/// Whether an object schema is closed: `additionalProperties: false`, or an
/// `unevaluatedProperties` other than `{}`.
pub open spec fn is_closed(v: JsonView) -> bool {
    ||| (v.get("additionalProperties"@) matches Some(x) && x.as_bool() == Some(false))
    ||| (v.get("unevaluatedProperties"@) matches Some(p) && p != JsonView::Object(Seq::empty()))
}

pub open spec fn closure_word(v: JsonView) -> Seq<char> {
    if is_closed(v) {
        "closed"@
    } else {
        "open"@
    }
}

/// `name` is among the strings of the schema's `required` array.
pub open spec fn is_required(v: JsonView, name: Seq<char>) -> bool {
    v.get_array("required"@) matches Some(r) && exists|i: int| 0 <= i < r.len() && r[i].as_str() == Some(name)
}

/// The `properties` of a schema, or none.
pub open spec fn properties_of(v: JsonView) -> DocsView {
    match v.get_object("properties"@) {
        Some(p) => p,
        None => Seq::empty(),
    }
}

/// The schema `{"type": t}`.
pub open spec fn type_member(t: JsonView) -> JsonView {
    JsonView::Object(seq![("type"@, t)])
}

/// Every union member has a `const`.
pub open spec fn all_const(ms: Seq<JsonView>) -> bool {
    forall|i: int| 0 <= i < ms.len() ==> (#[trigger] ms[i]).get("const"@) is Some
}

pub open spec fn enum_text(r: Option<Result<Seq<Seq<char>>, Seq<char>>>) -> Option<Result<Seq<char>, Seq<char>>> {
    match r {
        None => None,
        Some(Err(e)) => Some(Err(e)),
        Some(Ok(vals)) => Some(Ok("enum:"@ + debug_list_text(vals))),
    }
}

/// The shape of a schema, with `fuel` levels of nesting to spend; `None`
/// when the fuel runs out.  `seen` holds the references being followed.
pub open spec fn shape_fuel(v: JsonView, a: DocsView, g: DocsView, seen: Seq<Seq<char>>, fuel: nat) -> Option<
    Result<Seq<char>, Seq<char>>,
>
    decreases fuel, 1int,
{
    if fuel == 0 {
        None
    } else {
        match v.get_str("$ref"@) {
            Some(r) => if seen.contains(r) {
                Some(Ok("recursive"@))
            } else {
                match resolved(v, a, g) {
                    Err(e) => Some(Err(e)),
                    Ok(t) => shape_fuel(t, a, g, seen.push(r), (fuel - 1) as nat),
                }
            },
            None => match v.get("const"@) {
                Some(c) => Some(Ok("const:"@ + canonical_text(c))),
                None => match v.get_array("allOf"@) {
                    Some(members) => match allof_merged(members, a, g) {
                        Err(e) => Some(Err(e)),
                        Ok(m) => if m.len() > 0 {
                            Some(Ok(canonical_text(JsonView::Object(m))))
                        } else {
                            shape_tail(v, a, g, seen, fuel)
                        },
                    },
                    None => shape_tail(v, a, g, seen, fuel),
                },
            },
        }
    }
}

/// The shape of a schema past its `$ref`, `const` and `allOf`.
pub open spec fn shape_tail(v: JsonView, a: DocsView, g: DocsView, seen: Seq<Seq<char>>, fuel: nat) -> Option<
    Result<Seq<char>, Seq<char>>,
>
    decreases fuel, 0int,
{
    if fuel == 0 {
        None
    } else if v.get("enum"@) is Some {
        enum_text(enum_fuel(v, a, g, (fuel - 1) as nat))
    } else {
        match union_members(v) {
            Some(members) => if all_const(members) {
                enum_text(enum_fuel(v, a, g, (fuel - 1) as nat))
            } else {
                match shapes_fuel(members, a, g, seen, (fuel - 1) as nat) {
                    None => None,
                    Some(Err(e)) => Some(Err(e)),
                    Some(Ok(shapes)) => {
                        let d = dedup(sorted_strings(shapes));
                        if d.contains("any"@) {
                            Some(Ok("any"@))
                        } else {
                            Some(Ok("union:"@ + debug_list_text(d)))
                        }
                    },
                }
            },
            None => match v.get("type"@) {
                Some(t) => match t.as_array() {
                    Some(types) => match shapes_fuel(
                        types.map_values(|x: JsonView| type_member(x)),
                        a,
                        g,
                        seen,
                        (fuel - 1) as nat,
                    ) {
                        None => None,
                        Some(Err(e)) => Some(Err(e)),
                        Some(Ok(shapes)) => Some(
                            Ok("union:"@ + debug_list_text(dedup(sorted_strings(shapes)))),
                        ),
                    },
                    None => if t == JsonView::Str("object"@) {
                        let props = properties_of(v);
                        if props.len() == 0 {
                            Some(Ok("object:"@ + closure_word(v)))
                        } else {
                            match fields_fuel(props, v, a, g, seen, (fuel - 1) as nat) {
                                None => None,
                                Some(Err(e)) => Some(Err(e)),
                                Some(Ok(fields)) => Some(
                                    Ok(
                                        "object:"@ + closure_word(v) + "{"@ + join(
                                            sorted_strings(fields),
                                            ","@,
                                        ) + "}"@,
                                    ),
                                ),
                            }
                        }
                    } else if t == JsonView::Str("array"@) {
                        let item = match v.get("items"@) {
                            Some(items) => shape_fuel(items, a, g, seen, (fuel - 1) as nat),
                            None => Some(Ok("any"@)),
                        };
                        match item {
                            None => None,
                            Some(Err(e)) => Some(Err(e)),
                            Some(Ok(item)) => {
                                let cs = array_constraints(v, array_key_list());
                                if cs.len() == 0 {
                                    Some(Ok("array<"@ + item + ">"@))
                                } else {
                                    Some(Ok("array<"@ + item + ">;"@ + join(cs, ";"@)))
                                }
                            },
                        }
                    } else {
                        Some(Ok(scalar_constraint_text(v)))
                    },
                },
                None => if v == JsonView::Object(Seq::empty()) {
                    Some(Ok("any"@))
                } else {
                    Some(Ok(scalar_constraint_text(v)))
                },
            },
        }
    }
}

/// The shapes of schemas `ms`, in order; the first error ends the list.
pub open spec fn shapes_fuel(ms: Seq<JsonView>, a: DocsView, g: DocsView, seen: Seq<Seq<char>>, fuel: nat) -> Option<
    Result<Seq<Seq<char>>, Seq<char>>,
>
    decreases fuel, ms.len() + 2,
{
    if ms.len() == 0 {
        Some(Ok(Seq::empty()))
    } else {
        match shapes_fuel(ms.drop_last(), a, g, seen, fuel) {
            None => None,
            Some(Err(e)) => Some(Err(e)),
            Some(Ok(prev)) => match shape_fuel(ms.last(), a, g, seen, fuel) {
                None => None,
                Some(Err(e)) => Some(Err(e)),
                Some(Ok(s)) => Some(Ok(prev.push(s))),
            },
        }
    }
}

/// The text of one property: `name:required:shape` or `name:optional:shape`.
pub open spec fn field_text(name: Seq<char>, owner: JsonView, shape: Seq<char>) -> Seq<char> {
    name + ":"@ + (if is_required(owner, name) {
        "required"@
    } else {
        "optional"@
    }) + ":"@ + shape
}

/// The texts of the properties `props` of `owner`, in order; the first error
/// ends the list.
pub open spec fn fields_fuel(
    props: DocsView,
    owner: JsonView,
    a: DocsView,
    g: DocsView,
    seen: Seq<Seq<char>>,
    fuel: nat,
) -> Option<Result<Seq<Seq<char>>, Seq<char>>>
    decreases fuel, props.len() + 2,
{
    if props.len() == 0 {
        Some(Ok(Seq::empty()))
    } else {
        match fields_fuel(props.drop_last(), owner, a, g, seen, fuel) {
            None => None,
            Some(Err(e)) => Some(Err(e)),
            Some(Ok(prev)) => match shape_fuel(props.last().1, a, g, seen, fuel) {
                None => None,
                Some(Err(e)) => Some(Err(e)),
                Some(Ok(s)) => Some(Ok(prev.push(field_text(props.last().0, owner, s)))),
            },
        }
    }
}

/// The constraints `key=value` of an array schema, for each of `keys` it has.
pub open spec fn array_constraints(v: JsonView, keys: Seq<Seq<char>>) -> Seq<Seq<char>>
    decreases keys.len(),
{
    if keys.len() == 0 {
        Seq::empty()
    } else {
        let rest = array_constraints(v, keys.drop_last());
        match v.get(keys.last()) {
            Some(c) => rest.push(keys.last() + "="@ + canonical_text(c)),
            None => rest,
        }
    }
}


pub open spec fn string_result_view(r: Result<String, String>) -> Result<Seq<char>, Seq<char>> {
    match r {
        Ok(v) => Ok(v@),
        Err(e) => Err(e@),
    }
}

fn merge_all_of(members: &Vec<Json>, a: &Vec<(String, Json)>, g: &Vec<(String, Json)>) -> (res: Result<
    Vec<(String, Json)>,
    String,
>)
    ensures
        match res {
            Ok(m) => allof_merged(items_view(members@), entries_view(a@), entries_view(g@)) == Ok::<
                DocsView,
                Seq<char>,
            >(entries_view(m@)),
            Err(e) => allof_merged(items_view(members@), entries_view(a@), entries_view(g@)) == Err::<
                DocsView,
                Seq<char>,
            >(e@),
        },
{
    let ghost ms = items_view(members@);
    let ghost av = entries_view(a@);
    let ghost gv = entries_view(g@);
    let keys = merge_keys();
    let mut merged: Vec<(String, Json)> = Vec::new();
    let mut i: usize = 0;
    assert(ms.take(0) =~= Seq::<JsonView>::empty());
    assert(entries_view(merged@) =~= Seq::<(Seq<char>, JsonView)>::empty());
    while i < members.len()
        invariant
            i <= members@.len(),
            ms == items_view(members@),
            ms.len() == members@.len(),
            av == entries_view(a@),
            gv == entries_view(g@),
            strs_view(keys@) == merge_key_list(),
            allof_merged(ms.take(i as int), av, gv) == Ok::<DocsView, Seq<char>>(entries_view(merged@)),
        decreases members.len() - i,
    {
        proof {
            lemma_items_view(members@);
        }
        assert(ms.take(i + 1).drop_last() =~= ms.take(i as int));
        assert(ms.take(i + 1).last() == members@[i as int]@);
        let member = match dereference(&members[i], a, g) {
            Ok(t) => t,
            Err(e) => {
                proof {
                    lemma_allof_error(ms, av, gv, i + 1);
                }
                return Err(e);
            },
        };
        copy_present(&mut merged, member, &keys);
        i = i + 1;
    }
    assert(ms.take(members@.len() as int) =~= ms);
    Ok(merged)
}

proof fn lemma_allof_error(ms: Seq<JsonView>, a: DocsView, g: DocsView, n: int)
    requires
        0 < n <= ms.len(),
        allof_merged(ms.take(n), a, g) is Err,
    ensures
        allof_merged(ms, a, g) == allof_merged(ms.take(n), a, g),
    decreases ms.len() - n,
{
    if n < ms.len() {
        assert(ms.take(n + 1).drop_last() =~= ms.take(n));
        lemma_allof_error(ms, a, g, n + 1);
    } else {
        assert(ms.take(n) =~= ms);
    }
}

fn array_constraint_texts(v: &Json) -> (res: Vec<String>)
    ensures
        strings_view(res@) == array_constraints(v@, array_key_list()),
{
    let keys = array_keys();
    let ghost ks = strs_view(keys@);
    let mut out: Vec<String> = Vec::new();
    let mut i: usize = 0;
    assert(ks.take(0) =~= Seq::<Seq<char>>::empty());
    assert(strings_view(out@) =~= Seq::<Seq<char>>::empty());
    while i < keys.len()
        invariant
            i <= keys@.len(),
            ks == strs_view(keys@),
            ks.len() == keys@.len(),
            strings_view(out@) == array_constraints(v@, ks.take(i as int)),
        decreases keys.len() - i,
    {
        assert(ks.take(i + 1).drop_last() =~= ks.take(i as int));
        assert(ks.take(i + 1).last() == keys@[i as int]@);
        match v.get(keys[i]) {
            Some(c) => {
                let k = concat(keys[i], "=");
                let t = concat(k.as_str(), canonical(c).as_str());
                proof {
                    lemma_strings_view_push(out@, t);
                }
                out.push(t);
            },
            None => {},
        }
        i = i + 1;
    }
    assert(ks.take(keys@.len() as int) =~= ks);
    out
}

/// `closed` or `open`, for an object schema.
fn closure_of(v: &Json) -> (res: &'static str)
    ensures
        res@ == closure_word(v@),
{
    let additional_false = match v.get("additionalProperties") {
        Some(x) => match x.as_bool() {
            Some(b) => !b,
            None => false,
        },
        None => false,
    };
    let unevaluated = match v.get("unevaluatedProperties") {
        Some(p) => match p {
            Json::Object(es) => {
                proof {
                    lemma_entries_view(es@);
                }
                es.len() != 0
            },
            _ => true,
        },
        None => false,
    };
    if additional_false || unevaluated {
        "closed"
    } else {
        "open"
    }
}

/// Whether `name` is among the strings of `v`'s `required` array.
fn required(v: &Json, name: &str) -> (res: bool)
    ensures
        res == is_required(v@, name@),
{
    match v.get_array("required") {
        Some(r) => {
            let ghost rv = items_view(r@);
            let mut i: usize = 0;
            while i < r.len()
                invariant
                    i <= r@.len(),
                    rv == items_view(r@),
                    rv.len() == r@.len(),
                    v@.get_array("required"@) == Some(rv),
                    forall|j: int| 0 <= j < i ==> rv[j].as_str() != Some(name@),
                decreases r.len() - i,
            {
                proof {
                    lemma_items_view(r@);
                }
                match r[i].as_str() {
                    Some(s) => {
                        if str_eq(s, name) {
                            assert(rv[i as int] == r@[i as int]@);
                            assert(rv[i as int].as_str() == Some(name@));
                            return true;
                        }
                    },
                    None => {},
                }
                i = i + 1;
            }
            false
        },
        None => false,
    }
}

/// Whether `j` is the string `lit`.
fn is_string(j: &Json, lit: &str) -> (res: bool)
    ensures
        res == (j@ == JsonView::Str(lit@)),
{
    match j {
        Json::Str(s) => str_eq(s.as_str(), lit),
        _ => false,
    }
}

fn shapes_inner(
    ms: &Vec<Json>,
    a: &Vec<(String, Json)>,
    g: &Vec<(String, Json)>,
    seen: &Vec<String>,
    Ghost(fuel): Ghost<nat>,
) -> (res: Result<Vec<String>, String>)
    requires
        shapes_fuel(items_view(ms@), entries_view(a@), entries_view(g@), strings_view(seen@), fuel) is Some,
    ensures
        Some(strings_result_view(res)) == shapes_fuel(
            items_view(ms@),
            entries_view(a@),
            entries_view(g@),
            strings_view(seen@),
            fuel,
        ),
    decreases fuel, ms@.len() + 2,
{
    let ghost mv = items_view(ms@);
    let ghost av = entries_view(a@);
    let ghost gv = entries_view(g@);
    let ghost sv = strings_view(seen@);
    let mut out: Vec<String> = Vec::new();
    let mut i: usize = 0;
    assert(mv.take(0) =~= Seq::<JsonView>::empty());
    assert(strings_view(out@) =~= Seq::<Seq<char>>::empty());
    proof {
        lemma_items_view(ms@);
        assert(mv.take(mv.len() as int) =~= mv);
        lemma_shapes_prefix(mv, av, gv, sv, fuel, mv.len() as int);
    }
    while i < ms.len()
        invariant
            i <= ms@.len(),
            mv == items_view(ms@),
            mv.len() == ms@.len(),
            av == entries_view(a@),
            gv == entries_view(g@),
            sv == strings_view(seen@),
            forall|k: int| 0 <= k <= mv.len() ==> #[trigger] shapes_fuel(mv.take(k), av, gv, sv, fuel) is Some,
            shapes_fuel(mv.take(i as int), av, gv, sv, fuel) == Some(Ok::<Seq<Seq<char>>, Seq<char>>(strings_view(out@))),
        decreases ms.len() - i,
    {
        proof {
            lemma_items_view(ms@);
        }
        let ghost t = mv.take(i + 1);
        assert(t.drop_last() =~= mv.take(i as int));
        assert(t.last() == ms@[i as int]@);
        assert(shapes_fuel(t, av, gv, sv, fuel) is Some);
        assert(shape_fuel(ms@[i as int]@, av, gv, sv, fuel) is Some);
        match shape_inner(&ms[i], a, g, seen, Ghost(fuel)) {
            Ok(s) => {
                proof {
                    lemma_strings_view_push(out@, s);
                }
                out.push(s);
            },
            Err(e) => {
                proof {
                    lemma_shapes_error(mv, av, gv, sv, fuel, i + 1);
                }
                return Err(e);
            },
        }
        i = i + 1;
    }
    assert(mv.take(ms@.len() as int) =~= mv);
    Ok(out)
}

proof fn lemma_shapes_prefix(ms: Seq<JsonView>, a: DocsView, g: DocsView, seen: Seq<Seq<char>>, fuel: nat, n: int)
    requires
        0 <= n <= ms.len(),
        shapes_fuel(ms.take(n), a, g, seen, fuel) is Some,
    ensures
        forall|k: int| 0 <= k <= n ==> #[trigger] shapes_fuel(ms.take(k), a, g, seen, fuel) is Some,
    decreases n,
{
    if n > 0 {
        assert(ms.take(n).drop_last() =~= ms.take(n - 1));
        lemma_shapes_prefix(ms, a, g, seen, fuel, n - 1);
    }
}

proof fn lemma_shapes_error(ms: Seq<JsonView>, a: DocsView, g: DocsView, seen: Seq<Seq<char>>, fuel: nat, n: int)
    requires
        0 < n <= ms.len(),
        shapes_fuel(ms.take(n), a, g, seen, fuel) matches Some(Err(_)),
    ensures
        shapes_fuel(ms, a, g, seen, fuel) == shapes_fuel(ms.take(n), a, g, seen, fuel),
    decreases ms.len() - n,
{
    if n < ms.len() {
        assert(ms.take(n + 1).drop_last() =~= ms.take(n));
        lemma_shapes_error(ms, a, g, seen, fuel, n + 1);
    } else {
        assert(ms.take(n) =~= ms);
    }
}

fn fields_inner(
    props: &Vec<(String, Json)>,
    owner: &Json,
    a: &Vec<(String, Json)>,
    g: &Vec<(String, Json)>,
    seen: &Vec<String>,
    Ghost(fuel): Ghost<nat>,
) -> (res: Result<Vec<String>, String>)
    requires
        fields_fuel(entries_view(props@), owner@, entries_view(a@), entries_view(g@), strings_view(seen@), fuel) is Some,
    ensures
        Some(strings_result_view(res)) == fields_fuel(
            entries_view(props@),
            owner@,
            entries_view(a@),
            entries_view(g@),
            strings_view(seen@),
            fuel,
        ),
    decreases fuel, props@.len() + 2,
{
    let ghost pv = entries_view(props@);
    let ghost av = entries_view(a@);
    let ghost gv = entries_view(g@);
    let ghost sv = strings_view(seen@);
    let mut out: Vec<String> = Vec::new();
    let mut i: usize = 0;
    assert(pv.take(0) =~= Seq::<(Seq<char>, JsonView)>::empty());
    assert(strings_view(out@) =~= Seq::<Seq<char>>::empty());
    proof {
        lemma_entries_view(props@);
        assert(pv.take(pv.len() as int) =~= pv);
        lemma_fields_prefix(pv, owner@, av, gv, sv, fuel, pv.len() as int);
    }
    while i < props.len()
        invariant
            i <= props@.len(),
            pv == entries_view(props@),
            pv.len() == props@.len(),
            av == entries_view(a@),
            gv == entries_view(g@),
            sv == strings_view(seen@),
            forall|k: int| 0 <= k <= pv.len() ==> #[trigger] fields_fuel(pv.take(k), owner@, av, gv, sv, fuel) is Some,
            fields_fuel(pv.take(i as int), owner@, av, gv, sv, fuel) == Some(Ok::<Seq<Seq<char>>, Seq<char>>(strings_view(out@))),
        decreases props.len() - i,
    {
        proof {
            lemma_entries_view(props@);
        }
        let ghost t = pv.take(i + 1);
        assert(t.drop_last() =~= pv.take(i as int));
        assert(t.last() == (props@[i as int].0@, props@[i as int].1@));
        assert(fields_fuel(t, owner@, av, gv, sv, fuel) is Some);
        assert(shape_fuel(props@[i as int].1@, av, gv, sv, fuel) is Some);
        match shape_inner(&props[i].1, a, g, seen, Ghost(fuel)) {
            Ok(s) => {
                let name = props[i].0.as_str();
                let word = if required(owner, name) {
                    "required"
                } else {
                    "optional"
                };
                let f1 = concat(name, ":");
                let f2 = concat(f1.as_str(), word);
                let f3 = concat(f2.as_str(), ":");
                let f4 = concat(f3.as_str(), s.as_str());
                proof {
                    lemma_strings_view_push(out@, f4);
                }
                out.push(f4);
            },
            Err(e) => {
                proof {
                    lemma_fields_error(pv, owner@, av, gv, sv, fuel, i + 1);
                }
                return Err(e);
            },
        }
        i = i + 1;
    }
    assert(pv.take(props@.len() as int) =~= pv);
    Ok(out)
}

proof fn lemma_fields_prefix(
    props: DocsView,
    owner: JsonView,
    a: DocsView,
    g: DocsView,
    seen: Seq<Seq<char>>,
    fuel: nat,
    n: int,
)
    requires
        0 <= n <= props.len(),
        fields_fuel(props.take(n), owner, a, g, seen, fuel) is Some,
    ensures
        forall|k: int| 0 <= k <= n ==> #[trigger] fields_fuel(props.take(k), owner, a, g, seen, fuel) is Some,
    decreases n,
{
    if n > 0 {
        assert(props.take(n).drop_last() =~= props.take(n - 1));
        lemma_fields_prefix(props, owner, a, g, seen, fuel, n - 1);
    }
}

proof fn lemma_fields_error(
    props: DocsView,
    owner: JsonView,
    a: DocsView,
    g: DocsView,
    seen: Seq<Seq<char>>,
    fuel: nat,
    n: int,
)
    requires
        0 < n <= props.len(),
        fields_fuel(props.take(n), owner, a, g, seen, fuel) matches Some(Err(_)),
    ensures
        fields_fuel(props, owner, a, g, seen, fuel) == fields_fuel(props.take(n), owner, a, g, seen, fuel),
    decreases props.len() - n,
{
    if n < props.len() {
        assert(props.take(n + 1).drop_last() =~= props.take(n));
        lemma_fields_error(props, owner, a, g, seen, fuel, n + 1);
    } else {
        assert(props.take(n) =~= props);
    }
}

fn shape_inner(
    value: &Json,
    a: &Vec<(String, Json)>,
    g: &Vec<(String, Json)>,
    seen: &Vec<String>,
    Ghost(fuel): Ghost<nat>,
) -> (res: Result<String, String>)
    requires
        shape_fuel(value@, entries_view(a@), entries_view(g@), strings_view(seen@), fuel) is Some,
    ensures
        Some(string_result_view(res)) == shape_fuel(
            value@,
            entries_view(a@),
            entries_view(g@),
            strings_view(seen@),
            fuel,
        ),
    decreases fuel, 1int,
{
    let ghost sv = strings_view(seen@);
    if let Some(reference) = value.get_str("$ref") {
        let owned = String::from_str(reference);
        let present = strings_contain(seen, &owned);
        proof {
            if present {
                let j = choose|j: int| 0 <= j < seen@.len() && seen@[j]@ == owned@;
                assert(sv[j] == reference@);
            } else {
                assert forall|j: int| 0 <= j < sv.len() implies sv[j] != reference@ by {
                    assert(sv[j] == seen@[j]@);
                }
            }
        }
        if present {
            return Ok(String::from_str("recursive"));
        }
        let target = match resolve_ref(value, a, g) {
            Ok(t) => t,
            Err(e) => return Err(e),
        };
        let mut nested = clone_strings(seen);
        proof {
            lemma_strings_view_push(nested@, owned);
        }
        nested.push(owned);
        return shape_inner(target, a, g, &nested, Ghost((fuel - 1) as nat));
    }
    if let Some(c) = value.get("const") {
        return Ok(concat("const:", canonical(c).as_str()));
    }
    if let Some(members) = value.get_array("allOf") {
        match merge_all_of(members, a, g) {
            Err(e) => return Err(e),
            Ok(merged) => {
                if merged.len() > 0 {
                    proof {
                        lemma_entries_view(merged@);
                    }
                    return Ok(canonical(&Json::Object(merged)));
                }
                proof {
                    lemma_entries_view(merged@);
                }
            },
        }
    }
    shape_tail_inner(value, a, g, seen, Ghost(fuel))
}

fn enum_shape(value: &Json, a: &Vec<(String, Json)>, g: &Vec<(String, Json)>, Ghost(fuel): Ghost<nat>) -> (res: Result<
    String,
    String,
>)
    requires
        enum_fuel(value@, entries_view(a@), entries_view(g@), fuel) is Some,
    ensures
        Some(string_result_view(res)) == enum_text(enum_fuel(value@, entries_view(a@), entries_view(g@), fuel)),
{
    match enum_values_inner(value, a, g, Ghost(fuel)) {
        Ok(vals) => Ok(concat("enum:", debug_list(&vals).as_str())),
        Err(e) => Err(e),
    }
}

/// Whether every union member has a `const`.
fn members_all_const(ms: &Vec<Json>) -> (res: bool)
    ensures
        res == all_const(items_view(ms@)),
{
    let ghost mv = items_view(ms@);
    let mut i: usize = 0;
    while i < ms.len()
        invariant
            i <= ms@.len(),
            mv == items_view(ms@),
            mv.len() == ms@.len(),
            forall|j: int| 0 <= j < i ==> (#[trigger] mv[j]).get("const"@) is Some,
        decreases ms.len() - i,
    {
        proof {
            lemma_items_view(ms@);
        }
        if ms[i].get("const").is_none() {
            assert(mv[i as int].get("const"@) is None);
            return false;
        }
        i = i + 1;
    }
    true
}

/// The schemas `{"type": t}` for each `t` of `types`.
fn type_members(types: &Vec<Json>) -> (res: Vec<Json>)
    ensures
        items_view(res@) == items_view(types@).map_values(|x: JsonView| type_member(x)),
{
    let ghost tv = items_view(types@);
    let mut out: Vec<Json> = Vec::new();
    let mut i: usize = 0;
    while i < types.len()
        invariant
            i <= types@.len(),
            tv == items_view(types@),
            tv.len() == types@.len(),
            items_view(out@) == tv.take(i as int).map_values(|x: JsonView| type_member(x)),
        decreases types.len() - i,
    {
        proof {
            lemma_items_view(types@);
        }
        let entry_vec = vec![(String::from_str("type"), clone_json(&types[i]))];
        proof {
            lemma_entries_view(entry_vec@);
            assert(entries_view(entry_vec@) =~= seq![("type"@, tv[i as int])]);
        }
        let member = Json::Object(entry_vec);
        assert(member@ == type_member(tv[i as int]));
        let ghost before = out@;
        let ghost mview = member@;
        out.push(member);
        proof {
            lemma_items_view(out@);
            lemma_items_view(before);
            assert(out@[i as int]@ == mview);
            assert forall|k: int| 0 <= k < i + 1 implies #[trigger] items_view(out@)[k] == type_member(tv[k]) by {
                if k < i {
                    assert(out@[k] == before[k]);
                    assert(items_view(before)[k] == tv.take(i as int).map_values(|x: JsonView| type_member(x))[k]);
                }
            }
            assert(items_view(out@) =~= tv.take(i + 1).map_values(|x: JsonView| type_member(x)));
        }
        i = i + 1;
    }
    assert(tv.take(types@.len() as int) =~= tv);
    out
}

fn shape_tail_inner(
    value: &Json,
    a: &Vec<(String, Json)>,
    g: &Vec<(String, Json)>,
    seen: &Vec<String>,
    Ghost(fuel): Ghost<nat>,
) -> (res: Result<String, String>)
    requires
        fuel > 0,
        shape_tail(value@, entries_view(a@), entries_view(g@), strings_view(seen@), fuel) is Some,
    ensures
        Some(string_result_view(res)) == shape_tail(
            value@,
            entries_view(a@),
            entries_view(g@),
            strings_view(seen@),
            fuel,
        ),
    decreases fuel, 0int,
{
    let ghost less = (fuel - 1) as nat;
    if value.get("enum").is_some() {
        return enum_shape(value, a, g, Ghost(less));
    }
    if let Some(members) = union_of(value) {
        if members_all_const(members) {
            return enum_shape(value, a, g, Ghost(less));
        }
        let shapes = match shapes_inner(members, a, g, seen, Ghost(less)) {
            Ok(s) => s,
            Err(e) => return Err(e),
        };
        let d = dedup_strings(sort_strings(shapes));
        let any = String::from_str("any");
        if strings_contain(&d, &any) {
            proof {
                let j = choose|j: int| 0 <= j < d@.len() && d@[j]@ == any@;
                assert(strings_view(d@)[j] == "any"@);
            }
            return Ok(any);
        }
        proof {
            assert(!strings_view(d@).contains("any"@)) by {
                if strings_view(d@).contains("any"@) {
                    let j = choose|j: int| 0 <= j < strings_view(d@).len() && strings_view(d@)[j] == "any"@;
                    assert(d@[j]@ == any@);
                }
            }
        }
        return Ok(concat("union:", debug_list(&d).as_str()));
    }
    if let Some(t) = value.get("type") {
        if let Some(types) = t.as_array() {
            let members = type_members(types);
            let shapes = match shapes_inner(&members, a, g, seen, Ghost(less)) {
                Ok(s) => s,
                Err(e) => return Err(e),
            };
            let d = dedup_strings(sort_strings(shapes));
            return Ok(concat("union:", debug_list(&d).as_str()));
        }
        if is_string(t, "object") {
            let closure = closure_of(value);
            let empty: Vec<(String, Json)> = Vec::new();
            let props = match value.get_object("properties") {
                Some(p) => p,
                None => &empty,
            };
            proof {
                lemma_entries_view(props@);
                lemma_entries_view(empty@);
            }
            if props.len() == 0 {
                return Ok(concat("object:", closure));
            }
            let fields = match fields_inner(props, value, a, g, seen, Ghost(less)) {
                Ok(f) => f,
                Err(e) => return Err(e),
            };
            let sorted = sort_strings(fields);
            let joined = join_strings(&sorted, ",");
            let o1 = concat("object:", closure);
            let o2 = concat(o1.as_str(), "{");
            let o3 = concat(o2.as_str(), joined.as_str());
            return Ok(concat(o3.as_str(), "}"));
        }
        if is_string(t, "array") {
            let item = match value.get("items") {
                Some(items) => match shape_inner(items, a, g, seen, Ghost(less)) {
                    Ok(s) => s,
                    Err(e) => return Err(e),
                },
                None => String::from_str("any"),
            };
            let cs = array_constraint_texts(value);
            let a1 = concat("array<", item.as_str());
            if cs.len() == 0 {
                return Ok(concat(a1.as_str(), ">"));
            }
            let a2 = concat(a1.as_str(), ">;");
            let joined = join_strings(&cs, ";");
            return Ok(concat(a2.as_str(), joined.as_str()));
        }
        return Ok(scalar_constraint(value));
    }
    match value {
        Json::Object(es) => {
            if es.len() == 0 {
                proof {
                    lemma_entries_view(es@);
                    assert(entries_view(es@) =~= Seq::<(Seq<char>, JsonView)>::empty());
                }
                return Ok(String::from_str("any"));
            }
            proof {
                lemma_entries_view(es@);
            }
        },
        _ => {},
    }
    Ok(scalar_constraint(value))
}

/// The shape of a schema terminates: some budget suffices.
pub open spec fn shape_terminates(v: JsonView, a: DocsView, g: DocsView, seen: Seq<Seq<char>>) -> bool {
    exists|fuel: nat| shape_fuel(v, a, g, seen, fuel) is Some
}

/// The shape of a schema whose computation terminates.
pub open spec fn shape_result(v: JsonView, a: DocsView, g: DocsView, seen: Seq<Seq<char>>) -> Result<
    Seq<char>,
    Seq<char>,
> {
    shape_fuel(v, a, g, seen, choose|fuel: nat| shape_fuel(v, a, g, seen, fuel) is Some).unwrap()
}

/// The wire shape of `value`, with the references in `seen` being followed
/// already: a `$ref` followed (or `recursive`, when already followed); a
/// `const`; the merged scalar constraints of `allOf`; enum values; a union of
/// member shapes (or `any`); an object's closure and property shapes; an
/// array's item shape and count constraints; or the scalar constraints.
pub fn shape(
    value: &Json,
    authored: &Vec<(String, Json)>,
    generated: &Vec<(String, Json)>,
    seen: &Vec<String>,
) -> (res: Result<String, String>)
    requires
        shape_terminates(value@, entries_view(authored@), entries_view(generated@), strings_view(seen@)),
    ensures
        string_result_view(res) == shape_result(
            value@,
            entries_view(authored@),
            entries_view(generated@),
            strings_view(seen@),
        ),
{
    let ghost fuel = choose|fuel: nat|
        shape_fuel(value@, entries_view(authored@), entries_view(generated@), strings_view(seen@), fuel) is Some;
    shape_inner(value, authored, generated, seen, Ghost(fuel))
}

// ----- the budget does not matter -----

proof fn lemma_enum_fuel_mono(v: JsonView, a: DocsView, g: DocsView, f1: nat, f2: nat)
    requires
        f1 <= f2,
        enum_fuel(v, a, g, f1) is Some,
    ensures
        enum_fuel(v, a, g, f2) == enum_fuel(v, a, g, f1),
    decreases f1, 0int,
{
    if let Ok(t) = dereferenced(v, a, g) {
        if t.get_array("enum"@) is None {
            if let Some(members) = union_members(t) {
                lemma_member_values_mono(members, a, g, (f1 - 1) as nat, (f2 - 1) as nat);
            }
        }
    }
}

proof fn lemma_member_values_mono(ms: Seq<JsonView>, a: DocsView, g: DocsView, f1: nat, f2: nat)
    requires
        f1 <= f2,
        member_values_fuel(ms, a, g, f1) is Some,
    ensures
        member_values_fuel(ms, a, g, f2) == member_values_fuel(ms, a, g, f1),
    decreases f1, ms.len() + 1,
{
    if ms.len() > 0 {
        lemma_member_values_mono(ms.drop_last(), a, g, f1, f2);
        if let Some(Ok(prev)) = member_values_fuel(ms.drop_last(), a, g, f1) {
            if ms.last().get("const"@) is None {
                lemma_enum_fuel_mono(ms.last(), a, g, f1, f2);
            }
        }
    }
}

/// The enum values of a schema do not depend on the budget: every budget
/// that suffices gives the result that `enum_values` returns.
pub proof fn lemma_enum_result_any_fuel(v: JsonView, a: DocsView, g: DocsView, fuel: nat)
    requires
        enum_fuel(v, a, g, fuel) is Some,
    ensures
        enum_result(v, a, g) == enum_fuel(v, a, g, fuel).unwrap(),
{
    let c = choose|f: nat| enum_fuel(v, a, g, f) is Some;
    if c <= fuel {
        lemma_enum_fuel_mono(v, a, g, c, fuel);
    } else {
        lemma_enum_fuel_mono(v, a, g, fuel, c);
    }
}

proof fn lemma_shape_fuel_mono(v: JsonView, a: DocsView, g: DocsView, seen: Seq<Seq<char>>, f1: nat, f2: nat)
    requires
        f1 <= f2,
        shape_fuel(v, a, g, seen, f1) is Some,
    ensures
        shape_fuel(v, a, g, seen, f2) == shape_fuel(v, a, g, seen, f1),
    decreases f1, 1int,
{
    match v.get_str("$ref"@) {
        Some(r) => {
            if !seen.contains(r) {
                if let Ok(t) = resolved(v, a, g) {
                    lemma_shape_fuel_mono(t, a, g, seen.push(r), (f1 - 1) as nat, (f2 - 1) as nat);
                }
            }
        },
        None => {
            if v.get("const"@) is None {
                match v.get_array("allOf"@) {
                    Some(members) => {
                        if let Ok(m) = allof_merged(members, a, g) {
                            if m.len() == 0 {
                                lemma_shape_tail_mono(v, a, g, seen, f1, f2);
                            }
                        }
                    },
                    None => lemma_shape_tail_mono(v, a, g, seen, f1, f2),
                }
            }
        },
    }
}

proof fn lemma_shape_tail_mono(v: JsonView, a: DocsView, g: DocsView, seen: Seq<Seq<char>>, f1: nat, f2: nat)
    requires
        f1 <= f2,
        shape_tail(v, a, g, seen, f1) is Some,
    ensures
        shape_tail(v, a, g, seen, f2) == shape_tail(v, a, g, seen, f1),
    decreases f1, 0int,
{
    let p1 = (f1 - 1) as nat;
    let p2 = (f2 - 1) as nat;
    if v.get("enum"@) is Some {
        lemma_enum_fuel_mono(v, a, g, p1, p2);
    } else {
        match union_members(v) {
            Some(members) => {
                if all_const(members) {
                    lemma_enum_fuel_mono(v, a, g, p1, p2);
                } else {
                    lemma_shapes_mono(members, a, g, seen, p1, p2);
                }
            },
            None => {
                if let Some(t) = v.get("type"@) {
                    match t.as_array() {
                        Some(types) => {
                            lemma_shapes_mono(types.map_values(|x: JsonView| type_member(x)), a, g, seen, p1, p2);
                        },
                        None => {
                            if t == JsonView::Str("object"@) {
                                if properties_of(v).len() > 0 {
                                    lemma_fields_mono(properties_of(v), v, a, g, seen, p1, p2);
                                }
                            } else if t == JsonView::Str("array"@) {
                                if let Some(items) = v.get("items"@) {
                                    lemma_shape_fuel_mono(items, a, g, seen, p1, p2);
                                }
                            }
                        },
                    }
                }
            },
        }
    }
}

proof fn lemma_shapes_mono(ms: Seq<JsonView>, a: DocsView, g: DocsView, seen: Seq<Seq<char>>, f1: nat, f2: nat)
    requires
        f1 <= f2,
        shapes_fuel(ms, a, g, seen, f1) is Some,
    ensures
        shapes_fuel(ms, a, g, seen, f2) == shapes_fuel(ms, a, g, seen, f1),
    decreases f1, ms.len() + 2,
{
    if ms.len() > 0 {
        lemma_shapes_mono(ms.drop_last(), a, g, seen, f1, f2);
        if let Some(Ok(prev)) = shapes_fuel(ms.drop_last(), a, g, seen, f1) {
            lemma_shape_fuel_mono(ms.last(), a, g, seen, f1, f2);
        }
    }
}

proof fn lemma_fields_mono(
    props: DocsView,
    owner: JsonView,
    a: DocsView,
    g: DocsView,
    seen: Seq<Seq<char>>,
    f1: nat,
    f2: nat,
)
    requires
        f1 <= f2,
        fields_fuel(props, owner, a, g, seen, f1) is Some,
    ensures
        fields_fuel(props, owner, a, g, seen, f2) == fields_fuel(props, owner, a, g, seen, f1),
    decreases f1, props.len() + 2,
{
    if props.len() > 0 {
        lemma_fields_mono(props.drop_last(), owner, a, g, seen, f1, f2);
        if let Some(Ok(prev)) = fields_fuel(props.drop_last(), owner, a, g, seen, f1) {
            lemma_shape_fuel_mono(props.last().1, a, g, seen, f1, f2);
        }
    }
}

/// The shape of a schema does not depend on the budget: every budget that
/// suffices gives the result that `shape` returns.
pub proof fn lemma_shape_result_any_fuel(v: JsonView, a: DocsView, g: DocsView, seen: Seq<Seq<char>>, fuel: nat)
    requires
        shape_fuel(v, a, g, seen, fuel) is Some,
    ensures
        shape_result(v, a, g, seen) == shape_fuel(v, a, g, seen, fuel).unwrap(),
{
    let c = choose|f: nat| shape_fuel(v, a, g, seen, f) is Some;
    if c <= fuel {
        lemma_shape_fuel_mono(v, a, g, seen, c, fuel);
    } else {
        lemma_shape_fuel_mono(v, a, g, seen, fuel, c);
    }
}

/// Enum values come out sorted; for a schema with an `enum` array (after its
/// `$ref` is followed), they are the canonical texts of its members, each as
/// often as it occurs there.
pub proof fn lemma_enum_values_sorted(v: JsonView, a: DocsView, g: DocsView, fuel: nat)
    ensures
        enum_fuel(v, a, g, fuel) matches Some(Ok(vs)) ==> sorted_by(vs, str_order()),
        enum_fuel(v, a, g, fuel) matches Some(Ok(vs)) ==> (dereferenced(v, a, g) matches Ok(t) ==> (t.get_array(
            "enum"@,
        ) matches Some(e) ==> vs.to_multiset() == e.map_values(|x: JsonView| canonical_text(x)).to_multiset())),
{
    lemma_str_order_total();
    if fuel > 0 {
        if let Ok(t) = dereferenced(v, a, g) {
            match t.get_array("enum"@) {
                Some(e) => {
                    e.map_values(|x: JsonView| canonical_text(x)).lemma_sort_by_ensures(str_order());
                },
                None => {
                    if let Some(ms) = union_members(t) {
                        if let Some(Ok(vals)) = member_values_fuel(ms, a, g, (fuel - 1) as nat) {
                            vals.lemma_sort_by_ensures(str_order());
                        }
                    }
                },
            }
        }
    }
}

/// The schema `{"enum": es}`.
pub open spec fn enum_schema(es: Seq<JsonView>) -> JsonView {
    JsonView::Object(seq![("enum"@, JsonView::Array(es))])
}

/// The schema `{"const": x}`.
pub open spec fn const_member(x: JsonView) -> JsonView {
    JsonView::Object(seq![("const"@, x)])
}

/// The schema `{key: [{"const": e} for e in es]}`.
pub open spec fn const_union(key: Seq<char>, es: Seq<JsonView>) -> JsonView {
    JsonView::Object(seq![(key, JsonView::Array(es.map_values(|x: JsonView| const_member(x))))])
}

proof fn lemma_const_member_values(es: Seq<JsonView>, a: DocsView, g: DocsView, fuel: nat)
    ensures
        member_values_fuel(es.map_values(|x: JsonView| const_member(x)), a, g, fuel) == Some(
            Ok::<Seq<Seq<char>>, Seq<char>>(es.map_values(|x: JsonView| canonical_text(x))),
        ),
    decreases es.len(),
{
    reveal_strlit("const");
    let ms = es.map_values(|x: JsonView| const_member(x));
    if es.len() > 0 {
        lemma_const_member_values(es.drop_last(), a, g, fuel);
        assert(ms.drop_last() =~= es.drop_last().map_values(|x: JsonView| const_member(x)));
        assert(ms.last() == const_member(es.last()));
        assert(ms.last().get("const"@) == Some(es.last()));
        assert(es.map_values(|x: JsonView| canonical_text(x)) =~= es.drop_last().map_values(
            |x: JsonView| canonical_text(x),
        ).push(canonical_text(es.last())));
    } else {
        assert(es.map_values(|x: JsonView| canonical_text(x)) =~= Seq::<Seq<char>>::empty());
    }
}

/// An `enum` and a union of `const`s over the same values have the same enum
/// values, whether the union is an `anyOf` or a `oneOf`: the canonical texts
/// of the values, sorted.
pub proof fn lemma_enum_equals_const_union(es: Seq<JsonView>, a: DocsView, g: DocsView)
    ensures
        enum_terminates(enum_schema(es), a, g),
        enum_terminates(const_union("anyOf"@, es), a, g),
        enum_terminates(const_union("oneOf"@, es), a, g),
        enum_result(enum_schema(es), a, g) == Ok::<Seq<Seq<char>>, Seq<char>>(
            sorted_strings(es.map_values(|x: JsonView| canonical_text(x))),
        ),
        enum_result(const_union("anyOf"@, es), a, g) == enum_result(enum_schema(es), a, g),
        enum_result(const_union("oneOf"@, es), a, g) == enum_result(enum_schema(es), a, g),
        enum_fuel(enum_schema(es), a, g, 2) == Some(Ok::<Seq<Seq<char>>, Seq<char>>(
            sorted_strings(es.map_values(|x: JsonView| canonical_text(x))),
        )),
        enum_fuel(const_union("anyOf"@, es), a, g, 2) == enum_fuel(enum_schema(es), a, g, 2),
        enum_fuel(const_union("oneOf"@, es), a, g, 2) == enum_fuel(enum_schema(es), a, g, 2),
{
    reveal_strlit("enum");
    reveal_strlit("$ref");
    reveal_strlit("anyOf");
    reveal_strlit("oneOf");
    assert("enum"@[0] != "$ref"@[0]);
    assert("oneOf"@[0] != "anyOf"@[0]);
    assert("anyOf"@ != "$ref"@);
    assert("oneOf"@ != "$ref"@);
    assert("anyOf"@ != "enum"@);
    assert("oneOf"@ != "enum"@);
    let texts = es.map_values(|x: JsonView| canonical_text(x));
    let cs = es.map_values(|x: JsonView| const_member(x));
    lemma_const_member_values(es, a, g, 1);
    let v1 = enum_schema(es);
    let e1 = seq![("enum"@, JsonView::Array(es))];
    assert(e1.drop_first() =~= Seq::<(Seq<char>, JsonView)>::empty());
    assert(lookup(e1.drop_first(), "$ref"@) is None);
    assert(lookup(e1, "$ref"@) is None);
    assert(v1.get("$ref"@) is None);
    assert(dereferenced(v1, a, g) == Ok::<JsonView, Seq<char>>(v1));
    assert(lookup(e1, "enum"@) == Some(JsonView::Array(es)));
    assert(v1.get_array("enum"@) == Some(es));
    assert(es.map_values(|x: JsonView| canonical_text(x)) =~= texts);
    let cs_view = JsonView::Array(cs);
    let any_entries = seq![("anyOf"@, cs_view)];
    let one_entries = seq![("oneOf"@, cs_view)];
    assert(any_entries.drop_first() =~= Seq::<(Seq<char>, JsonView)>::empty());
    assert(one_entries.drop_first() =~= Seq::<(Seq<char>, JsonView)>::empty());
    assert(lookup(any_entries.drop_first(), "$ref"@) is None);
    assert(lookup(any_entries.drop_first(), "enum"@) is None);
    assert(lookup(one_entries.drop_first(), "$ref"@) is None);
    assert(lookup(one_entries.drop_first(), "enum"@) is None);
    assert(lookup(one_entries.drop_first(), "anyOf"@) is None);
    assert(lookup(any_entries, "$ref"@) is None);
    assert(lookup(any_entries, "enum"@) is None);
    assert(lookup(any_entries, "anyOf"@) == Some(cs_view));
    assert(lookup(one_entries, "$ref"@) is None);
    assert(lookup(one_entries, "enum"@) is None);
    assert(lookup(one_entries, "anyOf"@) is None);
    assert(lookup(one_entries, "oneOf"@) == Some(cs_view));
    assert(enum_fuel(enum_schema(es), a, g, 2) == Some(Ok::<Seq<Seq<char>>, Seq<char>>(sorted_strings(texts))));
    assert(union_members(const_union("anyOf"@, es)) == Some(cs));
    assert(union_members(const_union("oneOf"@, es)) == Some(cs));
    assert(enum_fuel(const_union("anyOf"@, es), a, g, 2) == Some(Ok::<Seq<Seq<char>>, Seq<char>>(sorted_strings(texts))));
    assert(enum_fuel(const_union("oneOf"@, es), a, g, 2) == Some(Ok::<Seq<Seq<char>>, Seq<char>>(sorted_strings(texts))));
    lemma_enum_result_any_fuel(enum_schema(es), a, g, 2);
    lemma_enum_result_any_fuel(const_union("anyOf"@, es), a, g, 2);
    lemma_enum_result_any_fuel(const_union("oneOf"@, es), a, g, 2);
}

/// A one-member object has only its member.
proof fn lemma_single_lookup(key: Seq<char>, value: JsonView, k: Seq<char>)
    ensures
        JsonView::Object(seq![(key, value)]).get(k) == (if k == key {
            Some(value)
        } else {
            None::<JsonView>
        }),
{
    let e = seq![(key, value)];
    assert(e.drop_first() =~= Seq::<(Seq<char>, JsonView)>::empty());
    assert(lookup(e.drop_first(), k) is None);
}

/// Each shape in a list of shapes is the shape of the member in its place.
proof fn lemma_shapes_members(ms: Seq<JsonView>, a: DocsView, g: DocsView, seen: Seq<Seq<char>>, fuel: nat)
    ensures
        shapes_fuel(ms, a, g, seen, fuel) matches Some(Ok(ss)) ==> ss.len() == ms.len() && forall|i: int|
            0 <= i < ms.len() ==> shape_fuel(#[trigger] ms[i], a, g, seen, fuel) == Some(
                Ok::<Seq<char>, Seq<char>>(ss[i]),
            ),
    decreases ms.len(),
{
    if ms.len() > 0 {
        lemma_shapes_members(ms.drop_last(), a, g, seen, fuel);
        if let Some(Ok(ss)) = shapes_fuel(ms, a, g, seen, fuel) {
            assert forall|i: int| 0 <= i < ms.len() implies shape_fuel(#[trigger] ms[i], a, g, seen, fuel) == Some(
                Ok::<Seq<char>, Seq<char>>(ss[i]),
            ) by {
                if i < ms.len() - 1 {
                    assert(ms.drop_last()[i] == ms[i]);
                }
            }
        }
    }
}

/// The literals that a `{"type": t}` member is looked up by, all distinct
/// from `type`.
proof fn lemma_type_keys_distinct()
    ensures
        "type"@ != "$ref"@,
        "type"@ != "const"@,
        "type"@ != "allOf"@,
        "type"@ != "enum"@,
        "type"@ != "anyOf"@,
        "type"@ != "oneOf"@,
        "type"@ != "items"@,
        "type"@ != "properties"@,
        "anyOf"@ != "$ref"@,
        "anyOf"@ != "const"@,
        "anyOf"@ != "allOf"@,
        "anyOf"@ != "enum"@,
        "oneOf"@ != "$ref"@,
        "oneOf"@ != "const"@,
        "oneOf"@ != "allOf"@,
        "oneOf"@ != "enum"@,
        "oneOf"@ != "anyOf"@,
{
    reveal_strlit("type");
    reveal_strlit("$ref");
    reveal_strlit("const");
    reveal_strlit("allOf");
    reveal_strlit("enum");
    reveal_strlit("anyOf");
    reveal_strlit("oneOf");
    reveal_strlit("items");
    reveal_strlit("properties");
    assert("type"@[0] != "$ref"@[0]);
    assert("type"@[0] != "enum"@[0]);
    assert("anyOf"@[1] != "allOf"@[1]);
    assert("oneOf"@[0] != "anyOf"@[0]);
    assert("oneOf"@[0] != "allOf"@[0]);
}

/// A `{"type": t}` member never has the shape `any`.
proof fn lemma_type_member_not_any(t: Seq<char>, a: DocsView, g: DocsView, seen: Seq<Seq<char>>, fuel: nat)
    ensures
        shape_fuel(type_member(JsonView::Str(t)), a, g, seen, fuel) matches Some(Ok(x)) ==> x != "any"@,
{
    let v = type_member(JsonView::Str(t));
    lemma_type_keys_distinct();
    lemma_single_lookup("type"@, JsonView::Str(t), "$ref"@);
    lemma_single_lookup("type"@, JsonView::Str(t), "const"@);
    lemma_single_lookup("type"@, JsonView::Str(t), "allOf"@);
    lemma_single_lookup("type"@, JsonView::Str(t), "enum"@);
    lemma_single_lookup("type"@, JsonView::Str(t), "anyOf"@);
    lemma_single_lookup("type"@, JsonView::Str(t), "oneOf"@);
    lemma_single_lookup("type"@, JsonView::Str(t), "type"@);
    lemma_single_lookup("type"@, JsonView::Str(t), "items"@);
    lemma_single_lookup("type"@, JsonView::Str(t), "properties"@);
    reveal_strlit("any");
    reveal_strlit("object:");
    reveal_strlit("array<");
    if fuel > 0 {
        assert(shape_fuel(v, a, g, seen, fuel) == shape_tail(v, a, g, seen, fuel));
        if let Some(Ok(x)) = shape_tail(v, a, g, seen, fuel) {
            if t == "object"@ {
                assert(properties_of(v).len() == 0);
                assert(x == "object:"@ + closure_word(v));
                assert(x.len() >= 7);
            } else if t == "array"@ {
                assert(x.len() >= 6);
            } else {
                assert(x == scalar_constraint_text(v));
                assert(x[0] == '{');
            }
        }
    }
}

/// The schema `{"type": [t, ...]}`.
pub open spec fn type_array(ts: Seq<Seq<char>>) -> JsonView {
    JsonView::Object(seq![("type"@, JsonView::Array(ts.map_values(|t: Seq<char>| JsonView::Str(t))))])
}

/// The schema `{key: [{"type": t}, ...]}`.
pub open spec fn type_union(key: Seq<char>, ts: Seq<Seq<char>>) -> JsonView {
    JsonView::Object(seq![(key, JsonView::Array(ts.map_values(|t: Seq<char>| type_member(JsonView::Str(t)))))])
}

proof fn lemma_type_union_fuel(key: Seq<char>, ts: Seq<Seq<char>>, a: DocsView, g: DocsView, seen: Seq<Seq<char>>, fuel: nat)
    requires
        ts.len() > 0,
        key == "anyOf"@ || key == "oneOf"@,
    ensures
        shape_fuel(type_union(key, ts), a, g, seen, fuel) == shape_fuel(type_array(ts), a, g, seen, fuel),
{
    lemma_type_keys_distinct();
    let strs = ts.map_values(|t: Seq<char>| JsonView::Str(t));
    let ms = ts.map_values(|t: Seq<char>| type_member(JsonView::Str(t)));
    let va = type_array(ts);
    let vu = type_union(key, ts);
    assert(strs.map_values(|x: JsonView| type_member(x)) =~= ms);
    lemma_single_lookup("type"@, JsonView::Array(strs), "$ref"@);
    lemma_single_lookup("type"@, JsonView::Array(strs), "const"@);
    lemma_single_lookup("type"@, JsonView::Array(strs), "allOf"@);
    lemma_single_lookup("type"@, JsonView::Array(strs), "enum"@);
    lemma_single_lookup("type"@, JsonView::Array(strs), "anyOf"@);
    lemma_single_lookup("type"@, JsonView::Array(strs), "oneOf"@);
    lemma_single_lookup("type"@, JsonView::Array(strs), "type"@);
    lemma_single_lookup(key, JsonView::Array(ms), "$ref"@);
    lemma_single_lookup(key, JsonView::Array(ms), "const"@);
    lemma_single_lookup(key, JsonView::Array(ms), "allOf"@);
    lemma_single_lookup(key, JsonView::Array(ms), "enum"@);
    lemma_single_lookup(key, JsonView::Array(ms), "anyOf"@);
    lemma_single_lookup(key, JsonView::Array(ms), "oneOf"@);
    assert(union_members(vu) == Some(ms));
    assert(union_members(va) is None);
    lemma_single_lookup("type"@, JsonView::Str(ts[0]), "const"@);
    assert(ms[0].get("const"@) is None);
    assert(!all_const(ms));
    if fuel > 0 {
        let f = (fuel - 1) as nat;
        assert(shape_fuel(va, a, g, seen, fuel) == shape_tail(va, a, g, seen, fuel));
        assert(shape_fuel(vu, a, g, seen, fuel) == shape_tail(vu, a, g, seen, fuel));
        lemma_shapes_members(ms, a, g, seen, f);
        if let Some(Ok(shapes)) = shapes_fuel(ms, a, g, seen, f) {
            let d = dedup(sorted_strings(shapes));
            lemma_sorted_dedup(shapes);
            if d.contains("any"@) {
                assert(shapes.contains("any"@));
                let i = choose|i: int| 0 <= i < shapes.len() && shapes[i] == "any"@;
                assert(shape_fuel(ms[i], a, g, seen, f) == Some(Ok::<Seq<char>, Seq<char>>(shapes[i])));
                assert(ms[i] == type_member(JsonView::Str(ts[i])));
                lemma_type_member_not_any(ts[i], a, g, seen, f);
            }
        }
    }
}

/// A `type` array and a union of `{"type": t}` members have the same shape,
/// whether the union is an `anyOf` or a `oneOf`: the union of the members'
/// shapes (a `{"type": t}` member is never `any`).
pub proof fn lemma_type_array_equals_type_union(ts: Seq<Seq<char>>, a: DocsView, g: DocsView, seen: Seq<Seq<char>>)
    requires
        ts.len() > 0,
    ensures
        forall|fuel: nat| shape_fuel(#[trigger] type_union("anyOf"@, ts), a, g, seen, fuel) == shape_fuel(type_array(ts), a, g, seen, fuel),
        forall|fuel: nat| shape_fuel(#[trigger] type_union("oneOf"@, ts), a, g, seen, fuel) == shape_fuel(type_array(ts), a, g, seen, fuel),
        shape_terminates(type_array(ts), a, g, seen),
        shape_result(type_union("anyOf"@, ts), a, g, seen) == shape_result(type_array(ts), a, g, seen),
        shape_result(type_union("oneOf"@, ts), a, g, seen) == shape_result(type_array(ts), a, g, seen),
{
    assert forall|fuel: nat| shape_fuel(#[trigger] type_union("anyOf"@, ts), a, g, seen, fuel) == shape_fuel(type_array(ts), a, g, seen, fuel) by {
        lemma_type_union_fuel("anyOf"@, ts, a, g, seen, fuel);
    }
    assert forall|fuel: nat| shape_fuel(#[trigger] type_union("oneOf"@, ts), a, g, seen, fuel) == shape_fuel(type_array(ts), a, g, seen, fuel) by {
        lemma_type_union_fuel("oneOf"@, ts, a, g, seen, fuel);
    }
    lemma_type_array_terminates(ts, a, g, seen);
    {
        let f = choose|f: nat| shape_fuel(type_array(ts), a, g, seen, f) is Some;
        lemma_type_union_fuel("anyOf"@, ts, a, g, seen, f);
        lemma_type_union_fuel("oneOf"@, ts, a, g, seen, f);
        lemma_shape_result_any_fuel(type_array(ts), a, g, seen, f);
        lemma_shape_result_any_fuel(type_union("anyOf"@, ts), a, g, seen, f);
        lemma_shape_result_any_fuel(type_union("oneOf"@, ts), a, g, seen, f);
    }
}

proof fn lemma_insert_present_reads_keys(map: DocsView, v: JsonView, w: JsonView, keys: Seq<Seq<char>>)
    requires
        forall|i: int| 0 <= i < keys.len() ==> v.get(#[trigger] keys[i]) == w.get(keys[i]),
    ensures
        insert_present(map, v, keys) == insert_present(map, w, keys),
    decreases keys.len(),
{
    if keys.len() > 0 {
        lemma_insert_present_reads_keys(map, v, w, keys.drop_last());
        assert(v.get(keys[keys.len() - 1]) == w.get(keys[keys.len() - 1]));
    }
}

/// The scalar constraint of a schema reads only the listed keys: two schemas
/// that agree on them have the same scalar constraint.
pub proof fn lemma_scalar_constraint_reads_keys(v: JsonView, w: JsonView)
    requires
        forall|i: int| 0 <= i < scalar_key_list().len() ==> v.get(#[trigger] scalar_key_list()[i]) == w.get(
            scalar_key_list()[i],
        ),
    ensures
        scalar_constraint_text(v) == scalar_constraint_text(w),
{
    lemma_insert_present_reads_keys(Seq::empty(), v, w, scalar_key_list());
}

/// A `{"type": t}` member has a shape with any budget.
proof fn lemma_type_member_terminates(t: Seq<char>, a: DocsView, g: DocsView, seen: Seq<Seq<char>>, fuel: nat)
    requires
        fuel > 0,
    ensures
        shape_fuel(type_member(JsonView::Str(t)), a, g, seen, fuel) is Some,
{
    let v = type_member(JsonView::Str(t));
    lemma_type_keys_distinct();
    lemma_single_lookup("type"@, JsonView::Str(t), "$ref"@);
    lemma_single_lookup("type"@, JsonView::Str(t), "const"@);
    lemma_single_lookup("type"@, JsonView::Str(t), "allOf"@);
    lemma_single_lookup("type"@, JsonView::Str(t), "enum"@);
    lemma_single_lookup("type"@, JsonView::Str(t), "anyOf"@);
    lemma_single_lookup("type"@, JsonView::Str(t), "oneOf"@);
    lemma_single_lookup("type"@, JsonView::Str(t), "type"@);
    lemma_single_lookup("type"@, JsonView::Str(t), "items"@);
    lemma_single_lookup("type"@, JsonView::Str(t), "properties"@);
    assert(shape_fuel(v, a, g, seen, fuel) == shape_tail(v, a, g, seen, fuel));
    if t == "object"@ {
        assert(properties_of(v).len() == 0);
    }
}

/// A list of `{"type": t}` members has shapes with any budget.
proof fn lemma_type_members_terminate(ts: Seq<Seq<char>>, a: DocsView, g: DocsView, seen: Seq<Seq<char>>, fuel: nat)
    requires
        fuel > 0,
    ensures
        shapes_fuel(ts.map_values(|t: Seq<char>| type_member(JsonView::Str(t))), a, g, seen, fuel) is Some,
    decreases ts.len(),
{
    let ms = ts.map_values(|t: Seq<char>| type_member(JsonView::Str(t)));
    if ts.len() > 0 {
        lemma_type_members_terminate(ts.drop_last(), a, g, seen, fuel);
        assert(ms.drop_last() =~= ts.drop_last().map_values(|t: Seq<char>| type_member(JsonView::Str(t))));
        lemma_type_member_terminates(ts.last(), a, g, seen, fuel);
        assert(ms.last() == type_member(JsonView::Str(ts.last())));
    }
}

/// The shape of a `type` array always terminates.
pub proof fn lemma_type_array_terminates(ts: Seq<Seq<char>>, a: DocsView, g: DocsView, seen: Seq<Seq<char>>)
    ensures
        shape_terminates(type_array(ts), a, g, seen),
{
    lemma_type_keys_distinct();
    let strs = ts.map_values(|t: Seq<char>| JsonView::Str(t));
    let ms = ts.map_values(|t: Seq<char>| type_member(JsonView::Str(t)));
    let va = type_array(ts);
    assert(strs.map_values(|x: JsonView| type_member(x)) =~= ms);
    lemma_single_lookup("type"@, JsonView::Array(strs), "$ref"@);
    lemma_single_lookup("type"@, JsonView::Array(strs), "const"@);
    lemma_single_lookup("type"@, JsonView::Array(strs), "allOf"@);
    lemma_single_lookup("type"@, JsonView::Array(strs), "enum"@);
    lemma_single_lookup("type"@, JsonView::Array(strs), "anyOf"@);
    lemma_single_lookup("type"@, JsonView::Array(strs), "oneOf"@);
    lemma_single_lookup("type"@, JsonView::Array(strs), "type"@);
    assert(union_members(va) is None);
    lemma_type_members_terminate(ts, a, g, seen, 1);
    assert(shape_fuel(va, a, g, seen, 2) == shape_tail(va, a, g, seen, 2));
    assert(shape_fuel(va, a, g, seen, 2) is Some);
}

proof fn lemma_enum_shape_fuel(v: JsonView, es: Seq<JsonView>, a: DocsView, g: DocsView, seen: Seq<Seq<char>>)
    requires
        v == enum_schema(es) || v == const_union("anyOf"@, es) || v == const_union("oneOf"@, es),
    ensures
        shape_fuel(v, a, g, seen, 3) == Some(Ok::<Seq<char>, Seq<char>>(
            "enum:"@ + debug_list_text(sorted_strings(es.map_values(|x: JsonView| canonical_text(x)))),
        )),
{
    lemma_enum_equals_const_union(es, a, g);
    lemma_type_keys_distinct();
    reveal_strlit("enum");
    reveal_strlit("const");
    reveal_strlit("$ref");
    reveal_strlit("allOf");
    reveal_strlit("anyOf");
    reveal_strlit("oneOf");
    assert("enum"@[0] != "const"@[0]);
    assert("enum"@[0] != "allOf"@[0]);
    assert("anyOf"@ != "const"@);
    let cs = es.map_values(|x: JsonView| const_member(x));
    lemma_single_lookup("enum"@, JsonView::Array(es), "$ref"@);
    lemma_single_lookup("enum"@, JsonView::Array(es), "const"@);
    lemma_single_lookup("enum"@, JsonView::Array(es), "allOf"@);
    lemma_single_lookup("enum"@, JsonView::Array(es), "enum"@);
    lemma_single_lookup("anyOf"@, JsonView::Array(cs), "$ref"@);
    lemma_single_lookup("anyOf"@, JsonView::Array(cs), "const"@);
    lemma_single_lookup("anyOf"@, JsonView::Array(cs), "allOf"@);
    lemma_single_lookup("anyOf"@, JsonView::Array(cs), "enum"@);
    lemma_single_lookup("anyOf"@, JsonView::Array(cs), "anyOf"@);
    lemma_single_lookup("oneOf"@, JsonView::Array(cs), "$ref"@);
    lemma_single_lookup("oneOf"@, JsonView::Array(cs), "const"@);
    lemma_single_lookup("oneOf"@, JsonView::Array(cs), "allOf"@);
    lemma_single_lookup("oneOf"@, JsonView::Array(cs), "enum"@);
    lemma_single_lookup("oneOf"@, JsonView::Array(cs), "anyOf"@);
    lemma_single_lookup("oneOf"@, JsonView::Array(cs), "oneOf"@);
    assert forall|i: int| 0 <= i < cs.len() implies (#[trigger] cs[i]).get("const"@) is Some by {
        lemma_single_lookup("const"@, es[i], "const"@);
    }
    assert(all_const(cs));
    assert(shape_fuel(v, a, g, seen, 3) == shape_tail(v, a, g, seen, 3));
}

/// An `enum` and a union of `const`s over the same values have the same
/// shape, whether the union is an `anyOf` or a `oneOf`: `enum:` and the
/// sorted canonical texts of the values.
pub proof fn lemma_enum_shape_equals_const_union_shape(es: Seq<JsonView>, a: DocsView, g: DocsView, seen: Seq<Seq<char>>)
    ensures
        shape_terminates(enum_schema(es), a, g, seen),
        shape_terminates(const_union("anyOf"@, es), a, g, seen),
        shape_terminates(const_union("oneOf"@, es), a, g, seen),
        shape_result(enum_schema(es), a, g, seen) == Ok::<Seq<char>, Seq<char>>(
            "enum:"@ + debug_list_text(sorted_strings(es.map_values(|x: JsonView| canonical_text(x)))),
        ),
        shape_result(const_union("anyOf"@, es), a, g, seen) == shape_result(enum_schema(es), a, g, seen),
        shape_result(const_union("oneOf"@, es), a, g, seen) == shape_result(enum_schema(es), a, g, seen),
{
    lemma_enum_shape_fuel(enum_schema(es), es, a, g, seen);
    lemma_enum_shape_fuel(const_union("anyOf"@, es), es, a, g, seen);
    lemma_enum_shape_fuel(const_union("oneOf"@, es), es, a, g, seen);
    lemma_shape_result_any_fuel(enum_schema(es), a, g, seen, 3);
    lemma_shape_result_any_fuel(const_union("anyOf"@, es), a, g, seen, 3);
    lemma_shape_result_any_fuel(const_union("oneOf"@, es), a, g, seen, 3);
}

/// A property is required exactly when its name is one of the strings of the
/// schema's `required` array, at any position, and its field text then says
/// `required`, else `optional`.
pub proof fn lemma_required_is_membership(v: JsonView, name: Seq<char>, shape: Seq<char>)
    ensures
        is_required(v, name) <==> (v.get_array("required"@) matches Some(r) && r.contains(JsonView::Str(name))),
        field_text(name, v, shape) == name + ":"@ + (if v.get_array("required"@) matches Some(r) && r.contains(
            JsonView::Str(name),
        ) {
            "required"@
        } else {
            "optional"@
        }) + ":"@ + shape,
{
    if let Some(r) = v.get_array("required"@) {
        if r.contains(JsonView::Str(name)) {
            let i = choose|i: int| 0 <= i < r.len() && r[i] == JsonView::Str(name);
            assert(r[i].as_str() == Some(name));
        }
        if is_required(v, name) {
            let i = choose|i: int| 0 <= i < r.len() && r[i].as_str() == Some(name);
            assert(r[i] == JsonView::Str(name));
        }
    }
}

/// The order of the `required` array does not matter: two schemas whose
/// `required` arrays hold the same values, in any order, mark the same
/// properties required.
pub proof fn lemma_required_ignores_order(v: JsonView, w: JsonView, name: Seq<char>)
    requires
        v.get_array("required"@) matches Some(r) && w.get_array("required"@) matches Some(q)
            && r.to_multiset() == q.to_multiset(),
    ensures
        is_required(v, name) == is_required(w, name),
{
    lemma_required_is_membership(v, name, Seq::empty());
    lemma_required_is_membership(w, name, Seq::empty());
    let r = v.get_array("required"@).unwrap();
    let q = w.get_array("required"@).unwrap();
    r.to_multiset_ensures();
    q.to_multiset_ensures();
    assert(r.to_multiset().count(JsonView::Str(name)) == q.to_multiset().count(JsonView::Str(name)));
}

/// Following a union member's `$ref` does not change the enum values: a
/// member that is a `$ref` to a schema contributes what that schema would
/// contribute in its place.
pub proof fn lemma_member_ref_followed(
    prev: Seq<JsonView>,
    m: JsonView,
    t: JsonView,
    a: DocsView,
    g: DocsView,
    fuel: nat,
)
    requires
        m.get("$ref"@) is Some,
        m.get("const"@) is None,
        resolved(m, a, g) == Ok::<JsonView, Seq<char>>(t),
        t.get("$ref"@) is None,
        t.get("const"@) is None,
    ensures
        member_values_fuel(prev.push(m), a, g, fuel) == member_values_fuel(prev.push(t), a, g, fuel),
{
    assert(prev.push(m).drop_last() =~= prev);
    assert(prev.push(t).drop_last() =~= prev);
    assert(enum_fuel(m, a, g, fuel) == enum_fuel(t, a, g, fuel));
}

/// Following an `allOf` member's `$ref` does not change the merged
/// constraints: a member that is a `$ref` to a schema contributes that
/// schema's constraints.
pub proof fn lemma_allof_ref_followed(prev: Seq<JsonView>, m: JsonView, t: JsonView, a: DocsView, g: DocsView)
    requires
        m.get("$ref"@) is Some,
        resolved(m, a, g) == Ok::<JsonView, Seq<char>>(t),
        t.get("$ref"@) is None,
    ensures
        allof_merged(prev.push(m), a, g) == allof_merged(prev.push(t), a, g),
{
    assert(prev.push(m).drop_last() =~= prev);
    assert(prev.push(t).drop_last() =~= prev);
}

/// A schema given by a `$ref` has the enum values of the schema the
/// reference resolves to.
pub proof fn lemma_enum_ref_followed(v: JsonView, t: JsonView, a: DocsView, g: DocsView, fuel: nat)
    requires
        v.get("$ref"@) is Some,
        resolved(v, a, g) == Ok::<JsonView, Seq<char>>(t),
        t.get("$ref"@) is None,
    ensures
        enum_fuel(v, a, g, fuel) == enum_fuel(t, a, g, fuel),
{
}

/// A schema given by a `$ref` not yet being followed has the shape of the
/// schema the reference resolves to, with the reference then being followed;
/// one already being followed is `recursive`.
pub proof fn lemma_shape_ref_followed(
    v: JsonView,
    r: Seq<char>,
    t: JsonView,
    a: DocsView,
    g: DocsView,
    seen: Seq<Seq<char>>,
    fuel: nat,
)
    requires
        v.get_str("$ref"@) == Some(r),
        resolved(v, a, g) == Ok::<JsonView, Seq<char>>(t),
    ensures
        !seen.contains(r) ==> shape_fuel(v, a, g, seen, fuel + 1) == shape_fuel(t, a, g, seen.push(r), fuel),
        seen.contains(r) ==> shape_fuel(v, a, g, seen, fuel + 1) == Some(Ok::<Seq<char>, Seq<char>>("recursive"@)),
{
}

} // verus!
