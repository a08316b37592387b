//! A JSON document model: the values that the conformance and parity checks read.
//!
//! Object members are held in a `Vec` of key/value pairs.  Objects built by
//! [`object_from_entries`] and [`object_insert`] keep their keys strictly
//! ascending in the order of `str`, as a sorted map of strings would.

use vstd::prelude::*;
use crate::order::{lemma_lt_asymmetric, lemma_lt_irreflexive, lemma_lt_total, lemma_lt_transitive};
use crate::text::{chars_less, chars_of, concat, debug_quoted, debug_text, seq_lt};


verus! {

/// A JSON number, kept as JSON reads it: a non-negative integer, a negative
/// integer, or any other number by its JSON text.
pub enum JsonNumber {
    PosInt(u64),
    NegInt(i64),
    Float(String),
}

/// A JSON value.
pub enum Json {
    Null,
    Bool(bool),
    Number(JsonNumber),
    Str(String),
    Array(Vec<Json>),
    Object(Vec<(String, Json)>),
}

/// The mathematical form of a JSON number.
pub enum NumberView {
    PosInt(u64),
    NegInt(i64),
    Float(Seq<char>),
}

/// The mathematical form of a JSON value.
pub enum JsonView {
    Null,
    Bool(bool),
    Number(NumberView),
    Str(Seq<char>),
    Array(Seq<JsonView>),
    Object(Seq<(Seq<char>, JsonView)>),
}

pub open spec fn number_view(n: JsonNumber) -> NumberView {
    match n {
        JsonNumber::PosInt(u) => NumberView::PosInt(u),
        JsonNumber::NegInt(i) => NumberView::NegInt(i),
        JsonNumber::Float(t) => NumberView::Float(t@),
    }
}

pub open spec fn json_view(j: Json) -> JsonView
    decreases j,
{
    match j {
        Json::Null => JsonView::Null,
        Json::Bool(b) => JsonView::Bool(b),
        Json::Number(n) => JsonView::Number(number_view(n)),
        Json::Str(s) => JsonView::Str(s@),
        Json::Array(items) => JsonView::Array(items_view(items@)),
        Json::Object(entries) => JsonView::Object(entries_view(entries@)),
    }
}

pub open spec fn items_view(s: Seq<Json>) -> Seq<JsonView>
    decreases s,
{
    if s.len() == 0 {
        Seq::empty()
    } else {
        items_view(s.drop_last()).push(json_view(s.last()))
    }
}

pub open spec fn entries_view(s: Seq<(String, Json)>) -> Seq<(Seq<char>, JsonView)>
    decreases s,
{
    if s.len() == 0 {
        Seq::empty()
    } else {
        entries_view(s.drop_last()).push((s.last().0@, json_view(s.last().1)))
    }
}

impl View for Json {
    type V = JsonView;

    open spec fn view(&self) -> JsonView {
        json_view(*self)
    }
}

pub broadcast proof fn lemma_items_view(s: Seq<Json>)
    ensures
        #[trigger] items_view(s).len() == s.len(),
        forall|i: int| 0 <= i < s.len() ==> #[trigger] items_view(s)[i] == json_view(s[i]),
    decreases s.len(),
{
    if s.len() > 0 {
        lemma_items_view(s.drop_last());
        assert forall|i: int| 0 <= i < s.len() implies #[trigger] items_view(s)[i] == json_view(
            s[i],
        ) by {
            if i < s.len() - 1 {
                assert(s.drop_last()[i] == s[i]);
            }
        }
    }
}

pub broadcast proof fn lemma_entries_view(s: Seq<(String, Json)>)
    ensures
        #[trigger] entries_view(s).len() == s.len(),
        forall|i: int|
            0 <= i < s.len() ==> #[trigger] entries_view(s)[i] == (s[i].0@, json_view(s[i].1)),
    decreases s.len(),
{
    if s.len() > 0 {
        lemma_entries_view(s.drop_last());
        assert forall|i: int| 0 <= i < s.len() implies #[trigger] entries_view(s)[i] == (
            s[i].0@,
            json_view(s[i].1),
        ) by {
            if i < s.len() - 1 {
                assert(s.drop_last()[i] == s[i]);
            }
        }
    }
}

pub broadcast group group_json_view {
    lemma_items_view,
    lemma_entries_view,
}

/// The value of the first member named `key` (`serde_json::Map::get`).
pub open spec fn lookup(entries: Seq<(Seq<char>, JsonView)>, key: Seq<char>) -> Option<JsonView>
    decreases entries.len(),
{
    if entries.len() == 0 {
        None
    } else if entries[0].0 == key {
        Some(entries[0].1)
    } else {
        lookup(entries.drop_first(), key)
    }
}

/// Lemma: members before `i` that are not named `key` do not change the lookup.
pub proof fn lemma_lookup_skip(entries: Seq<(Seq<char>, JsonView)>, key: Seq<char>, i: int)
    requires
        0 <= i <= entries.len(),
        forall|j: int| 0 <= j < i ==> entries[j].0 != key,
    ensures
        lookup(entries, key) == lookup(entries.skip(i), key),
    decreases i,
{
    if i == 0 {
        assert(entries.skip(0) == entries);
    } else {
        lemma_lookup_skip(entries, key, i - 1);
        assert(entries.skip(i - 1).drop_first() == entries.skip(i));
    }
}

/// Lemma: a member named `key` that no earlier member shares gives the lookup.
pub proof fn lemma_lookup_found(entries: Seq<(Seq<char>, JsonView)>, key: Seq<char>, i: int)
    requires
        0 <= i < entries.len(),
        entries[i].0 == key,
        forall|j: int| 0 <= j < i ==> entries[j].0 != key,
    ensures
        lookup(entries, key) == Some(entries[i].1),
{
    lemma_lookup_skip(entries, key, i);
}

impl JsonView {
    /// `Value::get` with a key: the member's value, for an object.
    pub open spec fn get(self, key: Seq<char>) -> Option<JsonView> {
        match self {
            JsonView::Object(entries) => lookup(entries, key),
            _ => None,
        }
    }

    /// `Value::as_str`.
    pub open spec fn as_str(self) -> Option<Seq<char>> {
        match self {
            JsonView::Str(s) => Some(s),
            _ => None,
        }
    }

    /// `Value::as_array`.
    pub open spec fn as_array(self) -> Option<Seq<JsonView>> {
        match self {
            JsonView::Array(items) => Some(items),
            _ => None,
        }
    }

    /// `Value::as_object`.
    pub open spec fn as_object(self) -> Option<Seq<(Seq<char>, JsonView)>> {
        match self {
            JsonView::Object(entries) => Some(entries),
            _ => None,
        }
    }

    /// `Value::as_u64`.
    pub open spec fn as_u64(self) -> Option<u64> {
        match self {
            JsonView::Number(NumberView::PosInt(u)) => Some(u),
            _ => None,
        }
    }

    /// `Value::as_bool`.
    pub open spec fn as_bool(self) -> Option<bool> {
        match self {
            JsonView::Bool(b) => Some(b),
            _ => None,
        }
    }

    /// The string at member `key`, if there is one (`get(key).and_then(as_str)`).
    pub open spec fn get_str(self, key: Seq<char>) -> Option<Seq<char>> {
        match self.get(key) {
            Some(v) => v.as_str(),
            None => None,
        }
    }

    /// The array at member `key`, if there is one.
    pub open spec fn get_array(self, key: Seq<char>) -> Option<Seq<JsonView>> {
        match self.get(key) {
            Some(v) => v.as_array(),
            None => None,
        }
    }

    /// The object at member `key`, if there is one.
    pub open spec fn get_object(self, key: Seq<char>) -> Option<Seq<(Seq<char>, JsonView)>> {
        match self.get(key) {
            Some(v) => v.as_object(),
            None => None,
        }
    }

    /// The non-negative integer at member `key`, if there is one.
    pub open spec fn get_u64(self, key: Seq<char>) -> Option<u64> {
        match self.get(key) {
            Some(v) => v.as_u64(),
            None => None,
        }
    }
}

pub open spec fn opt_view(o: Option<&Json>) -> Option<JsonView> {
    match o {
        Some(j) => Some(j@),
        None => None,
    }
}

pub open spec fn opt_str_view(o: Option<&str>) -> Option<Seq<char>> {
    match o {
        Some(s) => Some(s@),
        None => None,
    }
}

/// The value of the first member of `entries` named `key`.
pub fn lookup_entries<'a>(entries: &'a Vec<(String, Json)>, key: &str) -> (res: Option<&'a Json>)
    ensures
        opt_view(res) == lookup(entries_view(entries@), key@),
{
    broadcast use group_json_view;

    let k = String::from_str(key);
    let ghost e = entries_view(entries@);
    proof {
        lemma_entries_view(entries@);
    }
    let mut i: usize = 0;
    while i < entries.len()
        invariant
            i <= entries@.len(),
            e == entries_view(entries@),
            e.len() == entries@.len(),
            k@ == key@,
            forall|j: int| 0 <= j < i ==> e[j].0 != key@,
        decreases entries.len() - i,
    {
        proof {
            lemma_entries_view(entries@);
        }
        assert(e[i as int] == (entries@[i as int].0@, json_view(entries@[i as int].1)));
        if entries[i].0 == k {
            proof {
                lemma_lookup_found(e, key@, i as int);
            }
            return Some(&entries[i].1);
        }
        i = i + 1;
    }
    proof {
        lemma_lookup_skip(e, key@, i as int);
    }
    None
}

impl Json {
    /// `Value::get` with a key.
    pub fn get(&self, key: &str) -> (res: Option<&Json>)
        ensures
            opt_view(res) == self@.get(key@),
    {
        match self {
            Json::Object(entries) => lookup_entries(entries, key),
            _ => None,
        }
    }

    /// `Value::as_str`.
    pub fn as_str(&self) -> (res: Option<&str>)
        ensures
            opt_str_view(res) == self@.as_str(),
    {
        match self {
            Json::Str(s) => Some(s.as_str()),
            _ => None,
        }
    }

    /// `Value::as_array`.
    pub fn as_array(&self) -> (res: Option<&Vec<Json>>)
        ensures
            match res {
                Some(items) => self@.as_array() == Some(items_view(items@)),
                None => self@.as_array() is None,
            },
    {
        match self {
            Json::Array(items) => Some(items),
            _ => None,
        }
    }

    /// `Value::as_object`.
    pub fn as_object(&self) -> (res: Option<&Vec<(String, Json)>>)
        ensures
            match res {
                Some(entries) => self@.as_object() == Some(entries_view(entries@)),
                None => self@.as_object() is None,
            },
    {
        match self {
            Json::Object(entries) => Some(entries),
            _ => None,
        }
    }

    /// `Value::as_u64`.
    pub fn as_u64(&self) -> (res: Option<u64>)
        ensures
            res == self@.as_u64(),
    {
        match self {
            Json::Number(JsonNumber::PosInt(u)) => Some(*u),
            _ => None,
        }
    }

    /// `Value::as_bool`.
    pub fn as_bool(&self) -> (res: Option<bool>)
        ensures
            res == self@.as_bool(),
    {
        match self {
            Json::Bool(b) => Some(*b),
            _ => None,
        }
    }

    /// The string at member `key`, if there is one.
    pub fn get_str(&self, key: &str) -> (res: Option<&str>)
        ensures
            opt_str_view(res) == self@.get_str(key@),
    {
        match self.get(key) {
            Some(v) => v.as_str(),
            None => None,
        }
    }

    /// The array at member `key`, if there is one.
    pub fn get_array(&self, key: &str) -> (res: Option<&Vec<Json>>)
        ensures
            match res {
                Some(items) => self@.get_array(key@) == Some(items_view(items@)),
                None => self@.get_array(key@) is None,
            },
    {
        match self.get(key) {
            Some(v) => v.as_array(),
            None => None,
        }
    }

    /// The object at member `key`, if there is one.
    pub fn get_object(&self, key: &str) -> (res: Option<&Vec<(String, Json)>>)
        ensures
            match res {
                Some(entries) => self@.get_object(key@) == Some(entries_view(entries@)),
                None => self@.get_object(key@) is None,
            },
    {
        match self.get(key) {
            Some(v) => v.as_object(),
            None => None,
        }
    }

    /// The non-negative integer at member `key`, if there is one.
    pub fn get_u64(&self, key: &str) -> (res: Option<u64>)
        ensures
            res == self@.get_u64(key@),
    {
        match self.get(key) {
            Some(v) => v.as_u64(),
            None => None,
        }
    }
}


/// A copy of `n`.
pub fn clone_number(n: &JsonNumber) -> (res: JsonNumber)
    ensures
        number_view(res) == number_view(*n),
{
    match n {
        JsonNumber::PosInt(u) => JsonNumber::PosInt(*u),
        JsonNumber::NegInt(i) => JsonNumber::NegInt(*i),
        JsonNumber::Float(t) => JsonNumber::Float(t.clone()),
    }
}

/// A deep copy of `j` (`Value::clone`).
pub fn clone_json(j: &Json) -> (res: Json)
    ensures
        res@ == j@,
    decreases j@,
{
    match j {
        Json::Null => Json::Null,
        Json::Bool(b) => Json::Bool(*b),
        Json::Number(n) => Json::Number(clone_number(n)),
        Json::Str(s) => Json::Str(s.clone()),
        Json::Array(items) => {
            let mut out: Vec<Json> = Vec::new();
            let mut i: usize = 0;
            while i < items.len()
                invariant
                    i <= items@.len(),
                    j@ == JsonView::Array(items_view(items@)),
                    items_view(out@) == items_view(items@).take(i as int),
                decreases items.len() - i,
            {
                proof {
                    lemma_items_view(items@);
                    lemma_items_view(out@.push(items@[i as int]));
                    assert(j@->Array_0 == items_view(items@));
                    assert(decreases_to!(j@ => j@->Array_0));
                    assert(decreases_to!(items_view(items@) => items_view(items@)[i as int]));
                }
                let c = clone_json(&items[i]);
                let ghost before = out@;
                out.push(c);
                proof {
                    lemma_items_view(out@);
                    lemma_items_view(before);
                    assert(items_view(out@) =~= items_view(items@).take(i + 1));
                }
                i = i + 1;
            }
            proof {
                lemma_items_view(items@);
                assert(items_view(items@).take(items@.len() as int) =~= items_view(items@));
            }
            Json::Array(out)
        },
        Json::Object(entries) => {
            let mut out: Vec<(String, Json)> = Vec::new();
            let mut i: usize = 0;
            while i < entries.len()
                invariant
                    i <= entries@.len(),
                    j@ == JsonView::Object(entries_view(entries@)),
                    entries_view(out@) == entries_view(entries@).take(i as int),
                decreases entries.len() - i,
            {
                proof {
                    lemma_entries_view(entries@);
                    assert(j@->Object_0 == entries_view(entries@));
                    assert(decreases_to!(j@ => j@->Object_0));
                    assert(decreases_to!(entries_view(entries@) => entries_view(entries@)[i as int]));
                    assert(decreases_to!(entries_view(entries@)[i as int] => entries_view(entries@)[i as int].1));
                    assert(decreases_to!(entries_view(entries@) => entries_view(entries@)[i as int]));
                }
                let c = clone_json(&entries[i].1);
                let k = entries[i].0.clone();
                let ghost before = out@;
                out.push((k, c));
                proof {
                    lemma_entries_view(out@);
                    lemma_entries_view(before);
                    assert(entries_view(out@) =~= entries_view(entries@).take(i + 1));
                }
                i = i + 1;
            }
            proof {
                lemma_entries_view(entries@);
                assert(entries_view(entries@).take(entries@.len() as int) =~= entries_view(entries@));
            }
            Json::Object(out)
        },
    }
}

// ----- objects as maps ordered by key -----

/// The keys of `e` strictly ascend, as in a sorted map.
pub open spec fn keys_sorted(e: Seq<(Seq<char>, JsonView)>) -> bool {
    forall|i: int, j: int| 0 <= i < j < e.len() ==> seq_lt(#[trigger] e[i].0, #[trigger] e[j].0)
}

/// A value as a JSON reader builds it: a negative integer held as negative,
/// and the keys of every object strictly ascending (so none repeats), all the
/// way down.
pub open spec fn json_wf(v: JsonView) -> bool
    decreases v, 1nat,
{
    match v {
        JsonView::Number(NumberView::NegInt(i)) => i < 0,
        JsonView::Array(items) => items_wf(items),
        JsonView::Object(es) => keys_sorted(es) && members_wf(es),
        _ => true,
    }
}

/// Every item is well-formed.
pub open spec fn items_wf(items: Seq<JsonView>) -> bool
    decreases items, 0nat,
{
    if items.len() == 0 {
        true
    } else {
        items_wf(items.drop_last()) && json_wf(items.last())
    }
}

/// Every member's value is well-formed.
pub open spec fn members_wf(es: Seq<(Seq<char>, JsonView)>) -> bool
    decreases es, 0nat,
{
    if es.len() == 0 {
        true
    } else {
        members_wf(es.drop_last()) && json_wf(es.last().1)
    }
}

/// Every member's value is well-formed, member by member.
pub proof fn lemma_members_wf(es: Seq<(Seq<char>, JsonView)>)
    ensures
        members_wf(es) <==> forall|i: int| 0 <= i < es.len() ==> #[trigger] json_wf(es[i].1),
    decreases es.len(),
{
    if es.len() > 0 {
        lemma_members_wf(es.drop_last());
        assert forall|i: int| 0 <= i < es.len() - 1 implies es.drop_last()[i] == es[i] by {}
        if forall|i: int| 0 <= i < es.len() ==> #[trigger] json_wf(es[i].1) {
            assert(json_wf(es[es.len() - 1].1));
            assert forall|i: int| 0 <= i < es.drop_last().len() implies #[trigger] json_wf(es.drop_last()[i].1) by {
                assert(json_wf(es[i].1));
            }
        }
        if members_wf(es) {
            assert forall|i: int| 0 <= i < es.len() implies #[trigger] json_wf(es[i].1) by {
                if i < es.len() - 1 {
                    assert(json_wf(es.drop_last()[i].1));
                }
            }
        }
    }
}

/// Some member of `e` is named `k`.
pub open spec fn has_member(e: Seq<(Seq<char>, JsonView)>, k: Seq<char>) -> bool {
    exists|i: int| 0 <= i < e.len() && #[trigger] e[i].0 == k
}

/// `Map::insert` on a map kept sorted by key: the member named `key` takes
/// `value`, or a new member goes in before the first greater key.
pub open spec fn map_insert(e: Seq<(Seq<char>, JsonView)>, key: Seq<char>, value: JsonView) -> Seq<
    (Seq<char>, JsonView),
>
    decreases e.len(),
{
    if e.len() == 0 {
        seq![(key, value)]
    } else if e[0].0 == key {
        e.update(0, (key, value))
    } else if seq_lt(key, e[0].0) {
        seq![(key, value)] + e
    } else {
        seq![e[0]] + map_insert(e.drop_first(), key, value)
    }
}

/// Lemma: entries before the place of `key` stay in front.
proof fn lemma_map_insert_skip(e: Seq<(Seq<char>, JsonView)>, key: Seq<char>, value: JsonView, p: int)
    requires
        0 <= p <= e.len(),
        forall|j: int| 0 <= j < p ==> seq_lt(#[trigger] e[j].0, key),
    ensures
        map_insert(e, key, value) == e.take(p) + map_insert(e.skip(p), key, value),
    decreases p,
{
    if p == 0 {
        assert(e.skip(0) =~= e);
        assert(e.take(0) + map_insert(e.skip(0), key, value) =~= map_insert(e, key, value));
    } else {
        lemma_lt_irreflexive(key);
        lemma_lt_asymmetric(e[0].0, key);
        assert(seq_lt(e[0].0, key));
        assert forall|j: int| 0 <= j < p - 1 implies seq_lt(#[trigger] e.drop_first()[j].0, key) by {
            assert(e.drop_first()[j] == e[j + 1]);
        }
        lemma_map_insert_skip(e.drop_first(), key, value, p - 1);
        assert(e.drop_first().skip(p - 1) =~= e.skip(p));
        assert(seq![e[0]] + e.drop_first().take(p - 1) =~= e.take(p));
    }
}

/// The keys that a map holds after an insertion.
pub proof fn lemma_map_insert_keys(e: Seq<(Seq<char>, JsonView)>, key: Seq<char>, value: JsonView)
    ensures
        forall|k: Seq<char>|
            #[trigger] has_member(map_insert(e, key, value), k) <==> (k == key || has_member(e, k)),
    decreases e.len(),
{
    let m = map_insert(e, key, value);
    if e.len() > 0 && e[0].0 != key && !seq_lt(key, e[0].0) {
        let d = e.drop_first();
        lemma_map_insert_keys(d, key, value);
        let r = map_insert(d, key, value);
        assert(m =~= seq![e[0]] + r);
        assert forall|k: Seq<char>| #[trigger] has_member(m, k) <==> (k == key || has_member(e, k)) by {
            if has_member(m, k) {
                let i = choose|i: int| 0 <= i < m.len() && #[trigger] m[i].0 == k;
                if i > 0 {
                    assert(r[i - 1].0 == k);
                    assert(has_member(r, k));
                    if k != key {
                        let j = choose|j: int| 0 <= j < d.len() && #[trigger] d[j].0 == k;
                        assert(e[j + 1].0 == k);
                    }
                } else {
                    assert(e[0].0 == k);
                }
            }
            if k == key || has_member(e, k) {
                if k == key || (exists|j: int| 1 <= j < e.len() && #[trigger] e[j].0 == k) {
                    if k != key {
                        let j = choose|j: int| 1 <= j < e.len() && #[trigger] e[j].0 == k;
                        assert(d[j - 1].0 == k);
                    }
                    assert(has_member(r, k));
                    let x = choose|x: int| 0 <= x < r.len() && #[trigger] r[x].0 == k;
                    assert(m[x + 1].0 == k);
                } else {
                    let j = choose|j: int| 0 <= j < e.len() && #[trigger] e[j].0 == k;
                    assert(j == 0);
                    assert(m[0].0 == k);
                }
            }
        }
    } else if e.len() > 0 && e[0].0 == key {
        assert forall|k: Seq<char>| #[trigger] has_member(m, k) <==> (k == key || has_member(e, k)) by {
            if has_member(e, k) {
                let i = choose|i: int| 0 <= i < e.len() && #[trigger] e[i].0 == k;
                assert(m[i].0 == k);
            }
            if k == key {
                assert(m[0].0 == k);
            }
            if has_member(m, k) {
                let i = choose|i: int| 0 <= i < m.len() && #[trigger] m[i].0 == k;
                assert(i == 0 || e[i].0 == k);
            }
        }
    } else if e.len() > 0 {
        assert forall|k: Seq<char>| #[trigger] has_member(m, k) <==> (k == key || has_member(e, k)) by {
            if has_member(e, k) {
                let i = choose|i: int| 0 <= i < e.len() && #[trigger] e[i].0 == k;
                assert(m[i + 1].0 == k);
            }
            if k == key {
                assert(m[0].0 == k);
            }
            if has_member(m, k) {
                let i = choose|i: int| 0 <= i < m.len() && #[trigger] m[i].0 == k;
                if i > 0 {
                    assert(e[i - 1].0 == k);
                }
            }
        }
    } else {
        assert forall|k: Seq<char>| #[trigger] has_member(m, k) <==> (k == key || has_member(e, k)) by {
            if k == key {
                assert(m[0].0 == k);
            }
        }
    }
}

/// Lemma: an insertion keeps a map sorted.
pub proof fn lemma_map_insert_sorted(e: Seq<(Seq<char>, JsonView)>, key: Seq<char>, value: JsonView)
    requires
        keys_sorted(e),
    ensures
        keys_sorted(map_insert(e, key, value)),
    decreases e.len(),
{
    let m = map_insert(e, key, value);
    if e.len() == 0 {
    } else if e[0].0 == key {
        assert forall|i: int, j: int| 0 <= i < j < m.len() implies seq_lt(#[trigger] m[i].0, #[trigger] m[j].0) by {
            assert(e[i].0 == m[i].0);
            assert(e[j].0 == m[j].0);
        }
    } else if seq_lt(key, e[0].0) {
        assert forall|i: int, j: int| 0 <= i < j < m.len() implies seq_lt(#[trigger] m[i].0, #[trigger] m[j].0) by {
            if i == 0 {
                if j > 1 {
                    lemma_lt_transitive(key, e[0].0, e[j - 1].0);
                }
            } else {
                assert(m[i] == e[i - 1] && m[j] == e[j - 1]);
            }
        }
    } else {
        let r = map_insert(e.drop_first(), key, value);
        assert(keys_sorted(e.drop_first())) by {
            assert forall|i: int, j: int| 0 <= i < j < e.drop_first().len() implies seq_lt(
                #[trigger] e.drop_first()[i].0,
                #[trigger] e.drop_first()[j].0,
            ) by {
                assert(e.drop_first()[i] == e[i + 1] && e.drop_first()[j] == e[j + 1]);
            }
        }
        lemma_map_insert_sorted(e.drop_first(), key, value);
        lemma_map_insert_keys(e.drop_first(), key, value);
        lemma_lt_total(key, e[0].0);
        assert(m =~= seq![e[0]] + r);
        assert forall|i: int, j: int| 0 <= i < j < m.len() implies seq_lt(#[trigger] m[i].0, #[trigger] m[j].0) by {
            if i == 0 {
                assert(m[j] == r[j - 1]);
                let k = r[j - 1].0;
                assert(has_member(r, k));
                if k != key {
                    let y = choose|y: int| 0 <= y < e.drop_first().len() && #[trigger] e.drop_first()[y].0 == k;
                    assert(e.drop_first()[y] == e[y + 1]);
                }
            } else {
                assert(m[i] == r[i - 1] && m[j] == r[j - 1]);
            }
        }
    }
}

/// The first place in `entries` whose key does not precede `key`.
fn insert_position(entries: &Vec<(String, Json)>, key: &[char]) -> (p: usize)
    ensures
        p <= entries@.len(),
        forall|j: int| 0 <= j < p ==> seq_lt(#[trigger] entries_view(entries@)[j].0, key@),
        p < entries@.len() ==> !seq_lt(entries_view(entries@)[p as int].0, key@),
{
    let ghost e = entries_view(entries@);
    let mut p: usize = 0;
    while p < entries.len()
        invariant
            p <= entries@.len(),
            e == entries_view(entries@),
            forall|j: int| 0 <= j < p ==> seq_lt(#[trigger] e[j].0, key@),
        decreases entries.len() - p,
    {
        proof {
            lemma_entries_view(entries@);
        }
        let c = chars_of(entries[p].0.as_str());
        if !chars_less(c.as_slice(), key) {
            return p;
        }
        p = p + 1;
    }
    p
}

/// `Map::insert` on a map sorted by key.
pub fn object_insert(entries: &mut Vec<(String, Json)>, key: String, value: Json)
    ensures
        entries_view(final(entries)@) == map_insert(entries_view(old(entries)@), key@, value@),
{
    let ghost e = entries_view(entries@);
    let kc = chars_of(key.as_str());
    let p = insert_position(entries, kc.as_slice());
    proof {
        lemma_entries_view(entries@);
        lemma_map_insert_skip(e, key@, value@, p as int);
    }
    let ghost tail = e.skip(p as int);
    if p < entries.len() && entries[p].0 == key {
        let ghost before = entries@;
        entries.set(p, (key, value));
        proof {
            lemma_entries_view(entries@);
            lemma_entries_view(before);
            assert(tail[0].0 == key@);
            assert(entries_view(entries@) =~= e.take(p as int) + tail.update(0, (key@, value@)));
        }
    } else {
        proof {
            if p < e.len() {
                lemma_lt_total(e[p as int].0, key@);
                assert(tail[0] == e[p as int]);
            }
        }
        let ghost before = entries@;
        entries.insert(p, (key, value));
        proof {
            lemma_entries_view(entries@);
            lemma_entries_view(before);
            assert(entries_view(entries@) =~= e.take(p as int) + (seq![(key@, value@)] + tail));
        }
    }
}

/// The map of `es`: each member inserted in turn.
pub open spec fn build_map(es: Seq<(Seq<char>, JsonView)>) -> Seq<(Seq<char>, JsonView)>
    decreases es.len(),
{
    if es.len() == 0 {
        Seq::empty()
    } else {
        map_insert(build_map(es.drop_last()), es.last().0, es.last().1)
    }
}

/// Member `i` repeats the key of an earlier member.
pub open spec fn repeats_earlier_key(es: Seq<(Seq<char>, JsonView)>, i: int) -> bool {
    0 <= i < es.len() && exists|j: int| 0 <= j < i && es[j].0 == es[i].0
}

/// The first member that repeats an earlier key, if any.
pub open spec fn first_repeated_key(es: Seq<(Seq<char>, JsonView)>) -> Option<Seq<char>>
    decreases es.len(),
{
    if es.len() == 0 {
        None
    } else {
        match first_repeated_key(es.drop_last()) {
            Some(k) => Some(k),
            None => if repeats_earlier_key(es, es.len() - 1) {
                Some(es.last().0)
            } else {
                None
            },
        }
    }
}

pub open spec fn duplicate_key_message(key: Seq<char>) -> Seq<char> {
    "duplicate JSON object key "@ + debug_text(key)
}

/// An object from its members in reading order: refused at the first key that
/// repeats, else a map sorted by key.
pub open spec fn object_from_members(es: Seq<(Seq<char>, JsonView)>) -> Result<JsonView, Seq<char>> {
    match first_repeated_key(es) {
        Some(k) => Err(duplicate_key_message(k)),
        None => Ok(JsonView::Object(build_map(es))),
    }
}

proof fn lemma_build_map_keys(es: Seq<(Seq<char>, JsonView)>)
    ensures
        keys_sorted(build_map(es)),
        forall|k: Seq<char>| #[trigger] has_member(build_map(es), k) <==> has_member(es, k),
    decreases es.len(),
{
    if es.len() > 0 {
        let prev = es.drop_last();
        lemma_build_map_keys(prev);
        lemma_map_insert_sorted(build_map(prev), es.last().0, es.last().1);
        lemma_map_insert_keys(build_map(prev), es.last().0, es.last().1);
        assert forall|k: Seq<char>| #[trigger] has_member(build_map(es), k) <==> has_member(es, k) by {
            if has_member(es, k) {
                let i = choose|i: int| 0 <= i < es.len() && #[trigger] es[i].0 == k;
                if i < es.len() - 1 {
                    assert(prev[i].0 == k);
                    assert(has_member(prev, k));
                }
            }
            if has_member(prev, k) {
                let i = choose|i: int| 0 <= i < prev.len() && #[trigger] prev[i].0 == k;
                assert(es[i].0 == k);
            }
        }
    }
}

proof fn lemma_first_repeated_extends(es: Seq<(Seq<char>, JsonView)>, m: int)
    requires
        0 <= m <= es.len(),
        first_repeated_key(es.take(m)) is Some,
    ensures
        first_repeated_key(es) == first_repeated_key(es.take(m)),
    decreases es.len() - m,
{
    if m < es.len() {
        assert(es.take(m + 1).drop_last() =~= es.take(m));
        lemma_first_repeated_extends(es, m + 1);
    } else {
        assert(es.take(m) =~= es);
    }
}

/// Whether some member of `map` is named `key`.
fn has_key(map: &Vec<(String, Json)>, key: &String) -> (res: bool)
    ensures
        res == has_member(entries_view(map@), key@),
{
    proof {
        lemma_entries_view(map@);
    }
    let mut i: usize = 0;
    while i < map.len()
        invariant
            i <= map@.len(),
            entries_view(map@).len() == map@.len(),
            forall|j: int| 0 <= j < i ==> #[trigger] entries_view(map@)[j].0 != key@,
        decreases map.len() - i,
    {
        proof {
            lemma_entries_view(map@);
        }
        if map[i].0 == *key {
            assert(entries_view(map@)[i as int].0 == key@);
            return true;
        }
        i = i + 1;
    }
    false
}

/// Whether a member named `key` may follow the members `entries` read so far:
/// refused, with the message `duplicate JSON object key "..."`, when it
/// repeats one of their keys.
pub fn admit_key(entries: &Vec<(String, Json)>, key: &str) -> (res: Result<(), String>)
    ensures
        res is Ok <==> !has_member(entries_view(entries@), key@),
        res matches Err(m) ==> m@ == duplicate_key_message(key@),
{
    let k = String::from_str(key);
    if has_key(entries, &k) {
        let q = debug_quoted(key);
        Err(concat("duplicate JSON object key ", q.as_str()))
    } else {
        Ok(())
    }
}

/// The object holding the members `entries`, in reading order, as a JSON
/// reader builds it: refused at the first key that repeats an earlier one
/// (with the message `duplicate JSON object key "..."`), otherwise with its
/// members sorted by key.
pub fn object_from_entries(entries: Vec<(String, Json)>) -> (res: Result<Json, String>)
    ensures
        match res {
            Ok(j) => object_from_members(entries_view(entries@)) == Ok::<JsonView, Seq<char>>(j@),
            Err(m) => object_from_members(entries_view(entries@)) == Err::<JsonView, Seq<char>>(m@),
        },
        res matches Ok(j) ==> j@ matches JsonView::Object(m) && keys_sorted(m),
        res matches Ok(j) ==> ((forall|i: int| 0 <= i < entries@.len() ==> json_wf(#[trigger] entries@[i].1@))
            ==> json_wf(j@)),
{
    let ghost es = entries_view(entries@);
    let mut map: Vec<(String, Json)> = Vec::new();
    let mut i: usize = 0;
    proof {
        lemma_entries_view(entries@);
    }
    assert(es.take(0) =~= Seq::<(Seq<char>, JsonView)>::empty());
    while i < entries.len()
        invariant
            i <= entries@.len(),
            es == entries_view(entries@),
            es.len() == entries@.len(),
            entries_view(map@) == build_map(es.take(i as int)),
            first_repeated_key(es.take(i as int)) is None,
        decreases entries.len() - i,
    {
        proof {
            lemma_entries_view(entries@);
            lemma_build_map_keys(es.take(i as int));
        }
        let ghost prefix = es.take(i + 1);
        assert(prefix.drop_last() =~= es.take(i as int));
        assert(prefix.last() == es[i as int]);
        assert(es[i as int] == (entries@[i as int].0@, entries@[i as int].1@));
        let key = &entries[i].0;
        if has_key(&map, key) {
            proof {
                assert(has_member(es.take(i as int), key@));
                let y = choose|y: int| 0 <= y < es.take(i as int).len() && #[trigger] es.take(i as int)[y].0 == key@;
                assert(prefix[y].0 == prefix[i as int].0);
                assert(repeats_earlier_key(prefix, i as int));
                lemma_first_repeated_extends(es, i + 1);
            }
            let q = debug_quoted(key.as_str());
            let m = concat("duplicate JSON object key ", q.as_str());
            return Err(m);
        }
        proof {
            assert(!repeats_earlier_key(prefix, i as int)) by {
                if repeats_earlier_key(prefix, i as int) {
                    let y = choose|y: int| 0 <= y < i && prefix[y].0 == prefix[i as int].0;
                    assert(es.take(i as int)[y].0 == key@);
                }
            }
        }
        let v = clone_json(&entries[i].1);
        object_insert(&mut map, key.clone(), v);
        i = i + 1;
    }
    proof {
        assert(es.take(entries@.len() as int) =~= es);
        lemma_build_map_keys(es);
        if forall|i: int| 0 <= i < entries@.len() ==> json_wf(#[trigger] entries@[i].1@) {
            assert forall|i: int| 0 <= i < es.len() implies #[trigger] json_wf(es[i].1) by {
                assert(es[i].1 == entries@[i].1@);
                assert(json_wf(entries@[i].1@));
            }
            lemma_build_map_wf(es);
        }
    }
    Ok(Json::Object(map))
}

/// Member `j` repeats an earlier key exactly when the members before it
/// already have that key.
proof fn lemma_repeats_iff_member(es: Seq<(Seq<char>, JsonView)>, j: int)
    requires
        0 <= j < es.len(),
    ensures
        repeats_earlier_key(es, j) <==> has_member(es.take(j), es[j].0),
{
    if repeats_earlier_key(es, j) {
        let i = choose|i: int| 0 <= i < j && es[i].0 == es[j].0;
        assert(es.take(j)[i].0 == es[j].0);
    }
    if has_member(es.take(j), es[j].0) {
        let i = choose|i: int| 0 <= i < es.take(j).len() && #[trigger] es.take(j)[i].0 == es[j].0;
        assert(es[i].0 == es[j].0);
    }
}

/// The first repeated key is the key of the first member that repeats one.
proof fn lemma_first_repeated_is_first(es: Seq<(Seq<char>, JsonView)>)
    ensures
        first_repeated_key(es) is None <==> forall|j: int| 0 <= j < es.len() ==> !#[trigger] repeats_earlier_key(es, j),
        first_repeated_key(es) matches Some(k) ==> exists|j: int|
            0 <= j < es.len() && #[trigger] repeats_earlier_key(es, j) && k == es[j].0 && forall|i: int|
                0 <= i < j ==> !#[trigger] repeats_earlier_key(es, i),
    decreases es.len(),
{
    if es.len() > 0 {
        let rest = es.drop_last();
        lemma_first_repeated_is_first(rest);
        assert forall|j: int| 0 <= j < rest.len() implies #[trigger] repeats_earlier_key(rest, j)
            == repeats_earlier_key(es, j) by {
            if repeats_earlier_key(es, j) {
                let i = choose|i: int| 0 <= i < j && es[i].0 == es[j].0;
                assert(rest[i].0 == rest[j].0);
            }
            if repeats_earlier_key(rest, j) {
                let i = choose|i: int| 0 <= i < j && rest[i].0 == rest[j].0;
                assert(es[i].0 == es[j].0);
            }
        }
        if let Some(k) = first_repeated_key(rest) {
            let j = choose|j: int|
                0 <= j < rest.len() && #[trigger] repeats_earlier_key(rest, j) && k == rest[j].0 && forall|i: int|
                    0 <= i < j ==> !#[trigger] repeats_earlier_key(rest, i);
            assert(repeats_earlier_key(es, j));
            assert forall|i: int| 0 <= i < j implies !#[trigger] repeats_earlier_key(es, i) by {
                assert(!repeats_earlier_key(rest, i));
            }
        } else {
            assert(forall|j: int| 0 <= j < rest.len() ==> !#[trigger] repeats_earlier_key(rest, j));
            if repeats_earlier_key(es, es.len() - 1) {
                let j = es.len() - 1;
                assert forall|i: int| 0 <= i < j implies !#[trigger] repeats_earlier_key(es, i) by {
                    assert(!repeats_earlier_key(rest, i));
                }
            } else {
                assert forall|j: int| 0 <= j < es.len() implies !#[trigger] repeats_earlier_key(es, j) by {
                    if j < es.len() - 1 {
                        assert(!repeats_earlier_key(rest, j));
                    }
                }
            }
        }
    }
}

/// Objects fail closed on repeated keys: the members read in order make an
/// object exactly when no two of them share a key.  When they do not, the
/// object is refused at the first member whose key the members before it
/// already have (the member `admit_key` refuses), naming that key.
pub proof fn lemma_repeated_keys_refused(es: Seq<(Seq<char>, JsonView)>)
    ensures
        object_from_members(es) is Ok <==> forall|i: int, j: int|
            0 <= i < j < es.len() ==> #[trigger] es[i].0 != #[trigger] es[j].0,
        object_from_members(es) is Ok <==> forall|j: int|
            0 <= j < es.len() ==> !has_member(#[trigger] es.take(j), es[j].0),
        object_from_members(es) matches Err(m) ==> exists|j: int|
            0 <= j < es.len() && has_member(#[trigger] es.take(j), es[j].0) && m == duplicate_key_message(es[j].0)
                && forall|i: int| 0 <= i < j ==> !has_member(#[trigger] es.take(i), es[i].0),
{
    lemma_first_repeated_is_first(es);
    assert forall|j: int| 0 <= j < es.len() implies #[trigger] repeats_earlier_key(es, j) == has_member(
        es.take(j),
        es[j].0,
    ) by {
        lemma_repeats_iff_member(es, j);
    }
    if first_repeated_key(es) is None {
        assert forall|i: int, j: int| 0 <= i < j < es.len() implies #[trigger] es[i].0 != #[trigger] es[j].0 by {
            assert(!repeats_earlier_key(es, j));
        }
        assert forall|j: int| 0 <= j < es.len() implies !has_member(#[trigger] es.take(j), es[j].0) by {
            assert(!repeats_earlier_key(es, j));
        }
    } else {
        let k = first_repeated_key(es).unwrap();
        let j = choose|j: int|
            0 <= j < es.len() && #[trigger] repeats_earlier_key(es, j) && k == es[j].0 && forall|i: int|
                0 <= i < j ==> !#[trigger] repeats_earlier_key(es, i);
        let i = choose|i: int| 0 <= i < j && es[i].0 == es[j].0;
        assert(es[i].0 == es[j].0);
        assert(has_member(es.take(j), es[j].0));
        assert forall|x: int| 0 <= x < j implies !has_member(#[trigger] es.take(x), es[x].0) by {
            assert(!repeats_earlier_key(es, x));
        }
    }
}

/// The members of an insertion are the old members and the new one.
proof fn lemma_map_insert_members(e: Seq<(Seq<char>, JsonView)>, key: Seq<char>, value: JsonView)
    requires
        forall|i: int| 0 <= i < e.len() ==> #[trigger] json_wf(e[i].1),
        json_wf(value),
    ensures
        forall|i: int| 0 <= i < map_insert(e, key, value).len() ==> #[trigger] json_wf(map_insert(e, key, value)[i].1),
    decreases e.len(),
{
    let m = map_insert(e, key, value);
    if e.len() > 0 && e[0].0 != key && !seq_lt(key, e[0].0) {
        lemma_map_insert_members(e.drop_first(), key, value);
        let r = map_insert(e.drop_first(), key, value);
        assert forall|i: int| 0 <= i < m.len() implies #[trigger] json_wf(m[i].1) by {
            if i > 0 {
                assert(m[i] == r[i - 1]);
            }
        }
    } else if e.len() > 0 && e[0].0 == key {
        assert forall|i: int| 0 <= i < m.len() implies #[trigger] json_wf(m[i].1) by {
            if i > 0 {
                assert(m[i] == e[i]);
            }
        }
    } else if e.len() > 0 {
        assert forall|i: int| 0 <= i < m.len() implies #[trigger] json_wf(m[i].1) by {
            if i > 0 {
                assert(m[i] == e[i - 1]);
            }
        }
    }
}

/// Inserting a well-formed member into a well-formed object keeps it
/// well-formed.
pub proof fn lemma_map_insert_wf(e: Seq<(Seq<char>, JsonView)>, key: Seq<char>, value: JsonView)
    requires
        json_wf(JsonView::Object(e)),
        json_wf(value),
    ensures
        json_wf(JsonView::Object(map_insert(e, key, value))),
{
    lemma_members_wf(e);
    lemma_map_insert_sorted(e, key, value);
    lemma_map_insert_members(e, key, value);
    lemma_members_wf(map_insert(e, key, value));
}

proof fn lemma_build_map_wf(es: Seq<(Seq<char>, JsonView)>)
    requires
        forall|i: int| 0 <= i < es.len() ==> #[trigger] json_wf(es[i].1),
    ensures
        json_wf(JsonView::Object(build_map(es))),
    decreases es.len(),
{
    if es.len() > 0 {
        assert forall|i: int| 0 <= i < es.drop_last().len() implies #[trigger] json_wf(es.drop_last()[i].1) by {
            assert(es.drop_last()[i] == es[i]);
        }
        lemma_build_map_wf(es.drop_last());
        assert(json_wf(es[es.len() - 1].1));
        lemma_map_insert_wf(build_map(es.drop_last()), es.last().0, es.last().1);
    }
}

} // verus!
