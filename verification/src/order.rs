//! The order of strings, and sorting and deduplicating lists of strings in it.

use vstd::prelude::*;
use vstd::relations::{sorted_by, total_ordering};
use crate::text::{chars_less, chars_of, lemma_strings_view_push, seq_lt, strings_view};

verus! {

broadcast use {vstd::seq_lib::group_to_multiset_ensures, vstd::multiset::group_multiset_axioms};

/// `a` comes no later than `b` in the order of `str`.
pub open spec fn seq_le(a: Seq<char>, b: Seq<char>) -> bool {
    a == b || seq_lt(a, b)
}

/// The order of `str` as a relation.
pub open spec fn str_order() -> spec_fn(Seq<char>, Seq<char>) -> bool {
    |a: Seq<char>, b: Seq<char>| seq_le(a, b)
}

/// A list of strings in the order `sort` gives (`<[String]>::sort`).
pub open spec fn sorted_strings(s: Seq<Seq<char>>) -> Seq<Seq<char>> {
    s.sort_by(str_order())
}

/// A list with each run of equal neighbours cut to one (`Vec::dedup`).
pub open spec fn dedup(s: Seq<Seq<char>>) -> Seq<Seq<char>>
    decreases s.len(),
{
    if s.len() == 0 {
        s
    } else {
        let rest = dedup(s.drop_last());
        if s.len() >= 2 && s[s.len() - 2] == s.last() {
            rest
        } else {
            rest.push(s.last())
        }
    }
}

pub proof fn lemma_lt_irreflexive(a: Seq<char>)
    ensures
        !seq_lt(a, a),
    decreases a.len(),
{
    if a.len() > 0 {
        lemma_lt_irreflexive(a.drop_first());
    }
}

pub proof fn lemma_lt_asymmetric(a: Seq<char>, b: Seq<char>)
    ensures
        seq_lt(a, b) ==> !seq_lt(b, a),
    decreases a.len(),
{
    if a.len() > 0 && b.len() > 0 && a[0] == b[0] {
        lemma_lt_asymmetric(a.drop_first(), b.drop_first());
    }
}

pub proof fn lemma_lt_transitive(a: Seq<char>, b: Seq<char>, c: Seq<char>)
    ensures
        seq_lt(a, b) && seq_lt(b, c) ==> seq_lt(a, c),
    decreases a.len(),
{
    if a.len() > 0 && b.len() > 0 && c.len() > 0 {
        lemma_lt_transitive(a.drop_first(), b.drop_first(), c.drop_first());
    }
}

pub proof fn lemma_lt_total(a: Seq<char>, b: Seq<char>)
    ensures
        a == b || seq_lt(a, b) || seq_lt(b, a),
    decreases a.len(),
{
    if a.len() > 0 && b.len() > 0 && a[0] == b[0] {
        lemma_lt_total(a.drop_first(), b.drop_first());
        if a.drop_first() == b.drop_first() {
            assert(a =~= b) by {
                assert forall|i: int| 0 <= i < a.len() implies a[i] == b[i] by {
                    if i > 0 {
                        assert(a[i] == a.drop_first()[i - 1]);
                        assert(b[i] == b.drop_first()[i - 1]);
                    }
                }
            }
        }
    } else if a.len() == 0 && b.len() == 0 {
        assert(a =~= b);
    }
}

/// Lemma: the order of `str` is a total order.
pub proof fn lemma_str_order_total()
    ensures
        total_ordering(str_order()),
{
    assert forall|a: Seq<char>, b: Seq<char>, c: Seq<char>|
        #[trigger] str_order()(a, b) && #[trigger] str_order()(b, c) implies str_order()(a, c) by {
        lemma_lt_transitive(a, b, c);
    }
    assert forall|a: Seq<char>, b: Seq<char>|
        #[trigger] str_order()(a, b) && #[trigger] str_order()(b, a) implies a == b by {
        lemma_lt_asymmetric(a, b);
    }
    assert forall|a: Seq<char>, b: Seq<char>|
        #[trigger] str_order()(a, b) || #[trigger] str_order()(b, a) by {
        lemma_lt_total(a, b);
    }
}

/// Where `s` goes in the sorted list `out`: before the first entry it precedes.
fn insertion_point(out: &Vec<String>, s: &[char]) -> (p: usize)
    requires
        sorted_by(strings_view(out@), str_order()),
    ensures
        p <= out@.len(),
        forall|j: int| 0 <= j < p ==> seq_le(out@[j]@, s@),
        forall|j: int| p <= j < out@.len() ==> seq_lt(s@, out@[j]@),
{
    let mut p: usize = 0;
    while p < out.len()
        invariant
            p <= out@.len(),
            sorted_by(strings_view(out@), str_order()),
            forall|j: int| 0 <= j < p ==> seq_le(out@[j]@, s@),
        decreases out.len() - p,
    {
        let c = chars_of(out[p].as_str());
        if chars_less(s, c.as_slice()) {
            proof {
                lemma_str_order_total();
                assert forall|j: int| p <= j < out@.len() implies seq_lt(s@, out@[j]@) by {
                    assert(strings_view(out@)[p as int] == out@[p as int]@);
                    assert(strings_view(out@)[j] == out@[j]@);
                    if j > p {
                        assert(str_order()(out@[p as int]@, out@[j]@));
                        lemma_lt_transitive(s@, out@[p as int]@, out@[j]@);
                    }
                }
            }
            return p;
        }
        proof {
            lemma_lt_total(s@, c@);
        }
        p = p + 1;
    }
    p
}

/// The strings of `v`, sorted (`<[String]>::sort`).
pub fn sort_strings(v: Vec<String>) -> (res: Vec<String>)
    ensures
        strings_view(res@) == sorted_strings(strings_view(v@)),
{
    broadcast use vstd::seq_lib::group_to_multiset_ensures;

    let ghost input = strings_view(v@);
    let mut out: Vec<String> = Vec::new();
    let mut i: usize = 0;
    while i < v.len()
        invariant
            i <= v@.len(),
            input == strings_view(v@),
            sorted_by(strings_view(out@), str_order()),
            strings_view(out@).to_multiset() == input.take(i as int).to_multiset(),
        decreases v.len() - i,
    {
        let s = v[i].clone();
        let chars = chars_of(s.as_str());
        let p = insertion_point(&out, chars.as_slice());
        let ghost before = strings_view(out@);
        out.insert(p, s);
        proof {
            let after = strings_view(out@);
            assert(after =~= before.insert(p as int, s@));
            lemma_str_order_total();
            assert forall|a: int, b: int| 0 <= a < b < after.len() implies #[trigger] str_order()(after[a], after[b]) by {
                before.insert_ensures(p as int, s@);
                if b < p {
                    assert(str_order()(before[a], before[b]));
                } else if b == p {
                    assert(seq_le(before[a], s@));
                } else if a < p {
                    assert(seq_le(before[a], s@));
                    assert(seq_lt(s@, before[b - 1]));
                    lemma_lt_transitive(before[a], s@, before[b - 1]);
                } else if a == p {
                    assert(seq_lt(s@, before[b - 1]));
                } else {
                    assert(str_order()(before[a - 1], before[b - 1]));
                }
            }
            assert(after.remove(p as int) =~= before);
            assert(after[p as int] == s@);
            after.to_multiset_ensures();
            before.to_multiset_ensures();
            input.take(i as int).to_multiset_ensures();
            assert(input.take(i + 1) =~= input.take(i as int).push(input[i as int]));
            assert(input[i as int] == s@);
            assert(after.to_multiset().remove(s@) =~= before.to_multiset());
            assert(after.to_multiset().count(s@) > 0) by {
                assert(after.contains(s@));
            }
            assert(after.to_multiset() =~= before.to_multiset().insert(s@));
        }
        i = i + 1;
    }
    proof {
        assert(input.take(v@.len() as int) =~= input);
        lemma_str_order_total();
        input.lemma_sort_by_ensures(str_order());
        vstd::seq_lib::lemma_sorted_unique(strings_view(out@), input.sort_by(str_order()), str_order());
    }
    out
}

/// The strings of `v` with each run of equal neighbours cut to one (`Vec::dedup`).
pub fn dedup_strings(v: Vec<String>) -> (res: Vec<String>)
    ensures
        strings_view(res@) == dedup(strings_view(v@)),
{
    let ghost input = strings_view(v@);
    let mut out: Vec<String> = Vec::new();
    let mut i: usize = 0;
    while i < v.len()
        invariant
            i <= v@.len(),
            input == strings_view(v@),
            strings_view(out@) == dedup(input.take(i as int)),
        decreases v.len() - i,
    {
        let ghost prefix = input.take(i + 1);
        assert(prefix.drop_last() =~= input.take(i as int));
        assert(prefix.last() == v@[i as int]@);
        if i > 0 && v[i - 1] == v[i] {
            assert(prefix[prefix.len() - 2] == v@[i - 1]@);
        } else {
            proof {
                lemma_strings_view_push(out@, v@[i as int]);
            }
            out.push(v[i].clone());
        }
        i = i + 1;
    }
    assert(input.take(v@.len() as int) =~= input);
    out
}

/// What `dedup` keeps: the same strings, the last one last, and, from a
/// sorted list, a strictly ascending one.
proof fn lemma_dedup_members(t: Seq<Seq<char>>)
    ensures
        forall|x: Seq<char>| #[trigger] dedup(t).contains(x) <==> t.contains(x),
        t.len() > 0 ==> dedup(t).len() > 0 && dedup(t).last() == t.last(),
        sorted_by(t, str_order()) ==> forall|i: int, j: int|
            0 <= i < j < dedup(t).len() ==> seq_lt(#[trigger] dedup(t)[i], #[trigger] dedup(t)[j]),
    decreases t.len(),
{
    if t.len() > 0 {
        let p = t.drop_last();
        lemma_dedup_members(p);
        let r = dedup(p);
        let d = dedup(t);
        let repeated = t.len() >= 2 && t[t.len() - 2] == t.last();
        assert forall|x: Seq<char>| #[trigger] d.contains(x) <==> t.contains(x) by {
            if t.contains(x) {
                let k = choose|k: int| 0 <= k < t.len() && t[k] == x;
                if k < t.len() - 1 || repeated {
                    let k2 = if k < t.len() - 1 { k } else { t.len() - 2 };
                    assert(p[k2] == x);
                    assert(p.contains(x));
                    assert(r.contains(x));
                    let m = choose|m: int| 0 <= m < r.len() && r[m] == x;
                    assert(d[m] == x);
                } else {
                    assert(d[d.len() - 1] == x);
                }
                assert(d.contains(x));
            }
            if d.contains(x) {
                let k = choose|k: int| 0 <= k < d.len() && d[k] == x;
                if k < r.len() {
                    assert(r[k] == x);
                    assert(r.contains(x));
                    assert(p.contains(x));
                    let m = choose|m: int| 0 <= m < p.len() && p[m] == x;
                    assert(t[m] == x);
                } else {
                    assert(t[t.len() - 1] == x);
                }
                assert(t.contains(x));
            }
        }
        if sorted_by(t, str_order()) {
            assert(sorted_by(p, str_order())) by {
                assert forall|i: int, j: int| 0 <= i < j < p.len() implies #[trigger] str_order()(p[i], p[j]) by {
                    assert(str_order()(t[i], t[j]));
                }
            }
            if !repeated {
                assert forall|i: int, j: int| 0 <= i < j < d.len() implies seq_lt(#[trigger] d[i], #[trigger] d[j]) by {
                    if j < r.len() {
                        assert(d[i] == r[i] && d[j] == r[j]);
                    } else {
                        assert(p.len() > 0);
                        assert(r.last() == t[t.len() - 2]);
                        assert(str_order()(t[t.len() - 2], t[t.len() - 1]));
                        assert(seq_lt(r.last(), t.last()));
                        if i < r.len() - 1 {
                            assert(seq_lt(r[i], r[r.len() - 1]));
                            lemma_lt_transitive(r[i], r.last(), t.last());
                        }
                    }
                }
            }
        }
    }
}

/// Sorting a list of strings and cutting repeated neighbours gives its
/// distinct strings, each once, in strictly ascending order.
pub proof fn lemma_sorted_dedup(s: Seq<Seq<char>>)
    ensures
        forall|i: int, j: int|
            0 <= i < j < dedup(sorted_strings(s)).len() ==> seq_lt(
                #[trigger] dedup(sorted_strings(s))[i],
                #[trigger] dedup(sorted_strings(s))[j],
            ),
        forall|x: Seq<char>| #[trigger] dedup(sorted_strings(s)).contains(x) <==> s.contains(x),
{
    lemma_str_order_total();
    s.lemma_sort_by_ensures(str_order());
    let t = sorted_strings(s);
    lemma_dedup_members(t);
    assert forall|x: Seq<char>| t.contains(x) <==> s.contains(x) by {
        s.to_multiset_ensures();
        t.to_multiset_ensures();
        assert(s.to_multiset().count(x) == t.to_multiset().count(x));
    }
}

} // verus!
