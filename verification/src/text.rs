//! Character-level operations on strings, each stated over `Seq<char>`.

use vstd::prelude::*;

verus! {

/// `s` holds `needle` at position `at`.
pub open spec fn occurs_at(s: Seq<char>, needle: Seq<char>, at: int) -> bool {
    &&& 0 <= at
    &&& at + needle.len() <= s.len()
    &&& s.subrange(at, at + needle.len()) == needle
}

/// `needle` occurs somewhere in `s` (`str::contains`).
pub open spec fn seq_contains(s: Seq<char>, needle: Seq<char>) -> bool {
    exists|at: int| occurs_at(s, needle, at)
}

/// `s` begins with `prefix` (`str::starts_with`).
pub open spec fn has_prefix(s: Seq<char>, prefix: Seq<char>) -> bool {
    prefix.len() <= s.len() && s.take(prefix.len() as int) == prefix
}

/// `s` ends with `suffix` (`str::ends_with`).
pub open spec fn has_suffix(s: Seq<char>, suffix: Seq<char>) -> bool {
    suffix.len() <= s.len() && s.skip(s.len() - suffix.len()) == suffix
}

/// The order of `str`: lexicographic by code point, a proper prefix first.
pub open spec fn seq_lt(a: Seq<char>, b: Seq<char>) -> bool
    decreases a.len(),
{
    if a.len() == 0 {
        b.len() > 0
    } else if b.len() == 0 {
        false
    } else if a[0] != b[0] {
        a[0] < b[0]
    } else {
        seq_lt(a.drop_first(), b.drop_first())
    }
}

/// The characters of `s`, in order.
pub fn chars_of(s: &str) -> (res: Vec<char>)
    ensures
        res@ == s@,
{
    let mut res: Vec<char> = Vec::new();
    for c in it: s.chars()
        invariant
            res@ == it.seq().take(it.index()),
    {
        res.push(c);
    }
    res
}

/// Appends one character to a string.
/// Wraps `String::push`; trusted to append exactly `c`, as std documents.
#[verifier::external_body]
pub(crate) fn push_char(s: &mut String, c: char)
    ensures
        final(s)@ == old(s)@.push(c),
{
    s.push(c);
}

/// The string made of the characters `chars[lo..hi]`, in order.
pub fn string_of_range(chars: &[char], lo: usize, hi: usize) -> (res: String)
    requires
        lo <= hi <= chars@.len(),
    ensures
        res@ == chars@.subrange(lo as int, hi as int),
{
    let mut res = String::new();
    let mut i = lo;
    while i < hi
        invariant
            lo <= i <= hi,
            hi <= chars@.len(),
            res@ == chars@.subrange(lo as int, i as int),
        decreases hi - i,
    {
        push_char(&mut res, chars[i]);
        assert(chars@.subrange(lo as int, i + 1) == chars@.subrange(lo as int, i as int).push(chars@[i as int]));
        i = i + 1;
    }
    res
}

/// Lemma: stripping an equal first character keeps the order.
proof fn lemma_lt_skip(a: Seq<char>, b: Seq<char>, i: int)
    requires
        0 <= i <= a.len(),
        i <= b.len(),
        a.take(i) == b.take(i),
    ensures
        seq_lt(a, b) == seq_lt(a.skip(i), b.skip(i)),
    decreases i,
{
    if i > 0 {
        assert(a[0] == a.take(i)[0]);
        assert(b[0] == b.take(i)[0]);
        assert(a.drop_first().take(i - 1) == a.take(i).drop_first());
        assert(b.drop_first().take(i - 1) == b.take(i).drop_first());
        lemma_lt_skip(a.drop_first(), b.drop_first(), i - 1);
        assert(a.drop_first().skip(i - 1) == a.skip(i));
        assert(b.drop_first().skip(i - 1) == b.skip(i));
    } else {
        assert(a.skip(0) == a);
        assert(b.skip(0) == b);
    }
}

/// `a` comes strictly before `b` in the order of `str`.
pub fn chars_less(a: &[char], b: &[char]) -> (res: bool)
    ensures
        res == seq_lt(a@, b@),
{
    let mut i: usize = 0;
    while i < a.len() && i < b.len() && a[i] == b[i]
        invariant
            i <= a.len(),
            i <= b.len(),
            a@.take(i as int) == b@.take(i as int),
        decreases a.len() - i,
    {
        assert(a@.take(i + 1) == a@.take(i as int).push(a@[i as int]));
        assert(b@.take(i + 1) == b@.take(i as int).push(b@[i as int]));
        i = i + 1;
    }
    proof {
        lemma_lt_skip(a@, b@, i as int);
    }
    if i == a.len() {
        i < b.len()
    } else if i == b.len() {
        false
    } else {
        assert(a@.skip(i as int)[0] == a@[i as int]);
        assert(b@.skip(i as int)[0] == b@[i as int]);
        a[i] < b[i]
    }
}

/// `a` comes strictly before `b` in the order of `str`.
pub fn str_less(a: &str, b: &str) -> (res: bool)
    ensures
        res == seq_lt(a@, b@),
{
    let x = chars_of(a);
    let y = chars_of(b);
    chars_less(x.as_slice(), y.as_slice())
}

/// Whether `s` holds `needle` at position `at`.
fn chars_occur_at(s: &[char], needle: &[char], at: usize) -> (res: bool)
    requires
        at + needle@.len() <= s@.len(),
    ensures
        res == occurs_at(s@, needle@, at as int),
{
    let mut j: usize = 0;
    while j < needle.len()
        invariant
            j <= needle@.len(),
            s@.len() == s.len(),
            at + needle@.len() <= s@.len(),
            forall|k: int| 0 <= k < j ==> s@[at + k] == needle@[k],
        decreases needle.len() - j,
    {
        if s[at + j] != needle[j] {
            assert(s@.subrange(at as int, at + needle@.len())[j as int] != needle@[j as int]);
            return false;
        }
        j = j + 1;
    }
    assert(s@.subrange(at as int, at + needle@.len()) == needle@);
    true
}

/// `needle` occurs in `s`.
pub fn chars_contain(s: &[char], needle: &[char]) -> (res: bool)
    ensures
        res == seq_contains(s@, needle@),
{
    if needle.len() > s.len() {
        return false;
    }
    if needle.len() == 0 {
        assert(s@.subrange(0, 0) == needle@);
        assert(occurs_at(s@, needle@, 0));
        return true;
    }
    let last = s.len() - needle.len();
    let mut at: usize = 0;
    while at <= last
        invariant
            last == s@.len() - needle@.len(),
            needle@.len() > 0,
            s@.len() == s.len(),
            at <= last + 1,
            forall|k: int| 0 <= k < at ==> !occurs_at(s@, needle@, k),
        decreases last + 1 - at,
    {
        if chars_occur_at(s, needle, at) {
            return true;
        }
        at = at + 1;
    }
    false
}

/// `needle` occurs in `s` (`str::contains`).
pub fn str_contains(s: &str, needle: &str) -> (res: bool)
    ensures
        res == seq_contains(s@, needle@),
{
    let x = chars_of(s);
    let y = chars_of(needle);
    chars_contain(x.as_slice(), y.as_slice())
}

/// `s` begins with `prefix` (`str::starts_with`).
pub fn str_starts_with(s: &str, prefix: &str) -> (res: bool)
    ensures
        res == has_prefix(s@, prefix@),
{
    let x = chars_of(s);
    let y = chars_of(prefix);
    if y.len() > x.len() {
        return false;
    }
    let r = chars_occur_at(x.as_slice(), y.as_slice(), 0);
    assert(x@.subrange(0, y@.len() as int) == x@.take(y@.len() as int));
    r
}

/// `s` ends with `suffix` (`str::ends_with`).
pub fn str_ends_with(s: &str, suffix: &str) -> (res: bool)
    ensures
        res == has_suffix(s@, suffix@),
{
    let x = chars_of(s);
    let y = chars_of(suffix);
    if y.len() > x.len() {
        return false;
    }
    let r = chars_occur_at(x.as_slice(), y.as_slice(), x.len() - y.len());
    assert(x@.subrange(x@.len() - y@.len(), x@.len() as int) == x@.skip(x@.len() - y@.len()));
    r
}

/// `a` and `b` hold the same characters.
pub fn str_eq(a: &str, b: &str) -> (res: bool)
    ensures
        res == (a@ == b@),
{
    let x = chars_of(a);
    let y = chars_of(b);
    if x.len() != y.len() {
        return false;
    }
    if x.len() == 0 {
        assert(a@ == b@);
        return true;
    }
    let r = chars_occur_at(x.as_slice(), y.as_slice(), 0);
    assert(x@.subrange(0, y@.len() as int) == x@);
    r
}

/// What `{:?}` prints for a string: std's `Debug` rendering of a `str`.
pub uninterp spec fn debug_text(s: Seq<char>) -> Seq<char>;

/// The `Debug` rendering of `s`, quotes and escapes included.
/// Wraps `format!("{:?}", s)`; trusted to give the same text for the same string.
#[verifier::external_body]
pub(crate) fn debug_quoted(s: &str) -> (res: String)
    ensures
        res@ == debug_text(s@),
{
    format!("{s:?}")
}

/// The views of a sequence of strings.
pub open spec fn strings_view(v: Seq<String>) -> Seq<Seq<char>> {
    v.map_values(|s: String| s@)
}

/// Lemma: the views follow a push.
pub proof fn lemma_strings_view_push(v: Seq<String>, s: String)
    ensures
        strings_view(v.push(s)) == strings_view(v).push(s@),
{
    assert(strings_view(v.push(s)) =~= strings_view(v).push(s@));
}

/// The string `a` followed by `b`.
pub fn concat(a: &str, b: &str) -> (res: String)
    ensures
        res@ == a@ + b@,
{
    let mut r = String::from_str(a);
    r.append(b);
    r
}

/// `s` is one of the strings of `v`.
pub fn strings_contain(v: &Vec<String>, s: &String) -> (res: bool)
    ensures
        res == exists|j: int| 0 <= j < v@.len() && v@[j]@ == s@,
{
    let mut j: usize = 0;
    while j < v.len()
        invariant
            j <= v@.len(),
            forall|k: int| 0 <= k < j ==> v@[k]@ != s@,
        decreases v.len() - j,
    {
        if v[j] == *s {
            return true;
        }
        j = j + 1;
    }
    false
}

/// `str::split_once` at the first `c`: the text before it and, when `c`
/// occurs, the text after it.
pub open spec fn split_once(s: Seq<char>, c: char) -> (Seq<char>, Option<Seq<char>>) {
    match s.index_of_first(c) {
        Some(i) => (s.take(i), Some(s.skip(i + 1))),
        None => (s, None),
    }
}

/// `str::split_once` at the first `c`.
pub fn str_split_once(s: &str, c: char) -> (res: (String, Option<String>))
    ensures
        (res.0@, match res.1 {
            Some(t) => Some(t@),
            None => None,
        }) == split_once(s@, c),
{
    let chars = chars_of(s);
    let mut i: usize = 0;
    while i < chars.len()
        invariant
            i <= chars@.len(),
            chars@ == s@,
            forall|j: int| 0 <= j < i ==> chars@[j] != c,
        decreases chars.len() - i,
    {
        if chars[i] == c {
            proof {
                s@.index_of_first_ensures(c);
                assert(s@.contains(c));
                let k = s@.index_of_first(c).unwrap();
                assert(k == i);
            }
            let before = string_of_range(chars.as_slice(), 0, i);
            let after = string_of_range(chars.as_slice(), i + 1, chars.len());
            assert(chars@.subrange(0, i as int) == s@.take(i as int));
            assert(chars@.subrange(i + 1, chars@.len() as int) == s@.skip(i + 1));
            return (before, Some(after));
        }
        i = i + 1;
    }
    proof {
        s@.index_of_first_ensures(c);
        if s@.contains(c) {
            let k = choose|k: int| 0 <= k < s@.len() && s@[k] == c;
        }
    }
    (String::from_str(s), None)
}

/// `str::strip_prefix`: the text after `prefix`, when `s` begins with it.
pub open spec fn strip_prefix(s: Seq<char>, prefix: Seq<char>) -> Option<Seq<char>> {
    if has_prefix(s, prefix) {
        Some(s.skip(prefix.len() as int))
    } else {
        None
    }
}

/// `str::strip_prefix`.
pub fn str_strip_prefix(s: &str, prefix: &str) -> (res: Option<String>)
    ensures
        match res {
            Some(t) => strip_prefix(s@, prefix@) == Some(t@),
            None => strip_prefix(s@, prefix@) is None,
        },
{
    if str_starts_with(s, prefix) {
        let chars = chars_of(s);
        let p = chars_of(prefix);
        let rest = string_of_range(chars.as_slice(), p.len(), chars.len());
        assert(chars@.subrange(p@.len() as int, chars@.len() as int) == s@.skip(prefix@.len() as int));
        Some(rest)
    } else {
        None
    }
}

/// The views of a sequence of string slices.
pub open spec fn strs_view(v: Seq<&str>) -> Seq<Seq<char>> {
    v.map_values(|s: &str| s@)
}

/// The parts joined by `sep` (`<[String]>::join`).
pub open spec fn join(parts: Seq<Seq<char>>, sep: Seq<char>) -> Seq<char>
    decreases parts.len(),
{
    if parts.len() == 0 {
        Seq::empty()
    } else if parts.len() == 1 {
        parts[0]
    } else {
        join(parts.drop_last(), sep) + sep + parts.last()
    }
}

/// The strings of `parts` joined by `sep`.
pub fn join_strings(parts: &Vec<String>, sep: &str) -> (res: String)
    ensures
        res@ == join(strings_view(parts@), sep@),
{
    let ghost view = strings_view(parts@);
    let mut out = String::new();
    let mut i: usize = 0;
    while i < parts.len()
        invariant
            i <= parts@.len(),
            view == strings_view(parts@),
            view.len() == parts@.len(),
            out@ == join(view.take(i as int), sep@),
        decreases parts.len() - i,
    {
        assert(view.take(i + 1).drop_last() =~= view.take(i as int));
        assert(view.take(i + 1).last() == parts@[i as int]@);
        if i > 0 {
            out.append(sep);
        } else {
            assert(view.take(1)[0] == parts@[0]@);
        }
        out.append(parts[i].as_str());
        i = i + 1;
    }
    assert(view.take(parts@.len() as int) =~= view);
    out
}

/// A copy of a list of strings.
pub fn clone_strings(v: &Vec<String>) -> (res: Vec<String>)
    ensures
        strings_view(res@) == strings_view(v@),
{
    let mut out: Vec<String> = Vec::new();
    let mut i: usize = 0;
    while i < v.len()
        invariant
            i <= v@.len(),
            strings_view(out@) == strings_view(v@).take(i as int),
        decreases v.len() - i,
    {
        proof {
            lemma_strings_view_push(out@, v@[i as int]);
        }
        out.push(v[i].clone());
        assert(strings_view(v@).take(i + 1) =~= strings_view(v@).take(i as int).push(v@[i as int]@));
        i = i + 1;
    }
    assert(strings_view(v@).take(v@.len() as int) =~= strings_view(v@));
    out
}

/// What `{:?}` prints for a list of strings: the `Debug` rendering of each,
/// separated by `, `, in square brackets.
pub open spec fn debug_list_text(items: Seq<Seq<char>>) -> Seq<char> {
    "["@ + join(items.map_values(|s: Seq<char>| debug_text(s)), ", "@) + "]"@
}

/// The `Debug` rendering of `items` (`["a", "b"]`).
pub fn debug_list(items: &Vec<String>) -> (res: String)
    ensures
        res@ == debug_list_text(strings_view(items@)),
{
    let ghost rendered = strings_view(items@).map_values(|s: Seq<char>| debug_text(s));
    let mut parts: Vec<String> = Vec::new();
    let mut i: usize = 0;
    while i < items.len()
        invariant
            i <= items@.len(),
            rendered == strings_view(items@).map_values(|s: Seq<char>| debug_text(s)),
            strings_view(parts@) == rendered.take(i as int),
        decreases items.len() - i,
    {
        let q = debug_quoted(items[i].as_str());
        proof {
            lemma_strings_view_push(parts@, q);
        }
        parts.push(q);
        assert(rendered.take(i + 1) =~= rendered.take(i as int).push(debug_text(items@[i as int]@)));
        i = i + 1;
    }
    assert(rendered.take(items@.len() as int) =~= rendered);
    let inner = join_strings(&parts, ", ");
    let opened = concat("[", inner.as_str());
    concat(opened.as_str(), "]")
}

/// Splitting at the first `c` loses nothing: the parts joined by `c` give the
/// text back, and the part before holds no `c`; without a `c`, the text is
/// kept whole.
pub proof fn lemma_split_once_rejoins(s: Seq<char>, c: char)
    ensures
        match split_once(s, c) {
            (before, Some(after)) => s == before + seq![c] + after && !before.contains(c),
            (whole, None) => whole == s && !s.contains(c),
        },
{
    s.index_of_first_ensures(c);
    if let Some(i) = s.index_of_first(c) {
        assert(s =~= s.take(i) + seq![c] + s.skip(i + 1));
        if s.take(i).contains(c) {
            let k = choose|k: int| 0 <= k < s.take(i).len() && s.take(i)[k] == c;
            assert(s[k] == c);
        }
    }
}

/// Stripping a prefix loses nothing: the prefix followed by what is left
/// gives the text back.
pub proof fn lemma_strip_prefix_rejoins(s: Seq<char>, prefix: Seq<char>)
    ensures
        match strip_prefix(s, prefix) {
            Some(rest) => s == prefix + rest,
            None => !has_prefix(s, prefix),
        },
{
    if has_prefix(s, prefix) {
        assert(s =~= s.take(prefix.len() as int) + s.skip(prefix.len() as int));
    }
}

} // verus!
