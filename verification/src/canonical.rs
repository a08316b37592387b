//! The compact JSON text of a value, as `serde_json::to_string` writes it:
//! no whitespace, object members in the order the object holds them.

use vstd::prelude::*;
use crate::json::{
    entries_view, items_view, lemma_entries_view, lemma_items_view, number_view, Json, JsonNumber,
    JsonView, NumberView,
};
use crate::text::push_char;

verus! {

/// The lowercase hexadecimal digit `d`.
pub open spec fn hex_digit(d: int) -> char {
    if d < 10 {
        (d + 48) as char
    } else {
        (d + 87) as char
    }
}

/// How `serde_json` writes one character inside a string literal: a quote, a
/// backslash and the control characters escaped (`\b`, `\t`, `\n`, `\f`,
/// `\r`, else `\u00XX`), every other character as it is.
pub open spec fn escaped_char(c: char) -> Seq<char> {
    if c == '"' {
        seq!['\\', '"']
    } else if c == '\\' {
        seq!['\\', '\\']
    } else if c == '\u{8}' {
        seq!['\\', 'b']
    } else if c == '\t' {
        seq!['\\', 't']
    } else if c == '\n' {
        seq!['\\', 'n']
    } else if c == '\u{c}' {
        seq!['\\', 'f']
    } else if c == '\r' {
        seq!['\\', 'r']
    } else if (c as u32) < 0x20 {
        seq!['\\', 'u', '0', '0', hex_digit((c as int) / 16), hex_digit((c as int) % 16)]
    } else {
        seq![c]
    }
}

/// The characters of `s`, each as it is written inside a string literal.
pub open spec fn escaped_text(s: Seq<char>) -> Seq<char>
    decreases s.len(),
{
    if s.len() == 0 {
        Seq::empty()
    } else {
        escaped_text(s.drop_last()) + escaped_char(s.last())
    }
}

/// The JSON string literal for `s`, quotes and escapes included, as
/// `serde_json` writes it.
pub open spec fn json_string_text(s: Seq<char>) -> Seq<char> {
    seq!['"'] + escaped_text(s) + seq!['"']
}

/// The JSON string literal for `s`.
/// Wraps `serde_json::to_string` on a `&str`, which cannot fail (it writes to
/// a `Vec`); trusted to escape as its `ESCAPE` table and `write_char_escape`
/// do, which `escaped_char` restates.
#[verifier::external_body]
fn quote(s: &str) -> (res: String)
    ensures
        res@ == json_string_text(s@),
{
    serde_json::to_string(s).unwrap_or_default()
}

/// The decimal digit `d`.
pub open spec fn digit_char(d: nat) -> char {
    (d + 48) as char
}

/// The decimal numeral of `n`, without leading zeros.
pub open spec fn decimal(n: nat) -> Seq<char>
    decreases n,
{
    if n < 10 {
        seq![digit_char(n)]
    } else {
        decimal(n / 10).push(digit_char(n % 10))
    }
}

/// The JSON text of a number.
pub open spec fn number_text(n: NumberView) -> Seq<char> {
    match n {
        NumberView::PosInt(u) => decimal(u as nat),
        NumberView::NegInt(i) => if i < 0 {
            seq!['-'] + decimal((-i) as nat)
        } else {
            decimal(i as nat)
        },
        NumberView::Float(t) => t,
    }
}

/// The compact JSON text of a value.
pub open spec fn canonical_text(v: JsonView) -> Seq<char>
    decreases v,
{
    match v {
        JsonView::Null => seq!['n', 'u', 'l', 'l'],
        JsonView::Bool(b) => if b {
            seq!['t', 'r', 'u', 'e']
        } else {
            seq!['f', 'a', 'l', 's', 'e']
        },
        JsonView::Number(n) => number_text(n),
        JsonView::Str(s) => json_string_text(s),
        JsonView::Array(items) => seq!['['] + items_text(items) + seq![']'],
        JsonView::Object(es) => seq!['{'] + members_text(es) + seq!['}'],
    }
}

/// The texts of `items`, separated by commas.
pub open spec fn items_text(items: Seq<JsonView>) -> Seq<char>
    decreases items,
{
    if items.len() == 0 {
        Seq::empty()
    } else if items.len() == 1 {
        canonical_text(items[0])
    } else {
        items_text(items.drop_last()) + seq![','] + canonical_text(items.last())
    }
}

/// The texts of the members `es` (`"key":value`), separated by commas.
pub open spec fn members_text(es: Seq<(Seq<char>, JsonView)>) -> Seq<char>
    decreases es,
{
    if es.len() == 0 {
        Seq::empty()
    } else if es.len() == 1 {
        json_string_text(es[0].0) + seq![':'] + canonical_text(es[0].1)
    } else {
        members_text(es.drop_last()) + seq![','] + json_string_text(es.last().0) + seq![':']
            + canonical_text(es.last().1)
    }
}

fn push_str(out: &mut String, s: &str)
    ensures
        final(out)@ == old(out)@ + s@,
{
    out.append(s);
}

fn write_decimal(n: u64, out: &mut String)
    ensures
        final(out)@ == old(out)@ + decimal(n as nat),
    decreases n,
{
    if n >= 10 {
        write_decimal(n / 10, out);
    }
    let d: u64 = n % 10;
    let c = ((d as u8) + 48u8) as char;
    assert(c == digit_char((n % 10) as nat));
    push_char(out, c);
}

fn write_number(n: &JsonNumber, out: &mut String)
    ensures
        final(out)@ == old(out)@ + number_text(number_view(*n)),
{
    match n {
        JsonNumber::PosInt(u) => write_decimal(*u, out),
        JsonNumber::NegInt(i) => {
            if *i < 0 {
                push_char(out, '-');
                let magnitude: u64 = (0i128 - (*i as i128)) as u64;
                write_decimal(magnitude, out);
            } else {
                write_decimal(*i as u64, out);
            }
        },
        JsonNumber::Float(t) => push_str(out, t.as_str()),
    }
}

fn write_json(j: &Json, out: &mut String)
    ensures
        final(out)@ == old(out)@ + canonical_text(j@),
    decreases j@,
{
    match j {
        Json::Null => {
            push_char(out, 'n');
            push_char(out, 'u');
            push_char(out, 'l');
            push_char(out, 'l');
        },
        Json::Bool(b) => {
            if *b {
                push_char(out, 't');
                push_char(out, 'r');
                push_char(out, 'u');
                push_char(out, 'e');
            } else {
                push_char(out, 'f');
                push_char(out, 'a');
                push_char(out, 'l');
                push_char(out, 's');
                push_char(out, 'e');
            }
        },
        Json::Number(n) => write_number(n, out),
        Json::Str(s) => {
            let q = quote(s.as_str());
            push_str(out, q.as_str());
        },
        Json::Array(items) => {
            let ghost start = out@;
            let ghost view = items_view(items@);
            push_char(out, '[');
            let mut i: usize = 0;
            while i < items.len()
                invariant
                    i <= items@.len(),
                    view == items_view(items@),
                    j@ == JsonView::Array(view),
                    out@ == start + seq!['['] + items_text(view.take(i as int)),
                decreases items.len() - i,
            {
                proof {
                    lemma_items_view(items@);
                    assert(j@->Array_0 == view);
                    assert(decreases_to!(j@ => j@->Array_0));
                    assert(decreases_to!(view => view[i as int]));
                    assert(view.take(i + 1).drop_last() =~= view.take(i as int));
                    assert(view.take(i + 1).last() == view[i as int]);
                    if i == 0 {
                        assert(view.take(1)[0] == view[0]);
                    }
                }
                if i > 0 {
                    push_char(out, ',');
                }
                write_json(&items[i], out);
                i = i + 1;
            }
            proof {
                lemma_items_view(items@);
                assert(view.take(items@.len() as int) =~= view);
            }
            push_char(out, ']');
        },
        Json::Object(entries) => {
            let ghost start = out@;
            let ghost view = entries_view(entries@);
            push_char(out, '{');
            let mut i: usize = 0;
            while i < entries.len()
                invariant
                    i <= entries@.len(),
                    view == entries_view(entries@),
                    j@ == JsonView::Object(view),
                    out@ == start + seq!['{'] + members_text(view.take(i as int)),
                decreases entries.len() - i,
            {
                proof {
                    lemma_entries_view(entries@);
                    assert(j@->Object_0 == view);
                    assert(decreases_to!(j@ => j@->Object_0));
                    assert(decreases_to!(view => view[i as int]));
                    assert(decreases_to!(view[i as int] => view[i as int].1));
                    assert(view.take(i + 1).drop_last() =~= view.take(i as int));
                    assert(view.take(i + 1).last() == view[i as int]);
                    if i == 0 {
                        assert(view.take(1)[0] == view[0]);
                    }
                }
                if i > 0 {
                    push_char(out, ',');
                }
                let q = quote(entries[i].0.as_str());
                push_str(out, q.as_str());
                push_char(out, ':');
                write_json(&entries[i].1, out);
                i = i + 1;
            }
            proof {
                lemma_entries_view(entries@);
                assert(view.take(entries@.len() as int) =~= view);
            }
            push_char(out, '}');
        },
    }
}

/// The compact JSON text of `value`: members in the order the object holds
/// them, so for a well-formed value (`json_wf`), whose keys ascend, the text
/// that `serde_json::to_string` writes.
pub fn canonical(value: &Json) -> (res: String)
    ensures
        res@ == canonical_text(value@),
{
    let mut out = String::new();
    write_json(value, &mut out);
    out
}

} // verus!
