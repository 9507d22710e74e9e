//! The compact text carries no control characters: line breaks, tabs and
//! the rest are written as escapes.
use vstd::prelude::*;

use crate::grammar::{at, digits_end, is_digit, lemma_digits_end, lex_number};
use crate::roundtrip::{lemma_digits_of, lemma_hex_char_printable};
use crate::serialize::{compact, compact_items, compact_members, escape_char, escape_text, quoted};
use crate::text::digits_of;
use crate::value::JValue;

verus! {

/// No character of `t` is a control character (below U+0020).
pub open spec fn printable(t: Seq<char>) -> bool {
    forall|k: int| 0 <= k < t.len() ==> (#[trigger] t[k] as u32) >= 0x20
}

/// `t` is one whole number lexeme.
pub open spec fn is_number_text(t: Seq<char>) -> bool {
    lex_number(t, 0) matches Some((e, f)) && e == t.len()
}

/// Every float of `v` is held as a number lexeme.
pub open spec fn number_texts(v: JValue) -> bool
    decreases v,
{
    match v {
        JValue::Float(t) => is_number_text(t),
        JValue::Array(items) => items_number_texts(items),
        JValue::Object(members) => members_number_texts(members),
        _ => true,
    }
}

pub open spec fn items_number_texts(items: Seq<JValue>) -> bool
    decreases items,
{
    if items.len() == 0 {
        true
    } else {
        items_number_texts(items.drop_last()) && number_texts(items[items.len() - 1])
    }
}

pub open spec fn members_number_texts(members: Seq<(Seq<char>, JValue)>) -> bool
    decreases members,
{
    if members.len() == 0 {
        true
    } else {
        members_number_texts(members.drop_last()) && number_texts(members[members.len() - 1].1)
    }
}

pub proof fn lemma_printable_concat(a: Seq<char>, b: Seq<char>)
    requires
        printable(a),
        printable(b),
    ensures
        printable(a + b),
{
    assert forall|k: int| 0 <= k < (a + b).len() implies (#[trigger] (a + b)[k] as u32) >= 0x20 by {
        if k < a.len() {
            assert((a + b)[k] == a[k]);
        } else {
            assert((a + b)[k] == b[k - a.len()]);
        }
    }
}

/// A number lexeme is made of digits, signs, `.`, `e` and `E`.
pub proof fn lemma_number_text_printable(t: Seq<char>)
    requires
        is_number_text(t),
    ensures
        printable(t),
{
    let a: int = if at(t, 0) == Some('-') { 1 } else { 0 };
    lemma_digits_end(t, a);
    let b: int = if t[a] == '0' { a + 1 } else { digits_end(t, a) };
    if at(t, b) == Some('.') {
        lemma_digits_end(t, b + 1);
    }
    let c: int = if at(t, b) == Some('.') { digits_end(t, b + 1) } else { b };
    let e1: int = if at(t, c + 1) == Some('+') || at(t, c + 1) == Some('-') { c + 2 } else { c + 1 };
    if at(t, c) == Some('e') || at(t, c) == Some('E') {
        lemma_digits_end(t, e1);
    }
    assert forall|k: int| 0 <= k < t.len() implies (#[trigger] t[k] as u32) >= 0x20 by {
        if k < a {
        } else if k < b {
            if t[a] != '0' {
                assert(is_digit(t[k]));
            }
        } else if k < c {
            if k > b {
                assert(is_digit(t[k]));
            }
        } else if k == c {
        } else if k < e1 {
        } else {
            assert(is_digit(t[k]));
        }
    }
}

pub proof fn lemma_escape_char_printable(c: char)
    ensures
        printable(escape_char(c)),
{
    let e = escape_char(c);
    if e.len() == 6 {
        let u = c as u32;
        lemma_hex_char_printable(u as int / 16);
        lemma_hex_char_printable(u as int % 16);
    }
    assert forall|k: int| 0 <= k < e.len() implies (#[trigger] e[k] as u32) >= 0x20 by {
    }
}

pub proof fn lemma_escape_text_printable(cs: Seq<char>)
    ensures
        printable(escape_text(cs)),
    decreases cs.len(),
{
    if cs.len() > 0 {
        lemma_escape_text_printable(cs.drop_last());
        lemma_escape_char_printable(cs.last());
        lemma_printable_concat(escape_text(cs.drop_last()), escape_char(cs.last()));
    }
}

pub proof fn lemma_quoted_printable(cs: Seq<char>)
    ensures
        printable(quoted(cs)),
{
    lemma_escape_text_printable(cs);
    lemma_printable_concat(seq!['"'], escape_text(cs));
    lemma_printable_concat(seq!['"'] + escape_text(cs), seq!['"']);
}

pub proof fn lemma_compact_printable(v: JValue)
    requires
        number_texts(v),
    ensures
        printable(compact(v)),
    decreases v,
{
    match v {
        JValue::Int(n) => {
            let m: nat = if n < 0 { (-n) as nat } else { n as nat };
            lemma_digits_of(m);
            if n < 0 {
                lemma_printable_concat(seq!['-'], digits_of(m));
            }
        },
        JValue::Float(t) => {
            lemma_number_text_printable(t);
        },
        JValue::Str(cs) => {
            lemma_quoted_printable(cs);
        },
        JValue::Array(items) => {
            lemma_items_printable(items);
            lemma_printable_concat(seq!['['], compact_items(items));
            lemma_printable_concat(seq!['['] + compact_items(items), seq![']']);
        },
        JValue::Object(members) => {
            lemma_members_printable(members);
            lemma_printable_concat(seq!['{'], compact_members(members));
            lemma_printable_concat(seq!['{'] + compact_members(members), seq!['}']);
        },
        _ => {},
    }
}

pub proof fn lemma_items_printable(items: Seq<JValue>)
    requires
        items_number_texts(items),
    ensures
        printable(compact_items(items)),
    decreases items,
{
    if items.len() > 0 {
        lemma_items_printable(items.drop_last());
        vstd::seq::axiom_seq_index_decreases(items, items.len() - 1);
        lemma_compact_printable(items[items.len() - 1]);
        let sep: Seq<char> = if items.len() > 1 { seq![','] } else { Seq::empty() };
        lemma_printable_concat(compact_items(items.drop_last()), sep);
        lemma_printable_concat(compact_items(items.drop_last()) + sep, compact(items[items.len() - 1]));
    }
}

pub proof fn lemma_members_printable(members: Seq<(Seq<char>, JValue)>)
    requires
        members_number_texts(members),
    ensures
        printable(compact_members(members)),
    decreases members,
{
    if members.len() > 0 {
        let last = members[members.len() - 1];
        lemma_members_printable(members.drop_last());
        vstd::seq::axiom_seq_index_decreases(members, members.len() - 1);
        assert(decreases_to!(members[members.len() - 1] => members[members.len() - 1].1));
        lemma_compact_printable(last.1);
        lemma_quoted_printable(last.0);
        let sep: Seq<char> = if members.len() > 1 { seq![','] } else { Seq::empty() };
        let pre = compact_members(members.drop_last());
        lemma_printable_concat(pre, sep);
        lemma_printable_concat(pre + sep, quoted(last.0));
        lemma_printable_concat(pre + sep + quoted(last.0), seq![':']);
        lemma_printable_concat(pre + sep + quoted(last.0) + seq![':'], compact(last.1));
    }
}

/// The compact text of a value whose floats are number lexemes holds no
/// control character: no line break, tab or other character below U+0020.
pub proof fn law_compact_printable(v: JValue)
    requires
        number_texts(v),
    ensures
        printable(compact(v)),
{
    lemma_compact_printable(v);
}

} // verus!
