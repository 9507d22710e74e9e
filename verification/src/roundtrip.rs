//! What the parser gives back of what the serializer writes.
use vstd::prelude::*;

use crate::grammar::{
    FloatRule, MAX_DEPTH, at, code_char, decimal, digit_at, digit_val, digits_end, fits_i64,
    hex_val, is_digit, is_hex, is_ws, lex_number, lexeme_int, p_array, p_elements, p_escape, p_hex4,
    p_hex_digits, p_members, p_number, p_object, p_string, p_string_rest, p_text, p_value, skip_ws,
    starts_value, strip_bom,
};
use crate::serialize::{
    compact, compact_items, compact_members, escape_char, escape_text, height, hex_char,
    items_height, members_height, pretty, pretty_items, pretty_members, quoted, spaces,
};
use crate::text::{digit_char, digits_of, int_text};
use crate::value::JValue;

verus! {

/// `t` is a float lexeme that the rule keeps as it is: a complete RFC 8259
/// number with a fraction or exponent (or an integer outside `i64`), which
/// `rule` maps to itself.
pub open spec fn float_text_ok(t: Seq<char>, rule: FloatRule) -> bool {
    &&& lex_number(t, 0) matches Some((e, is_float)) && e == t.len() && (is_float || !fits_i64(
        lexeme_int(t),
    ))
    &&& rule(t) == Some(t)
}

/// Every float of `v` is a text that `rule` keeps as it is.
pub open spec fn floats_ok(v: JValue, rule: FloatRule) -> bool
    decreases v,
{
    match v {
        JValue::Float(t) => float_text_ok(t, rule),
        JValue::Array(items) => items_floats_ok(items, rule),
        JValue::Object(members) => members_floats_ok(members, rule),
        _ => true,
    }
}

pub open spec fn items_floats_ok(items: Seq<JValue>, rule: FloatRule) -> bool
    decreases items,
{
    if items.len() == 0 {
        true
    } else {
        items_floats_ok(items.drop_last(), rule) && floats_ok(items[items.len() - 1], rule)
    }
}

pub open spec fn members_floats_ok(members: Seq<(Seq<char>, JValue)>, rule: FloatRule) -> bool
    decreases members,
{
    if members.len() == 0 {
        true
    } else {
        members_floats_ok(members.drop_last(), rule) && floats_ok(
            members[members.len() - 1].1,
            rule,
        )
    }
}

pub proof fn lemma_items_floats_ok(items: Seq<JValue>, rule: FloatRule)
    ensures
        items_floats_ok(items, rule) <==> forall|k: int|
            0 <= k < items.len() ==> floats_ok(#[trigger] items[k], rule),
    decreases items.len(),
{
    if items.len() > 0 {
        lemma_items_floats_ok(items.drop_last(), rule);
        if items_floats_ok(items, rule) {
            assert forall|k: int| 0 <= k < items.len() implies floats_ok(#[trigger] items[k], rule) by {
                if k < items.len() - 1 {
                    assert(items[k] == items.drop_last()[k]);
                }
            }
        }
        if forall|k: int| 0 <= k < items.len() ==> floats_ok(#[trigger] items[k], rule) {
            assert forall|k: int| 0 <= k < items.drop_last().len() implies floats_ok(
                #[trigger] items.drop_last()[k],
                rule,
            ) by {
                assert(items[k] == items.drop_last()[k]);
            }
        }
    }
}

pub proof fn lemma_members_floats_ok(members: Seq<(Seq<char>, JValue)>, rule: FloatRule)
    ensures
        members_floats_ok(members, rule) <==> forall|k: int|
            0 <= k < members.len() ==> floats_ok(#[trigger] members[k].1, rule),
    decreases members.len(),
{
    if members.len() > 0 {
        lemma_members_floats_ok(members.drop_last(), rule);
        if members_floats_ok(members, rule) {
            assert forall|k: int| 0 <= k < members.len() implies floats_ok(
                #[trigger] members[k].1,
                rule,
            ) by {
                if k < members.len() - 1 {
                    assert(members[k] == members.drop_last()[k]);
                }
            }
        }
        if forall|k: int| 0 <= k < members.len() ==> floats_ok(#[trigger] members[k].1, rule) {
            assert forall|k: int| 0 <= k < members.drop_last().len() implies floats_ok(
                #[trigger] members.drop_last()[k].1,
                rule,
            ) by {
                assert(members[k] == members.drop_last()[k]);
            }
        }
    }
}

/// `escape_text` read from the front.
pub proof fn lemma_escape_text_front(cs: Seq<char>)
    requires
        cs.len() > 0,
    ensures
        escape_text(cs) == escape_char(cs[0]) + escape_text(cs.drop_first()),
    decreases cs.len(),
{
    if cs.len() == 1 {
        assert(cs.drop_last() =~= Seq::<char>::empty());
        assert(cs.drop_first() =~= Seq::<char>::empty());
        assert(escape_text(cs) =~= escape_char(cs[0]) + escape_text(cs.drop_first()));
    } else {
        lemma_escape_text_front(cs.drop_last());
        assert(cs.drop_last().drop_first() =~= cs.drop_first().drop_last());
        assert(cs.drop_first().last() == cs.last());
        assert(escape_text(cs) =~= escape_char(cs[0]) + escape_text(cs.drop_first()));
    }
}

/// `compact_items` read from the front.
pub proof fn lemma_compact_items_front(items: Seq<JValue>)
    requires
        items.len() > 0,
    ensures
        compact_items(items) == compact(items[0]) + if items.len() > 1 {
            seq![','] + compact_items(items.drop_first())
        } else {
            Seq::empty()
        },
    decreases items.len(),
{
    if items.len() == 1 {
        assert(items.drop_last() =~= Seq::<JValue>::empty());
        assert(compact_items(Seq::<JValue>::empty()) == Seq::<char>::empty());
        assert(compact_items(items) =~= compact(items[0]));
    } else {
        lemma_compact_items_front(items.drop_last());
        let a = items.drop_last();
        let b = items.drop_first();
        assert(a.drop_first() =~= b.drop_last());
        assert(b[b.len() - 1] == items[items.len() - 1]);
        assert(a[0] == items[0]);
        assert(compact_items(items) == compact_items(a) + seq![','] + compact(items[items.len() - 1]));
        assert(compact_items(b) == compact_items(b.drop_last()) + (if b.len() > 1 {
            seq![',']
        } else {
            Seq::empty()
        }) + compact(b[b.len() - 1]));
        if b.len() == 1 {
            assert(b.drop_last() =~= Seq::<JValue>::empty());
            assert(compact_items(Seq::<JValue>::empty()) == Seq::<char>::empty());
        }
        assert(compact_items(items) =~= compact(items[0]) + (seq![','] + compact_items(
            items.drop_first(),
        )));
    }
}

/// `compact_members` read from the front.
pub proof fn lemma_compact_members_front(members: Seq<(Seq<char>, JValue)>)
    requires
        members.len() > 0,
    ensures
        compact_members(members) == quoted(members[0].0) + seq![':'] + compact(
            members[0].1,
        ) + if members.len() > 1 {
            seq![','] + compact_members(members.drop_first())
        } else {
            Seq::empty()
        },
    decreases members.len(),
{
    if members.len() == 1 {
        assert(members.drop_last() =~= Seq::<(Seq<char>, JValue)>::empty());
        assert(compact_members(Seq::<(Seq<char>, JValue)>::empty()) == Seq::<char>::empty());
        assert(compact_members(members) =~= quoted(members[0].0) + seq![':']
            + compact(members[0].1));
    } else {
        lemma_compact_members_front(members.drop_last());
        let a = members.drop_last();
        let b = members.drop_first();
        assert(a.drop_first() =~= b.drop_last());
        assert(b[b.len() - 1] == members[members.len() - 1]);
        assert(a[0] == members[0]);
        if b.len() == 1 {
            assert(b.drop_last() =~= Seq::<(Seq<char>, JValue)>::empty());
            assert(compact_members(Seq::<(Seq<char>, JValue)>::empty()) == Seq::<char>::empty());
        }
        assert(compact_members(members) =~= quoted(members[0].0) + seq![':']
            + compact(members[0].1) + (seq![','] + compact_members(members.drop_first())));
    }
}

pub proof fn lemma_digit_char(d: int)
    requires
        0 <= d < 10,
    ensures
        is_digit(digit_char(d)),
        digit_val(digit_char(d)) == d,
        (digit_char(d) == '0') == (d == 0),
{
    let u = (('0' as u32) + d) as u32;
    assert(u == 48 + d);
    vstd::utf8::char_u32_cast(digit_char(d), u);
    assert((u as char) as u32 == u) by {
        assert(vstd::utf8::is_scalar(u));
    }
}

/// The digits of `n`: all decimal digits, read back as `n`, with a leading
/// zero only for zero itself.
pub proof fn lemma_digits_of(n: nat)
    ensures
        digits_of(n).len() > 0,
        forall|k: int| 0 <= k < digits_of(n).len() ==> is_digit(#[trigger] digits_of(n)[k]),
        decimal(digits_of(n)) == n,
        digits_of(n)[0] == '0' ==> n == 0 && digits_of(n).len() == 1,
    decreases n,
{
    if n < 10 {
        lemma_digit_char(n as int);
        assert(seq![digit_char(n as int)].drop_last() =~= Seq::<char>::empty());
        assert(decimal(Seq::<char>::empty()) == 0);
    } else {
        lemma_digits_of(n / 10);
        lemma_digit_char((n % 10) as int);
        let p = digits_of(n / 10);
        assert(digits_of(n).drop_last() == p);
        assert(digits_of(n)[0] == p[0]);
        assert(digits_of(n).last() == digit_char((n % 10) as int));
        assert(decimal(digits_of(n)) == decimal(p) * 10 + digit_val(digit_char((n % 10) as int)));
        assert((n / 10) * 10 + n % 10 == n) by (nonlinear_arith);
    }
}

/// The decimal text of an integer is a complete integral lexeme for it.
pub proof fn lemma_int_text(n: i64)
    ensures
        lex_number(int_text(n as int), 0) == Some((int_text(n as int).len() as int, false)),
        lexeme_int(int_text(n as int)) == n,
        int_text(n as int)[0] == '-' || is_digit(int_text(n as int)[0]),
{
    let t = int_text(n as int);
    if n < 0 {
        let m = (-n) as nat;
        lemma_digits_of(m);
        let ds = digits_of(m);
        assert(t == seq!['-'] + ds);
        assert(t.drop_first() =~= ds);
        assert forall|k: int| 1 <= k < t.len() implies is_digit(#[trigger] t[k]) by {
            assert(t[k] == ds[k - 1]);
        }
        assert(at(t, 0) == Some('-'));
        assert(t[1] == ds[0]);
        if ds[0] == '0' {
            assert(false);
        } else {
            lemma_digits_end_all(t, 1);
        }
    } else {
        let m = n as nat;
        lemma_digits_of(m);
        assert(t == digits_of(m));
        assert(at(t, 0) != Some('-'));
        if t[0] == '0' {
            assert(t.len() == 1);
        } else {
            lemma_digits_end_all(t, 0);
        }
    }
    assert(t.subrange(0, t.len() as int) == t);
}

/// A run of digits up to the end is read to the end.
pub proof fn lemma_digits_end_all(t: Seq<char>, a: int)
    requires
        0 <= a <= t.len(),
        forall|k: int| a <= k < t.len() ==> is_digit(#[trigger] t[k]),
    ensures
        digits_end(t, a) == t.len(),
    decreases t.len() - a,
{
    if a < t.len() {
        lemma_digits_end_all(t, a + 1);
    }
}

/// `t` stands in `s` at `i`.
pub open spec fn embeds(s: Seq<char>, i: int, t: Seq<char>) -> bool {
    0 <= i && i + t.len() <= s.len() && s.subrange(i, i + t.len()) == t
}

/// Position `j` of `s` cannot continue a number: the end, or a character
/// other than a digit, `.`, `e` or `E`.
pub open spec fn stops_number(s: Seq<char>, j: int) -> bool {
    at(s, j) matches Some(c) ==> !is_digit(c) && c != '.' && c != 'e' && c != 'E'
}

pub proof fn lemma_at_local(s: Seq<char>, t: Seq<char>, i: int, x: int)
    requires
        embeds(s, i, t),
        0 <= x <= t.len(),
    ensures
        x < t.len() ==> at(s, i + x) == at(t, x),
        x == t.len() ==> at(t, x) is None,
{
    if x < t.len() {
        assert(s[i + x] == t[x]);
    }
}

pub proof fn lemma_digits_end_local(s: Seq<char>, t: Seq<char>, i: int, a: int)
    requires
        embeds(s, i, t),
        0 <= a <= t.len(),
        stops_number(s, i + t.len()),
    ensures
        digits_end(s, i + a) == i + digits_end(t, a),
    decreases t.len() - a,
{
    lemma_at_local(s, t, i, a);
    if a < t.len() {
        if digit_at(t, a) {
            lemma_digits_end_local(s, t, i, a + 1);
        }
    }
}

/// A number lexeme reads the same inside a text, when what follows it cannot
/// continue a number.
pub proof fn lemma_lex_local(s: Seq<char>, t: Seq<char>, i: int)
    requires
        embeds(s, i, t),
        lex_number(t, 0) matches Some((e, f)) && e == t.len(),
        stops_number(s, i + t.len()),
    ensures
        lex_number(s, i) == Some((i + t.len(), lex_number(t, 0).unwrap().1)),
{
    let n = t.len() as int;
    lemma_at_local(s, t, i, 0);
    let a: int = if at(t, 0) == Some('-') { 1 } else { 0 };
    lemma_at_local(s, t, i, a);
    lemma_digits_end_local(s, t, i, a);
    let b: int = if t[a] == '0' { a + 1 } else { digits_end(t, a) };
    crate::grammar::lemma_digits_end(t, a);
    lemma_at_local(s, t, i, b);
    if at(t, b) == Some('.') {
        lemma_at_local(s, t, i, b + 1);
        lemma_digits_end_local(s, t, i, b + 1);
        crate::grammar::lemma_digits_end(t, b + 1);
    }
    let c: int = if at(t, b) == Some('.') { digits_end(t, b + 1) } else { b };
    lemma_at_local(s, t, i, c);
    if at(t, c) == Some('e') || at(t, c) == Some('E') {
        lemma_at_local(s, t, i, c + 1);
        let e1: int = if at(t, c + 1) == Some('+') || at(t, c + 1) == Some('-') {
            c + 2
        } else {
            c + 1
        };
        if at(t, c + 1) == Some('+') || at(t, c + 1) == Some('-') {
            lemma_at_local(s, t, i, c + 2);
        }
        lemma_digits_end_local(s, t, i, e1);
    }
}

pub proof fn lemma_hex_char(d: int)
    requires
        0 <= d < 16,
    ensures
        is_hex(hex_char(d)),
        hex_val(hex_char(d)) == d,
{
    if d < 10 {
        lemma_digit_char(d);
    } else {
        let u = (('a' as u32) + (d - 10)) as u32;
        assert(u == 97 + d - 10);
        vstd::utf8::char_u32_cast(hex_char(d), u);
        assert((u as char) as u32 == u) by {
            assert(vstd::utf8::is_scalar(u));
        }
    }
}

pub proof fn lemma_hex_char_printable(d: int)
    requires
        0 <= d < 16,
    ensures
        (hex_char(d) as u32) >= 0x30,
{
    lemma_hex_char(d);
}

/// One escaped character reads back as that character.
pub proof fn lemma_read_escaped_char(s: Seq<char>, j: int, acc: Seq<char>, c: char)
    requires
        embeds(s, j, escape_char(c)),
        j + escape_char(c).len() < s.len(),
    ensures
        p_string_rest(s, j, acc) == p_string_rest(s, j + escape_char(c).len(), acc.push(c)),
{
    let e = escape_char(c);
    assert(s[j] == e[0]);
    if e.len() == 2 {
        assert(s[j + 1] == e[1]);
        assert(p_escape(s, j + 1) == Ok::<(char, int), (int, &'static str)>((c, j + 2)));
    } else if e.len() == 6 {
        let u = c as u32;
        lemma_hex_char(u as int / 16);
        lemma_hex_char(u as int % 16);
        assert(s[j + 1] == 'u');
        assert(s[j + 2] == '0');
        assert(s[j + 3] == '0');
        assert(s[j + 4] == hex_char(u as int / 16));
        assert(s[j + 5] == hex_char(u as int % 16));
        reveal_with_fuel(p_hex_digits, 5);
        assert(hex_val('0') == 0);
        assert((u as int / 16) * 16 + u as int % 16 == u as int);
        assert(p_hex4(s, j + 2) == Ok::<(int, int), (int, &'static str)>((u as int, j + 6)));
        vstd::utf8::char_u32_cast(c, u);
        assert(code_char(u as int) == c);
        assert(p_escape(s, j + 1) == Ok::<(char, int), (int, &'static str)>((c, j + 6)));
    } else {
        assert(e == seq![c]);
    }
}

/// The escaped text of `cs` followed by a quote reads back as `cs`.
pub proof fn lemma_read_escaped(s: Seq<char>, j: int, acc: Seq<char>, cs: Seq<char>)
    requires
        embeds(s, j, escape_text(cs)),
        at(s, j + escape_text(cs).len()) == Some('"'),
    ensures
        p_string_rest(s, j, acc) == Ok::<(Seq<char>, int), (int, &'static str)>(
            (acc + cs, j + escape_text(cs).len() + 1),
        ),
    decreases cs.len(),
{
    if cs.len() == 0 {
        assert(escape_text(cs) == Seq::<char>::empty());
        assert(acc + cs =~= acc);
    } else {
        lemma_escape_text_front(cs);
        let e = escape_char(cs[0]);
        let rest = escape_text(cs.drop_first());
        assert(s.subrange(j, j + e.len()) =~= e) by {
            assert forall|k: int| 0 <= k < e.len() implies s.subrange(j, j + e.len())[k] == e[k] by {
                assert(s[j + k] == escape_text(cs)[k]);
            }
        }
        assert(s.subrange(j + e.len(), j + e.len() + rest.len()) =~= rest) by {
            assert forall|k: int| 0 <= k < rest.len() implies s.subrange(
                j + e.len(),
                j + e.len() + rest.len(),
            )[k] == rest[k] by {
                assert(s[j + e.len() + k] == escape_text(cs)[e.len() as int + k]);
            }
        }
        lemma_read_escaped_char(s, j, acc, cs[0]);
        lemma_read_escaped(s, j + e.len(), acc.push(cs[0]), cs.drop_first());
        assert(acc.push(cs[0]) + cs.drop_first() =~= acc + cs);
    }
}

/// The string literal the serializer writes for any text reads back as
/// exactly that text, ending just after its closing quote.
pub proof fn law_parse_string_quoted(cs: Seq<char>)
    ensures
        p_string(quoted(cs), 0) == Ok::<(Seq<char>, int), (int, &'static str)>(
            (cs, quoted(cs).len() as int),
        ),
{
    let s = quoted(cs);
    assert(s.subrange(0, s.len() as int) == s);
    lemma_read_quoted(s, 0, cs);
}

/// A quoted string reads back as itself.
pub proof fn lemma_read_quoted(s: Seq<char>, i: int, cs: Seq<char>)
    requires
        embeds(s, i, quoted(cs)),
    ensures
        p_string(s, i) == Ok::<(Seq<char>, int), (int, &'static str)>((cs, i + quoted(cs).len())),
        at(s, i) == Some('"'),
{
    let e = escape_text(cs);
    assert(quoted(cs) == seq!['"'] + e + seq!['"']);
    assert(s[i] == quoted(cs)[0]);
    assert(s.subrange(i + 1, i + 1 + e.len()) =~= e) by {
        assert forall|k: int| 0 <= k < e.len() implies s.subrange(i + 1, i + 1 + e.len())[k]
            == e[k] by {
            assert(s[i + 1 + k] == quoted(cs)[1 + k]);
        }
    }
    assert(s[i + 1 + e.len()] == quoted(cs)[1 + e.len() as int]);
    lemma_read_escaped(s, i + 1, Seq::empty(), cs);
    assert(Seq::<char>::empty() + cs =~= cs);
}

/// Position `j` of `s` is where a value may end: the end of the text, a
/// `,`, `]` or `}`, or whitespace.
pub open spec fn ends_value(s: Seq<char>, j: int) -> bool {
    at(s, j) is None || at(s, j) == Some(',') || at(s, j) == Some(']') || at(s, j) == Some('}')
        || is_ws(s[j])
}

pub proof fn lemma_embeds_concat(s: Seq<char>, i: int, a: Seq<char>, b: Seq<char>)
    requires
        embeds(s, i, a + b),
    ensures
        embeds(s, i, a),
        embeds(s, i + a.len(), b),
{
    assert(s.subrange(i, i + a.len()) =~= a) by {
        assert forall|k: int| 0 <= k < a.len() implies s.subrange(i, i + a.len())[k] == a[k] by {
            assert(s[i + k] == (a + b)[k]);
        }
    }
    assert(s.subrange(i + a.len(), i + a.len() + b.len()) =~= b) by {
        assert forall|k: int| 0 <= k < b.len() implies s.subrange(
            i + a.len(),
            i + a.len() + b.len(),
        )[k] == b[k] by {
            assert(s[i + a.len() + k] == (a + b)[a.len() + k]);
        }
    }
}

pub proof fn lemma_embeds_at(s: Seq<char>, i: int, t: Seq<char>, k: int)
    requires
        embeds(s, i, t),
        0 <= k < t.len(),
    ensures
        s[i + k] == t[k],
{
    assert(s.subrange(i, i + t.len())[k] == s[i + k]);
}

/// A compact value is never empty, and starts with one of a value's first
/// characters.
pub proof fn lemma_compact_first(v: JValue, rule: FloatRule)
    requires
        floats_ok(v, rule),
    ensures
        compact(v).len() > 0,
        starts_value(compact(v)[0]),
{
    match v {
        JValue::Int(n) => {
            lemma_int_text(n);
        },
        JValue::Float(t) => {
            let a: int = if at(t, 0) == Some('-') { 1 } else { 0 };
        },
        JValue::Str(cs) => {
            assert(quoted(cs)[0] == '"');
        },
        JValue::Array(items) => {
            assert(compact(v)[0] == '[');
        },
        JValue::Object(members) => {
            assert(compact(v)[0] == '{');
        },
        _ => {},
    }
}

/// A compact value, followed by where a value may end, reads back as itself.
pub proof fn lemma_read_value(s: Seq<char>, i: int, d: int, rule: FloatRule, v: JValue)
    requires
        embeds(s, i, compact(v)),
        ends_value(s, i + compact(v).len()),
        floats_ok(v, rule),
        0 <= d,
        d + height(v) <= MAX_DEPTH,
    ensures
        p_value(s, i, d, rule) == Ok::<(JValue, int), (int, &'static str)>(
            (v, i + compact(v).len()),
        ),
    decreases v,
{
    lemma_compact_first(v, rule);
    let c = compact(v);
    assert(s[i] == c[0]);
    match v {
        JValue::Int(n) => {
            lemma_int_text(n);
            lemma_lex_local(s, c, i);
            assert(s.subrange(i, i + c.len()) == c);
        },
        JValue::Float(t) => {
            lemma_lex_local(s, c, i);
            assert(s.subrange(i, i + c.len()) == c);
        },
        JValue::Str(cs) => {
            lemma_read_quoted(s, i, cs);
        },
        JValue::Array(items) => {
            assert(c == seq!['['] + compact_items(items) + seq![']']);
            lemma_embeds_concat(s, i, seq!['['] + compact_items(items), seq![']']);
            lemma_embeds_concat(s, i, seq!['['], compact_items(items));
            lemma_embeds_at(s, i + 1 + compact_items(items).len(), seq![']'], 0);
            if items.len() == 0 {
                assert(compact_items(items) == Seq::<char>::empty());
                assert(items =~= Seq::<JValue>::empty());
            } else {
                lemma_compact_items_front(items);
                lemma_items_floats_ok(items, rule);
                lemma_compact_first(items[0], rule);
                assert(compact_items(items)[0] == compact(items[0])[0]);
                lemma_embeds_at(s, i + 1, compact_items(items), 0);
                lemma_items_floats_ok(items, rule);
                lemma_read_items(s, i + 1, d + 1, rule, Seq::empty(), items);
                assert(Seq::<JValue>::empty() + items =~= items);
            }
        },
        JValue::Object(members) => {
            assert(c == seq!['{'] + compact_members(members) + seq!['}']);
            lemma_embeds_concat(s, i, seq!['{'] + compact_members(members), seq!['}']);
            lemma_embeds_concat(s, i, seq!['{'], compact_members(members));
            lemma_embeds_at(s, i + 1 + compact_members(members).len(), seq!['}'], 0);
            if members.len() == 0 {
                assert(compact_members(members) == Seq::<char>::empty());
                assert(members =~= Seq::<(Seq<char>, JValue)>::empty());
            } else {
                lemma_compact_members_front(members);
                assert(compact_members(members)[0] == '"');
                lemma_embeds_at(s, i + 1, compact_members(members), 0);
                lemma_read_members(s, i + 1, d + 1, rule, Seq::empty(), members);
                assert(Seq::<(Seq<char>, JValue)>::empty() + members =~= members);
            }
        },
        _ => {
            assert(s.subrange(i, i + c.len()) == c);
        },
    }
}

/// The compact elements of a non-empty array, followed by `]`, read back as
/// themselves.
pub proof fn lemma_read_items(
    s: Seq<char>,
    j: int,
    d: int,
    rule: FloatRule,
    acc: Seq<JValue>,
    items: Seq<JValue>,
)
    requires
        items.len() > 0,
        embeds(s, j, compact_items(items)),
        at(s, j + compact_items(items).len()) == Some(']'),
        items_floats_ok(items, rule),
        1 <= d,
        d + items_height(items) <= MAX_DEPTH,
    ensures
        p_elements(s, j, d, rule, acc) == Ok::<(JValue, int), (int, &'static str)>(
            (JValue::Array(acc + items), j + compact_items(items).len() + 1),
        ),
    decreases items,
{
    lemma_compact_items_front(items);
    lemma_items_floats_ok(items, rule);
    crate::serialize::lemma_items_height(items);
    let x = items[0];
    let cx = compact(x);
    let rest = if items.len() > 1 {
        seq![','] + compact_items(items.drop_first())
    } else {
        Seq::empty()
    };
    lemma_embeds_concat(s, j, cx, rest);
    let k = j + cx.len();
    if items.len() > 1 {
        assert(rest[0] == ',');
        assert(s[k] == ',');
    } else {
        assert(rest =~= Seq::<char>::empty());
    }
    vstd::seq::axiom_seq_index_decreases(items, 0);
    lemma_read_value(s, j, d, rule, x);
    if items.len() > 1 {
        let tail = items.drop_first();
        lemma_embeds_concat(s, k, seq![','], compact_items(tail));
        lemma_compact_first(tail[0], rule);
        lemma_compact_items_front(tail);
        assert(compact_items(tail)[0] == compact(tail[0])[0]);
        assert(s[k + 1] == compact_items(tail)[0]);
        lemma_items_floats_ok(tail, rule);
        crate::serialize::lemma_items_height(tail);
        assert forall|u: int| 0 <= u < tail.len() implies height(#[trigger] tail[u]) <= items_height(
            items,
        ) by {
            assert(tail[u] == items[u + 1]);
        }
        lemma_items_height_bound(tail, items_height(items));
        vstd::seq::axiom_seq_subrange_decreases(items, 1, items.len() as int);
        assert(tail == items.subrange(1, items.len() as int));
        lemma_read_items(s, k + 1, d, rule, acc.push(x), tail);
        assert(acc.push(x) + tail =~= acc + items);
    } else {
        assert(acc.push(x) =~= acc + items);
    }
}

/// The height of a sequence is at most any bound on its elements' heights.
pub proof fn lemma_items_height_bound(items: Seq<JValue>, b: nat)
    requires
        forall|u: int| 0 <= u < items.len() ==> height(#[trigger] items[u]) <= b,
    ensures
        items_height(items) <= b,
    decreases items.len(),
{
    if items.len() > 0 {
        assert forall|u: int| 0 <= u < items.drop_last().len() implies height(
            #[trigger] items.drop_last()[u],
        ) <= b by {
            assert(items.drop_last()[u] == items[u]);
        }
        lemma_items_height_bound(items.drop_last(), b);
    }
}

/// The height of members is at most any bound on their values' heights.
pub proof fn lemma_members_height_bound(members: Seq<(Seq<char>, JValue)>, b: nat)
    requires
        forall|u: int| 0 <= u < members.len() ==> height(#[trigger] members[u].1) <= b,
    ensures
        members_height(members) <= b,
    decreases members.len(),
{
    if members.len() > 0 {
        assert forall|u: int| 0 <= u < members.drop_last().len() implies height(
            #[trigger] members.drop_last()[u].1,
        ) <= b by {
            assert(members.drop_last()[u] == members[u]);
        }
        lemma_members_height_bound(members.drop_last(), b);
    }
}

/// The compact members of a non-empty object, followed by `}`, read back as
/// themselves.
pub proof fn lemma_read_members(
    s: Seq<char>,
    j: int,
    d: int,
    rule: FloatRule,
    acc: Seq<(Seq<char>, JValue)>,
    members: Seq<(Seq<char>, JValue)>,
)
    requires
        members.len() > 0,
        embeds(s, j, compact_members(members)),
        at(s, j + compact_members(members).len()) == Some('}'),
        members_floats_ok(members, rule),
        1 <= d,
        d + members_height(members) <= MAX_DEPTH,
    ensures
        p_members(s, j, d, rule, acc) == Ok::<(JValue, int), (int, &'static str)>(
            (JValue::Object(acc + members), j + compact_members(members).len() + 1),
        ),
    decreases members,
{
    lemma_compact_members_front(members);
    lemma_members_floats_ok(members, rule);
    crate::serialize::lemma_members_height(members);
    let key = members[0].0;
    let x = members[0].1;
    let q = quoted(key);
    let cx = compact(x);
    let rest = if members.len() > 1 {
        seq![','] + compact_members(members.drop_first())
    } else {
        Seq::empty()
    };
    assert(compact_members(members) == q + seq![':'] + cx + rest);
    lemma_embeds_concat(s, j, q + seq![':'] + cx, rest);
    lemma_embeds_concat(s, j, q + seq![':'], cx);
    lemma_embeds_concat(s, j, q, seq![':']);
    lemma_read_quoted(s, j, key);
    let k = j + q.len();
    lemma_embeds_at(s, k, seq![':'], 0);
    lemma_compact_first(x, rule);
    assert(s[k + 1] == cx[0]);
    let k4 = k + 1 + cx.len();
    if members.len() > 1 {
        assert(rest[0] == ',');
        assert(s[k4] == ',');
    } else {
        assert(rest =~= Seq::<char>::empty());
    }
    vstd::seq::axiom_seq_index_decreases(members, 0);
    assert(decreases_to!(members[0] => members[0].1));
    lemma_read_value(s, k + 1, d, rule, x);
    if members.len() > 1 {
        let tail = members.drop_first();
        lemma_embeds_concat(s, k4, seq![','], compact_members(tail));
        lemma_compact_members_front(tail);
        assert(compact_members(tail)[0] == '"');
        assert(s[k4 + 1] == '"');
        lemma_members_floats_ok(tail, rule);
        assert forall|u: int| 0 <= u < tail.len() implies height(#[trigger] tail[u].1)
            <= members_height(members) by {
            assert(tail[u] == members[u + 1]);
        }
        lemma_members_height_bound(tail, members_height(members));
        vstd::seq::axiom_seq_subrange_decreases(members, 1, members.len() as int);
        assert(tail == members.subrange(1, members.len() as int));
        lemma_read_members(s, k4 + 1, d, rule, acc.push((key, x)), tail);
        assert(acc.push((key, x)) + tail =~= acc + members);
    } else {
        assert(acc.push((key, x)) =~= acc + members);
    }
}

/// Parsing the compact text of a value gives the value back, whenever its
/// floats are texts the float rule keeps as they are and its nesting is
/// within `MAX_DEPTH`.
pub proof fn law_parse_compact(v: JValue, rule: FloatRule)
    requires
        floats_ok(v, rule),
        height(v) <= MAX_DEPTH,
    ensures
        p_text(compact(v), rule) == Ok::<JValue, (int, &'static str)>(v),
{
    let s = compact(v);
    lemma_compact_first(v, rule);
    assert(strip_bom(s) == s);
    assert(s.subrange(0, s.len() as int) == s);
    lemma_read_value(s, 0, 0, rule, v);
}

/// Every text `rule` gives for a float is a float lexeme it keeps as it is.
pub open spec fn rule_stable(rule: FloatRule) -> bool {
    forall|lex: Seq<char>| #[trigger] rule(lex) is Some ==> float_text_ok(rule(lex).unwrap(), rule)
}

pub proof fn lemma_parsed_value(s: Seq<char>, i: int, d: int, rule: FloatRule)
    requires
        0 <= d <= MAX_DEPTH,
    ensures
        p_value(s, i, d, rule) matches Ok((v, j)) ==> d + height(v) <= MAX_DEPTH && (rule_stable(
            rule,
        ) ==> floats_ok(v, rule)),
    decreases s.len() - i, 1int,
{
    match at(s, i) {
        None => {},
        Some(c) => {
            if c == '{' {
                lemma_parsed_object(s, i, d, rule);
            } else if c == '[' {
                lemma_parsed_array(s, i, d, rule);
            } else if c == '-' || is_digit(c) {
                if let Ok((v, j)) = p_number(s, i, rule) {
                    if let JValue::Float(t) = v {
                        let (e, f) = lex_number(s, i).unwrap();
                        assert(rule(s.subrange(i, e)) == Some(t));
                    }
                }
            }
        },
    }
}

pub proof fn lemma_parsed_array(s: Seq<char>, i: int, d: int, rule: FloatRule)
    requires
        0 <= d <= MAX_DEPTH,
    ensures
        p_array(s, i, d, rule) matches Ok((v, j)) ==> d + height(v) <= MAX_DEPTH && (rule_stable(
            rule,
        ) ==> floats_ok(v, rule)),
    decreases s.len() - i, 0int,
{
    if d + 1 <= MAX_DEPTH && 0 <= i < s.len() {
        let j = skip_ws(s, i + 1);
        if at(s, j) == Some(']') {
            assert(items_height(Seq::<JValue>::empty()) == 0);
            assert(items_floats_ok(Seq::<JValue>::empty(), rule));
        } else if i < j <= s.len() {
            assert(items_height(Seq::<JValue>::empty()) == 0);
            assert(items_floats_ok(Seq::<JValue>::empty(), rule));
            lemma_parsed_elements(s, j, d + 1, rule, Seq::empty());
        }
    }
}

pub proof fn lemma_parsed_elements(s: Seq<char>, j: int, d: int, rule: FloatRule, acc: Seq<JValue>)
    requires
        1 <= d <= MAX_DEPTH,
        d + items_height(acc) <= MAX_DEPTH,
        rule_stable(rule) ==> items_floats_ok(acc, rule),
    ensures
        p_elements(s, j, d, rule, acc) matches Ok((v, k)) ==> d - 1 + height(v) <= MAX_DEPTH && (
        rule_stable(rule) ==> floats_ok(v, rule)),
    decreases s.len() - j, 2int,
{
    lemma_parsed_value(s, j, d, rule);
    if let Ok((v, k)) = p_value(s, j, d, rule) {
        let acc2 = acc.push(v);
        assert(acc2.drop_last() == acc);
        assert(acc2[acc2.len() - 1] == v);
        let k2 = skip_ws(s, k);
        if at(s, k2) == Some(',') {
            let k3 = skip_ws(s, k2 + 1);
            if j < k3 <= s.len() {
                lemma_parsed_elements(s, k3, d, rule, acc2);
            }
        }
    }
}

pub proof fn lemma_parsed_object(s: Seq<char>, i: int, d: int, rule: FloatRule)
    requires
        0 <= d <= MAX_DEPTH,
    ensures
        p_object(s, i, d, rule) matches Ok((v, j)) ==> d + height(v) <= MAX_DEPTH && (rule_stable(
            rule,
        ) ==> floats_ok(v, rule)),
    decreases s.len() - i, 0int,
{
    if d + 1 <= MAX_DEPTH && 0 <= i < s.len() {
        let j = skip_ws(s, i + 1);
        assert(members_height(Seq::<(Seq<char>, JValue)>::empty()) == 0);
        assert(members_floats_ok(Seq::<(Seq<char>, JValue)>::empty(), rule));
        if at(s, j) != Some('}') && i < j <= s.len() {
            lemma_parsed_members(s, j, d + 1, rule, Seq::empty());
        }
    }
}

pub proof fn lemma_parsed_members(
    s: Seq<char>,
    j: int,
    d: int,
    rule: FloatRule,
    acc: Seq<(Seq<char>, JValue)>,
)
    requires
        1 <= d <= MAX_DEPTH,
        d + members_height(acc) <= MAX_DEPTH,
        rule_stable(rule) ==> members_floats_ok(acc, rule),
    ensures
        p_members(s, j, d, rule, acc) matches Ok((v, k)) ==> d - 1 + height(v) <= MAX_DEPTH && (
        rule_stable(rule) ==> floats_ok(v, rule)),
    decreases s.len() - j, 2int,
{
    if at(s, j) == Some('"') {
        if let Ok((key, k)) = p_string(s, j) {
            let k2 = skip_ws(s, k);
            if at(s, k2) == Some(':') {
                let k3 = skip_ws(s, k2 + 1);
                if j < k3 <= s.len() {
                    lemma_parsed_value(s, k3, d, rule);
                    if let Ok((v, k4)) = p_value(s, k3, d, rule) {
                        let acc2 = acc.push((key, v));
                        assert(acc2.drop_last() == acc);
                        assert(acc2[acc2.len() - 1] == (key, v));
                        let k5 = skip_ws(s, k4);
                        if at(s, k5) == Some(',') {
                            let k6 = skip_ws(s, k5 + 1);
                            if k3 < k6 <= s.len() {
                                lemma_parsed_members(s, k6, d, rule, acc2);
                            }
                        }
                    }
                }
            }
        }
    }
}

/// A parsed value is nested at most `MAX_DEPTH` deep.
pub proof fn law_parse_depth_bounded(text: Seq<char>, rule: FloatRule)
    ensures
        p_text(text, rule) matches Ok(v) ==> height(v) <= MAX_DEPTH,
{
    let s = strip_bom(text);
    lemma_parsed_value(s, skip_ws(s, 0), 0, rule);
}

/// When the float rule keeps its own texts as they are, parsing the compact
/// text of a parsed value gives that value again: serialization and parsing
/// reach a fixpoint after one round.
pub proof fn law_reparse_compact(text: Seq<char>, rule: FloatRule)
    requires
        rule_stable(rule),
    ensures
        p_text(text, rule) matches Ok(v) ==> p_text(compact(v), rule) == Ok::<
            JValue,
            (int, &'static str),
        >(v),
{
    let s = strip_bom(text);
    lemma_parsed_value(s, skip_ws(s, 0), 0, rule);
    if let Ok(v) = p_text(text, rule) {
        law_parse_compact(v, rule);
    }
}

/// When the float rule keeps its own texts as they are, the compact text is a
/// fixpoint of parse-then-serialize: the value read back from the compact
/// text of a parsed value serializes to that same text.
pub proof fn law_compact_fixpoint(text: Seq<char>, rule: FloatRule)
    requires
        rule_stable(rule),
    ensures
        p_text(text, rule) matches Ok(v) ==> (p_text(compact(v), rule) matches Ok(w) ==> compact(w)
            == compact(v)),
{
    law_reparse_compact(text, rule);
}

/// A run of whitespace followed by something else is skipped exactly.
pub proof fn lemma_skip_run(s: Seq<char>, k: int, w: Seq<char>)
    requires
        embeds(s, k, w),
        forall|u: int| 0 <= u < w.len() ==> is_ws(#[trigger] w[u]),
        at(s, k + w.len()) matches Some(c) ==> !is_ws(c),
    ensures
        skip_ws(s, k) == k + w.len(),
    decreases w.len(),
{
    if w.len() > 0 {
        lemma_embeds_at(s, k, w, 0);
        assert(seq![w[0]] + w.drop_first() =~= w);
        lemma_embeds_concat(s, k, seq![w[0]], w.drop_first());
        assert forall|u: int| 0 <= u < w.drop_first().len() implies is_ws(
            #[trigger] w.drop_first()[u],
        ) by {
            assert(w.drop_first()[u] == w[u + 1]);
        }
        lemma_skip_run(s, k + 1, w.drop_first());
    }
}

pub proof fn lemma_spaces_ws(n: int)
    ensures
        forall|u: int| 0 <= u < spaces(n).len() ==> is_ws(#[trigger] spaces(n)[u]),
        n >= 0 ==> spaces(n).len() == n,
{
}

/// A line break and an indentation, then a non-blank, is skipped exactly.
pub proof fn lemma_skip_break(s: Seq<char>, k: int, n: int)
    requires
        n >= 0,
        embeds(s, k, seq!['\n'] + spaces(n)),
        at(s, k + 1 + n) matches Some(c) ==> !is_ws(c),
    ensures
        skip_ws(s, k) == k + 1 + n,
{
    let w = seq!['\n'] + spaces(n);
    lemma_spaces_ws(n);
    assert forall|u: int| 0 <= u < w.len() implies is_ws(#[trigger] w[u]) by {
        if u > 0 {
            assert(w[u] == spaces(n)[u - 1]);
        }
    }
    lemma_skip_run(s, k, w);
}

pub proof fn lemma_nonneg_product(a: int, b: int)
    requires
        a >= 0,
        b >= 0,
    ensures
        a * b >= 0,
{
    assert(a * b >= 0) by (nonlinear_arith)
        requires
            a >= 0,
            b >= 0,
    ;
}

/// `pretty_items` read from the front.
pub proof fn lemma_pretty_items_front(items: Seq<JValue>, ind: int, l: int)
    requires
        items.len() > 0,
    ensures
        pretty_items(items, ind, l) == spaces(ind * l) + pretty(items[0], ind, l) + if items.len()
            > 1 {
            seq![',', '\n'] + pretty_items(items.drop_first(), ind, l)
        } else {
            Seq::empty()
        },
    decreases items.len(),
{
    if items.len() == 1 {
        assert(items.drop_last() =~= Seq::<JValue>::empty());
        assert(pretty_items(Seq::<JValue>::empty(), ind, l) == Seq::<char>::empty());
        assert(pretty_items(items, ind, l) =~= spaces(ind * l) + pretty(items[0], ind, l));
    } else {
        lemma_pretty_items_front(items.drop_last(), ind, l);
        let a = items.drop_last();
        let b = items.drop_first();
        assert(a.drop_first() =~= b.drop_last());
        assert(b[b.len() - 1] == items[items.len() - 1]);
        assert(a[0] == items[0]);
        if b.len() == 1 {
            assert(b.drop_last() =~= Seq::<JValue>::empty());
            assert(pretty_items(Seq::<JValue>::empty(), ind, l) == Seq::<char>::empty());
        }
        assert(pretty_items(items, ind, l) =~= spaces(ind * l) + pretty(items[0], ind, l) + (
        seq![',', '\n'] + pretty_items(b, ind, l)));
    }
}

/// `pretty_members` read from the front.
pub proof fn lemma_pretty_members_front(members: Seq<(Seq<char>, JValue)>, ind: int, l: int)
    requires
        members.len() > 0,
    ensures
        pretty_members(members, ind, l) == spaces(ind * l) + quoted(members[0].0) + seq![':', ' ']
            + pretty(members[0].1, ind, l) + if members.len() > 1 {
            seq![',', '\n'] + pretty_members(members.drop_first(), ind, l)
        } else {
            Seq::empty()
        },
    decreases members.len(),
{
    if members.len() == 1 {
        assert(members.drop_last() =~= Seq::<(Seq<char>, JValue)>::empty());
        assert(pretty_members(Seq::<(Seq<char>, JValue)>::empty(), ind, l) == Seq::<char>::empty());
        assert(pretty_members(members, ind, l) =~= spaces(ind * l) + quoted(members[0].0) + seq![
            ':',
            ' ',
        ] + pretty(members[0].1, ind, l));
    } else {
        lemma_pretty_members_front(members.drop_last(), ind, l);
        let a = members.drop_last();
        let b = members.drop_first();
        assert(a.drop_first() =~= b.drop_last());
        assert(b[b.len() - 1] == members[members.len() - 1]);
        assert(a[0] == members[0]);
        if b.len() == 1 {
            assert(b.drop_last() =~= Seq::<(Seq<char>, JValue)>::empty());
            assert(pretty_members(Seq::<(Seq<char>, JValue)>::empty(), ind, l)
                == Seq::<char>::empty());
        }
        assert(pretty_members(members, ind, l) =~= spaces(ind * l) + quoted(members[0].0) + seq![
            ':',
            ' ',
        ] + pretty(members[0].1, ind, l) + (seq![',', '\n'] + pretty_members(b, ind, l)));
    }
}

/// An indented value is never empty, and starts like its compact text.
pub proof fn lemma_pretty_first(v: JValue, rule: FloatRule, ind: int, l: int)
    requires
        floats_ok(v, rule),
    ensures
        pretty(v, ind, l).len() > 0,
        starts_value(pretty(v, ind, l)[0]),
{
    lemma_compact_first(v, rule);
}

pub proof fn lemma_embeds_sub(s: Seq<char>, i: int, t: Seq<char>, a: int, b: int)
    requires
        embeds(s, i, t),
        0 <= a <= b <= t.len(),
    ensures
        embeds(s, i + a, t.subrange(a, b)),
{
    assert(s.subrange(i + a, i + b) =~= t.subrange(a, b)) by {
        assert forall|k: int| 0 <= k < b - a implies s.subrange(i + a, i + b)[k] == t.subrange(
            a,
            b,
        )[k] by {
            assert(s[i + a + k] == s.subrange(i, i + t.len())[a + k]);
        }
    }
}

/// Text facts about indented elements at `j0`, followed by a line break,
/// an indentation of `m` and `close`.
pub proof fn lemma_items_text(
    s: Seq<char>,
    j0: int,
    items: Seq<JValue>,
    ind: int,
    l: int,
    m: int,
    close: char,
    rule: FloatRule,
)
    requires
        items.len() > 0,
        embeds(s, j0, pretty_items(items, ind, l)),
        embeds(s, j0 + pretty_items(items, ind, l).len(), seq!['\n'] + spaces(m) + seq![close]),
        m >= 0,
        ind >= 0,
        l >= 0,
        !is_ws(close),
        items.len() > 1 ==> floats_ok(items[1], rule),
    ensures
        ({
            let px = pretty(items[0], ind, l);
            let k = j0 + ind * l + px.len();
            let e = j0 + pretty_items(items, ind, l).len();
            &&& embeds(s, j0 + ind * l, px)
            &&& items.len() > 1 ==> {
                &&& s[k] == ','
                &&& skip_ws(s, k + 1) == k + 2 + ind * l
                &&& embeds(s, k + 2, pretty_items(items.drop_first(), ind, l))
                &&& e == k + 2 + pretty_items(items.drop_first(), ind, l).len()
            }
            &&& items.len() == 1 ==> {
                &&& k == e
                &&& s[e] == '\n'
                &&& skip_ws(s, e) == e + 1 + m
                &&& s[e + 1 + m] == close
            }
        }),
{
    lemma_nonneg_product(ind, l);
    lemma_spaces_ws(ind * l);
    lemma_spaces_ws(m);
    lemma_pretty_items_front(items, ind, l);
    let big = ind * l;
    let pi = pretty_items(items, ind, l);
    let px = pretty(items[0], ind, l);
    let rest = if items.len() > 1 {
        seq![',', '\n'] + pretty_items(items.drop_first(), ind, l)
    } else {
        Seq::empty()
    };
    assert(pi.subrange(big, big + px.len()) =~= px);
    lemma_embeds_sub(s, j0, pi, big, big + px.len());
    let k = j0 + big + px.len();
    let e = j0 + pi.len();
    assert(pi.subrange(big + px.len(), pi.len() as int) =~= rest);
    lemma_embeds_sub(s, j0, pi, big + px.len(), pi.len() as int);
    let cl = seq!['\n'] + spaces(m) + seq![close];
    if items.len() > 1 {
        let tail = items.drop_first();
        let pt = pretty_items(tail, ind, l);
        lemma_pretty_items_front(tail, ind, l);
        lemma_pretty_first(tail[0], rule, ind, l);
        lemma_embeds_at(s, k, rest, 0);
        assert(rest.subrange(2, rest.len() as int) =~= pt);
        lemma_embeds_sub(s, k, rest, 2, rest.len() as int);
        assert(rest.subrange(1, 2 + big) =~= seq!['\n'] + spaces(big));
        lemma_embeds_sub(s, k, rest, 1, 2 + big);
        assert(rest[2 + big] == pretty(tail[0], ind, l)[0]);
        lemma_embeds_at(s, k, rest, 2 + big);
        lemma_skip_break(s, k + 1, big);
    } else {
        assert(cl.subrange(0, 1 + m) =~= seq!['\n'] + spaces(m));
        lemma_embeds_sub(s, e, cl, 0, 1 + m);
        lemma_embeds_at(s, e, cl, 0);
        lemma_embeds_at(s, e, cl, 1 + m);
        lemma_skip_break(s, e, m);
    }
}

/// Text facts about indented members at `j0`, followed by a line break,
/// an indentation of `m` and `}`.
#[verifier::rlimit(60)]
pub proof fn lemma_members_text(
    s: Seq<char>,
    j0: int,
    members: Seq<(Seq<char>, JValue)>,
    ind: int,
    l: int,
    m: int,
    rule: FloatRule,
)
    requires
        members.len() > 0,
        embeds(s, j0, pretty_members(members, ind, l)),
        embeds(s, j0 + pretty_members(members, ind, l).len(), seq!['\n'] + spaces(m) + seq!['}']),
        m >= 0,
        ind >= 0,
        l >= 0,
        floats_ok(members[0].1, rule),
    ensures
        ({
            let q = quoted(members[0].0);
            let px = pretty(members[0].1, ind, l);
            let xi = j0 + ind * l;
            let k4 = xi + q.len() + 2 + px.len();
            let e = j0 + pretty_members(members, ind, l).len();
            &&& embeds(s, xi, q)
            &&& s[xi + q.len()] == ':'
            &&& skip_ws(s, xi + q.len()) == xi + q.len()
            &&& skip_ws(s, xi + q.len() + 1) == xi + q.len() + 2
            &&& embeds(s, xi + q.len() + 2, px)
            &&& members.len() > 1 ==> {
                &&& s[k4] == ','
                &&& skip_ws(s, k4 + 1) == k4 + 2 + ind * l
                &&& embeds(s, k4 + 2, pretty_members(members.drop_first(), ind, l))
                &&& e == k4 + 2 + pretty_members(members.drop_first(), ind, l).len()
            }
            &&& members.len() == 1 ==> {
                &&& k4 == e
                &&& s[e] == '\n'
                &&& skip_ws(s, e) == e + 1 + m
                &&& s[e + 1 + m] == '}'
            }
        }),
{
    lemma_nonneg_product(ind, l);
    lemma_spaces_ws(ind * l);
    lemma_spaces_ws(m);
    lemma_pretty_members_front(members, ind, l);
    lemma_pretty_first(members[0].1, rule, ind, l);
    let big = ind * l;
    let pm = pretty_members(members, ind, l);
    let q = quoted(members[0].0);
    let px = pretty(members[0].1, ind, l);
    let rest = if members.len() > 1 {
        seq![',', '\n'] + pretty_members(members.drop_first(), ind, l)
    } else {
        Seq::empty()
    };
    let xi = j0 + big;
    let kq = xi + q.len();
    assert(pm.subrange(big, big + q.len()) =~= q);
    lemma_embeds_sub(s, j0, pm, big, big + q.len());
    assert(pm[big + q.len()] == ':');
    lemma_embeds_at(s, j0, pm, big + q.len());
    assert(pm[big + q.len() + 1] == ' ');
    lemma_embeds_at(s, j0, pm, big + q.len() + 1);
    assert(pm.subrange(big + q.len() + 2, big + q.len() + 2 + px.len()) =~= px);
    lemma_embeds_sub(s, j0, pm, big + q.len() + 2, big + q.len() + 2 + px.len());
    lemma_embeds_at(s, kq + 2, px, 0);
    assert(skip_ws(s, kq + 1) == skip_ws(s, kq + 2));
    let k4 = kq + 2 + px.len();
    let e = j0 + pm.len();
    assert(pm.subrange(big + q.len() + 2 + px.len(), pm.len() as int) =~= rest);
    lemma_embeds_sub(s, j0, pm, big + q.len() + 2 + px.len(), pm.len() as int);
    let cl = seq!['\n'] + spaces(m) + seq!['}'];
    if members.len() > 1 {
        let tail = members.drop_first();
        let pt = pretty_members(tail, ind, l);
        lemma_pretty_members_front(tail, ind, l);
        lemma_embeds_at(s, k4, rest, 0);
        assert(rest.subrange(2, rest.len() as int) =~= pt);
        lemma_embeds_sub(s, k4, rest, 2, rest.len() as int);
        assert(rest.subrange(1, 2 + big) =~= seq!['\n'] + spaces(big));
        lemma_embeds_sub(s, k4, rest, 1, 2 + big);
        assert(rest[2 + big] == quoted(tail[0].0)[0]);
        lemma_embeds_at(s, k4, rest, 2 + big);
        lemma_skip_break(s, k4 + 1, big);
    } else {
        assert(cl.subrange(0, 1 + m) =~= seq!['\n'] + spaces(m));
        lemma_embeds_sub(s, e, cl, 0, 1 + m);
        lemma_embeds_at(s, e, cl, 0);
        lemma_embeds_at(s, e, cl, 1 + m);
        lemma_skip_break(s, e, m);
    }
}

/// Text facts about an indented non-empty container at `i`: after its
/// opening bracket, a line break and an indentation lead to its elements.
pub proof fn lemma_open_text(s: Seq<char>, i: int, body: Seq<char>, ind: int, l: int, open: char, close: char)
    requires
        embeds(s, i, seq![open, '\n'] + body + (seq!['\n'] + spaces(ind * l) + seq![close])),
        ind >= 0,
        l >= 0,
        body.len() > ind * (l + 1),
        body.subrange(0, ind * (l + 1)) == spaces(ind * (l + 1)),
        !is_ws(body[ind * (l + 1)]),
    ensures
        s[i] == open,
        skip_ws(s, i + 1) == i + 2 + ind * (l + 1),
        embeds(s, i + 2, body),
        embeds(s, i + 2 + body.len() as int, seq!['\n'] + spaces(ind * l) + seq![close]),
{
    lemma_nonneg_product(ind, l);
    lemma_nonneg_product(ind, l + 1);
    let t = seq![open, '\n'] + body + (seq!['\n'] + spaces(ind * l) + seq![close]);
    let n = ind * (l + 1);
    lemma_embeds_at(s, i, t, 0);
    assert(t.subrange(2, 2 + body.len() as int) =~= body);
    lemma_embeds_sub(s, i, t, 2, 2 + body.len() as int);
    assert(t.subrange(2 + body.len() as int, t.len() as int) =~= seq!['\n'] + spaces(ind * l) + seq![close]);
    lemma_embeds_sub(s, i, t, 2 + body.len() as int, t.len() as int);
    assert(t.subrange(1, 2 + n) =~= seq!['\n'] + spaces(n));
    lemma_embeds_sub(s, i, t, 1, 2 + n);
    lemma_embeds_at(s, i, t, 2 + n);
    lemma_skip_break(s, i + 1, n);
}

/// An indented value, followed by where a value may end, reads back as itself.
#[verifier::rlimit(50)]
pub proof fn lemma_read_pretty(
    s: Seq<char>,
    i: int,
    d: int,
    rule: FloatRule,
    v: JValue,
    ind: int,
    l: int,
)
    requires
        embeds(s, i, pretty(v, ind, l)),
        ends_value(s, i + pretty(v, ind, l).len()),
        floats_ok(v, rule),
        0 <= d,
        d + height(v) <= MAX_DEPTH,
        ind >= 0,
        l >= 0,
    ensures
        p_value(s, i, d, rule) == Ok::<(JValue, int), (int, &'static str)>(
            (v, i + pretty(v, ind, l).len()),
        ),
    decreases v,
{
    lemma_nonneg_product(ind, l + 1);
    match v {
        JValue::Array(items) => {
            if items.len() == 0 {
                lemma_read_value(s, i, d, rule, v);
            } else {
                let pi = pretty_items(items, ind, l + 1);
                lemma_pretty_items_front(items, ind, l + 1);
                lemma_items_floats_ok(items, rule);
                lemma_pretty_first(items[0], rule, ind, l + 1);
                lemma_spaces_ws(ind * (l + 1));
                assert(pi.subrange(0, ind * (l + 1)) =~= spaces(ind * (l + 1)));
                assert(pi[ind * (l + 1)] == pretty(items[0], ind, l + 1)[0]);
                assert(pretty(v, ind, l) =~= seq!['[', '\n'] + pi + (seq!['\n'] + spaces(ind * l)
                    + seq![']']));
                lemma_open_text(s, i, pi, ind, l, '[', ']');
                crate::serialize::lemma_items_height(items);
                lemma_read_pretty_items(s, i + 2, d + 1, rule, Seq::empty(), items, ind, l + 1, ind * l);
                assert(Seq::<JValue>::empty() + items =~= items);
            }
        },
        JValue::Object(members) => {
            if members.len() == 0 {
                lemma_read_value(s, i, d, rule, v);
            } else {
                let pm = pretty_members(members, ind, l + 1);
                lemma_pretty_members_front(members, ind, l + 1);
                lemma_spaces_ws(ind * (l + 1));
                assert(pm.subrange(0, ind * (l + 1)) =~= spaces(ind * (l + 1)));
                assert(quoted(members[0].0)[0] == '"');
                assert(pm[ind * (l + 1)] == '"');
                assert(pretty(v, ind, l) =~= seq!['{', '\n'] + pm + (seq!['\n'] + spaces(ind * l)
                    + seq!['}']));
                lemma_open_text(s, i, pm, ind, l, '{', '}');
                lemma_members_floats_ok(members, rule);
                crate::serialize::lemma_members_height(members);
                lemma_read_pretty_members(s, i + 2, d + 1, rule, Seq::empty(), members, ind, l + 1, ind * l);
                assert(Seq::<(Seq<char>, JValue)>::empty() + members =~= members);
            }
        },
        _ => {
            lemma_read_value(s, i, d, rule, v);
        },
    }
}

/// The indented elements of a non-empty array, then a line break, an
/// indentation of `m` and `]`, read back as themselves.
pub proof fn lemma_read_pretty_items(
    s: Seq<char>,
    j0: int,
    d: int,
    rule: FloatRule,
    acc: Seq<JValue>,
    items: Seq<JValue>,
    ind: int,
    l: int,
    m: int,
)
    requires
        items.len() > 0,
        embeds(s, j0, pretty_items(items, ind, l)),
        embeds(s, j0 + pretty_items(items, ind, l).len(), seq!['\n'] + spaces(m) + seq![']']),
        m >= 0,
        forall|k: int| 0 <= k < items.len() ==> floats_ok(#[trigger] items[k], rule),
        1 <= d,
        d + items_height(items) <= MAX_DEPTH,
        ind >= 0,
        l >= 0,
    ensures
        p_elements(s, j0 + ind * l, d, rule, acc) == Ok::<(JValue, int), (int, &'static str)>(
            (JValue::Array(acc + items), j0 + pretty_items(items, ind, l).len() + 1 + m + 1),
        ),
    decreases items,
{
    lemma_nonneg_product(ind, l);
    crate::serialize::lemma_items_height(items);
    if items.len() > 1 {
        assert(floats_ok(items[1], rule));
    }
    lemma_items_text(s, j0, items, ind, l, m, ']', rule);
    let x = items[0];
    let px = pretty(x, ind, l);
    let xi = j0 + ind * l;
    let k = xi + px.len();
    vstd::seq::axiom_seq_index_decreases(items, 0);
    lemma_read_pretty(s, xi, d, rule, x, ind, l);
    if items.len() > 1 {
        let tail = items.drop_first();
        assert forall|u: int| 0 <= u < tail.len() implies floats_ok(#[trigger] tail[u], rule) by {
            assert(tail[u] == items[u + 1]);
        }
        assert forall|u: int| 0 <= u < tail.len() implies height(#[trigger] tail[u]) <= items_height(
            items,
        ) by {
            assert(tail[u] == items[u + 1]);
        }
        lemma_items_height_bound(tail, items_height(items));
        vstd::seq::axiom_seq_subrange_decreases(items, 1, items.len() as int);
        assert(tail == items.subrange(1, items.len() as int));
        lemma_read_pretty_items(s, k + 2, d, rule, acc.push(x), tail, ind, l, m);
        assert(acc.push(x) + tail =~= acc + items);
    } else {
        assert(acc.push(x) =~= acc + items);
    }
}

/// The indented members of a non-empty object, then a line break, an
/// indentation of `m` and `}`, read back as themselves.
pub proof fn lemma_read_pretty_members(
    s: Seq<char>,
    j0: int,
    d: int,
    rule: FloatRule,
    acc: Seq<(Seq<char>, JValue)>,
    members: Seq<(Seq<char>, JValue)>,
    ind: int,
    l: int,
    m: int,
)
    requires
        members.len() > 0,
        embeds(s, j0, pretty_members(members, ind, l)),
        embeds(s, j0 + pretty_members(members, ind, l).len(), seq!['\n'] + spaces(m) + seq!['}']),
        m >= 0,
        forall|k: int| 0 <= k < members.len() ==> floats_ok(#[trigger] members[k].1, rule),
        1 <= d,
        d + members_height(members) <= MAX_DEPTH,
        ind >= 0,
        l >= 0,
    ensures
        p_members(s, j0 + ind * l, d, rule, acc) == Ok::<(JValue, int), (int, &'static str)>(
            (JValue::Object(acc + members), j0 + pretty_members(members, ind, l).len() + 1 + m + 1),
        ),
    decreases members,
{
    lemma_nonneg_product(ind, l);
    crate::serialize::lemma_members_height(members);
    assert(floats_ok(members[0].1, rule));
    lemma_members_text(s, j0, members, ind, l, m, rule);
    let key = members[0].0;
    let x = members[0].1;
    let q = quoted(key);
    let px = pretty(x, ind, l);
    let xi = j0 + ind * l;
    lemma_read_quoted(s, xi, key);
    let k3 = xi + q.len() + 2;
    let k4 = k3 + px.len();
    vstd::seq::axiom_seq_index_decreases(members, 0);
    assert(decreases_to!(members[0] => members[0].1));
    lemma_read_pretty(s, k3, d, rule, x, ind, l);
    if members.len() > 1 {
        let tail = members.drop_first();
        assert forall|u: int| 0 <= u < tail.len() implies floats_ok(#[trigger] tail[u].1, rule) by {
            assert(tail[u] == members[u + 1]);
        }
        assert forall|u: int| 0 <= u < tail.len() implies height(#[trigger] tail[u].1)
            <= members_height(members) by {
            assert(tail[u] == members[u + 1]);
        }
        lemma_members_height_bound(tail, members_height(members));
        vstd::seq::axiom_seq_subrange_decreases(members, 1, members.len() as int);
        assert(tail == members.subrange(1, members.len() as int));
        lemma_read_pretty_members(s, k4 + 2, d, rule, acc.push((key, x)), tail, ind, l, m);
        assert(acc.push((key, x)) + tail =~= acc + members);
    } else {
        assert(acc.push((key, x)) =~= acc + members);
    }
}

/// Parsing the indented text of a value gives the value back, under the
/// same conditions as for the compact text.
pub proof fn law_parse_pretty(v: JValue, rule: FloatRule, indent: nat)
    requires
        floats_ok(v, rule),
        height(v) <= MAX_DEPTH,
    ensures
        p_text(pretty(v, indent as int, 0), rule) == Ok::<JValue, (int, &'static str)>(v),
        p_text(pretty(v, indent as int, 0), rule) == p_text(compact(v), rule),
{
    law_parse_compact(v, rule);
    let s = pretty(v, indent as int, 0);
    lemma_pretty_first(v, rule, indent as int, 0);
    assert(strip_bom(s) == s);
    assert(s.subrange(0, s.len() as int) == s);
    lemma_read_pretty(s, 0, 0, rule, v, indent as int, 0);
}

/// One leading U+FEFF is skipped: a text behind it parses exactly as it
/// does alone (the same value, or the same error at the same position),
/// while a second U+FEFF is not skipped and the text is rejected.
pub proof fn law_bom_skipped(s: Seq<char>, rule: FloatRule)
    requires
        !(s.len() > 0 && s[0] == '\u{feff}'),
    ensures
        p_text(seq!['\u{feff}'] + s, rule) == p_text(s, rule),
        p_text(seq!['\u{feff}', '\u{feff}'] + s, rule) is Err,
{
    assert((seq!['\u{feff}'] + s).drop_first() =~= s);
    assert(strip_bom(s) == s);
    let t = seq!['\u{feff}', '\u{feff}'] + s;
    let u = t.drop_first();
    assert(u =~= seq!['\u{feff}'] + s);
    assert(strip_bom(t) == u);
    assert(u[0] == '\u{feff}');
    assert(skip_ws(u, 0) == 0);
}

} // verus!
