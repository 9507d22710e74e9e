//! Compact and pretty serialization, proved against spec functions that
//! say what text each value becomes.
use vstd::prelude::*;

use crate::text::{char_from_digit, digit_char, int_text, push_int};
use crate::value::{JValue, Number, Value, items_model, members_model, lemma_items_model, lemma_members_model};

verus! {

/// A lowercase hex digit.
pub open spec fn hex_char(d: int) -> char {
    if d < 10 {
        digit_char(d)
    } else {
        (('a' as u32) + (d - 10)) as char
    }
}

/// How `c` is written inside a string literal.
pub open spec fn escape_char(c: char) -> Seq<char> {
    if c == '"' {
        seq!['\\', '"']
    } else if c == '\\' {
        seq!['\\', '\\']
    } else if c == '\n' {
        seq!['\\', 'n']
    } else if c == '\r' {
        seq!['\\', 'r']
    } else if c == '\t' {
        seq!['\\', 't']
    } else if c == '\u{8}' {
        seq!['\\', 'b']
    } else if c == '\u{c}' {
        seq!['\\', 'f']
    } else if (c as u32) < 0x20 {
        seq!['\\', 'u', '0', '0', hex_char((c as u32) as int / 16), hex_char((c as u32) as int % 16)]
    } else {
        seq![c]
    }
}

/// The characters of `cs`, each escaped.
pub open spec fn escape_text(cs: Seq<char>) -> Seq<char>
    decreases cs.len(),
{
    if cs.len() == 0 {
        Seq::empty()
    } else {
        escape_text(cs.drop_last()) + escape_char(cs.last())
    }
}

/// `cs` as a string literal.
pub open spec fn quoted(cs: Seq<char>) -> Seq<char> {
    seq!['"'] + escape_text(cs) + seq!['"']
}

/// The compact text of a value.
pub open spec fn compact(v: JValue) -> Seq<char>
    decreases v,
{
    match v {
        JValue::Null => seq!['n', 'u', 'l', 'l'],
        JValue::Bool(b) => if b {
            seq!['t', 'r', 'u', 'e']
        } else {
            seq!['f', 'a', 'l', 's', 'e']
        },
        JValue::Int(i) => int_text(i as int),
        JValue::Float(t) => t,
        JValue::Str(cs) => quoted(cs),
        JValue::Array(items) => seq!['['] + compact_items(items) + seq![']'],
        JValue::Object(members) => seq!['{'] + compact_members(members) + seq!['}'],
    }
}

/// The compact texts of `items`, separated by commas.
pub open spec fn compact_items(items: Seq<JValue>) -> Seq<char>
    decreases items,
{
    if items.len() == 0 {
        Seq::empty()
    } else {
        compact_items(items.drop_last()) + (if items.len() > 1 {
            seq![',']
        } else {
            Seq::empty()
        }) + compact(items[items.len() - 1])
    }
}

/// The compact texts of `members` (`"key":value`), separated by commas.
pub open spec fn compact_members(members: Seq<(Seq<char>, JValue)>) -> Seq<char>
    decreases members,
{
    if members.len() == 0 {
        Seq::empty()
    } else {
        compact_members(members.drop_last()) + (if members.len() > 1 {
            seq![',']
        } else {
            Seq::empty()
        }) + quoted(members[members.len() - 1].0) + seq![':'] + compact(
            members[members.len() - 1].1,
        )
    }
}

/// `n` spaces.
pub open spec fn spaces(n: int) -> Seq<char> {
    Seq::new(n as nat, |k: int| ' ')
}

/// The indented text of a value at nesting `level`, `indent` spaces per
/// level: non-empty containers put one element per line; everything else
/// is as in `compact`.
pub open spec fn pretty(v: JValue, indent: int, level: int) -> Seq<char>
    decreases v,
{
    match v {
        JValue::Array(items) => if items.len() > 0 {
            seq!['[', '\n'] + pretty_items(items, indent, level + 1) + seq!['\n'] + spaces(
                indent * level,
            ) + seq![']']
        } else {
            compact(v)
        },
        JValue::Object(members) => if members.len() > 0 {
            seq!['{', '\n'] + pretty_members(members, indent, level + 1) + seq!['\n'] + spaces(
                indent * level,
            ) + seq!['}']
        } else {
            compact(v)
        },
        _ => compact(v),
    }
}

/// The elements of a non-empty array, one per line at `level`.
pub open spec fn pretty_items(items: Seq<JValue>, indent: int, level: int) -> Seq<char>
    decreases items,
{
    if items.len() == 0 {
        Seq::empty()
    } else {
        pretty_items(items.drop_last(), indent, level) + (if items.len() > 1 {
            seq![',', '\n']
        } else {
            Seq::empty()
        }) + spaces(indent * level) + pretty(items[items.len() - 1], indent, level)
    }
}

/// The members of a non-empty object, one per line at `level`.
pub open spec fn pretty_members(members: Seq<(Seq<char>, JValue)>, indent: int, level: int) -> Seq<
    char,
>
    decreases members,
{
    if members.len() == 0 {
        Seq::empty()
    } else {
        pretty_members(members.drop_last(), indent, level) + (if members.len() > 1 {
            seq![',', '\n']
        } else {
            Seq::empty()
        }) + spaces(indent * level) + quoted(members[members.len() - 1].0) + seq![':', ' ']
            + pretty(members[members.len() - 1].1, indent, level)
    }
}

/// How many levels of containers a value has; an empty container counts one.
pub open spec fn height(v: JValue) -> nat
    decreases v,
{
    match v {
        JValue::Array(items) => 1 + items_height(items),
        JValue::Object(members) => 1 + members_height(members),
        _ => 0,
    }
}

pub open spec fn items_height(items: Seq<JValue>) -> nat
    decreases items,
{
    if items.len() == 0 {
        0
    } else {
        let a = items_height(items.drop_last());
        let b = height(items[items.len() - 1]);
        if a >= b {
            a
        } else {
            b
        }
    }
}

pub open spec fn members_height(members: Seq<(Seq<char>, JValue)>) -> nat
    decreases members,
{
    if members.len() == 0 {
        0
    } else {
        let a = members_height(members.drop_last());
        let b = height(members[members.len() - 1].1);
        if a >= b {
            a
        } else {
            b
        }
    }
}

/// Scalars and empty containers print the same indented as compact.
pub proof fn law_pretty_inline(v: JValue, indent: int, level: int)
    requires
        match v {
            JValue::Array(items) => items.len() == 0,
            JValue::Object(members) => members.len() == 0,
            _ => true,
        },
    ensures
        pretty(v, indent, level) == compact(v),
{
}

/// The text kept for a float from its shortest decimal text: as it is when
/// it has a `.`, else with `.0` appended, so that an integral float still
/// reads back as a float.
pub open spec fn fraction_kept(t: Seq<char>) -> Seq<char> {
    if t.contains('.') {
        t
    } else {
        t + seq!['.', '0']
    }
}

/// Appends `.0` to a float's shortest decimal text when it has no `.`.
pub fn with_fraction(shortest: &str) -> (r: String)
    ensures
        r@ == fraction_kept(shortest@),
        shortest@.contains('.') ==> r@ == shortest@,
        !shortest@.contains('.') ==> r@ == shortest@ + seq!['.', '0'],
{
    let mut out = String::new();
    let mut has_point = false;
    let ghost mut done: Seq<char> = Seq::empty();
    for c in it: shortest.chars()
        invariant
            done == it.seq().take(it.index() as int),
            out@ == done,
            has_point == done.contains('.'),
    {
        proof {
            let t = it.seq().take(it.index() + 1);
            assert(t == done.push(c));
            assert(done.push(c).contains('.') == (done.contains('.') || c == '.')) by {
                if c == '.' {
                    assert(done.push(c)[done.len() as int] == c);
                }
                if done.contains('.') {
                    let k = choose|k: int| 0 <= k < done.len() && done[k] == '.';
                    assert(done.push(c)[k] == '.');
                }
                if done.push(c).contains('.') && c != '.' {
                    let k = choose|k: int| 0 <= k < done.push(c).len() && done.push(c)[k] == '.';
                    assert(done[k] == '.');
                }
            }
        }
        out.push(c);
        if c == '.' {
            has_point = true;
        }
        proof {
            done = done.push(c);
        }
    }
    assert(done == shortest@);
    if !has_point {
        out.push('.');
        out.push('0');
        assert(out@ =~= shortest@ + seq!['.', '0']);
    }
    out
}

/// The lowercase hex digit of `d`.
pub fn hex_digit(d: u32) -> (c: char)
    requires
        d < 16,
    ensures
        c == hex_char(d as int),
{
    if d < 10 {
        char_from_digit(d)
    } else if d == 10 {
        'a'
    } else if d == 11 {
        'b'
    } else if d == 12 {
        'c'
    } else if d == 13 {
        'd'
    } else if d == 14 {
        'e'
    } else {
        'f'
    }
}

/// Appends `c` as it is written inside a string literal.
pub fn push_escaped(c: char, out: &mut String)
    ensures
        final(out)@ == old(out)@ + escape_char(c),
{
    let ghost o = out@;
    if c == '"' {
        out.push('\\');
        out.push('"');
    } else if c == '\\' {
        out.push('\\');
        out.push('\\');
    } else if c == '\n' {
        out.push('\\');
        out.push('n');
    } else if c == '\r' {
        out.push('\\');
        out.push('r');
    } else if c == '\t' {
        out.push('\\');
        out.push('t');
    } else if c == '\u{8}' {
        out.push('\\');
        out.push('b');
    } else if c == '\u{c}' {
        out.push('\\');
        out.push('f');
    } else if (c as u32) < 0x20 {
        let u = c as u32;
        out.push('\\');
        out.push('u');
        out.push('0');
        out.push('0');
        out.push(hex_digit(u / 16));
        out.push(hex_digit(u % 16));
    } else {
        out.push(c);
    }
    assert(out@ =~= o + escape_char(c));
}

/// Appends `s` as a JSON string literal: quotes around it, `"` and `\`
/// escaped, control characters written as short escapes or `\u00XX`.
pub fn write_string(s: &str, out: &mut String)
    ensures
        final(out)@ == old(out)@ + quoted(s@),
{
    out.push('"');
    let ghost start = out@;
    let ghost mut done: Seq<char> = Seq::empty();
    for c in it: s.chars()
        invariant
            done == it.seq().take(it.index() as int),
            out@ == start + escape_text(done),
    {
        proof {
            let t = it.seq().take(it.index() + 1);
            assert(t.drop_last() == it.seq().take(it.index() as int));
            assert(t == done.push(c));
            assert(done.push(c).drop_last() == done);
        }
        push_escaped(c, out);
        proof {
            done = done.push(c);
        }
    }
    assert(done == s@);
    out.push('"');
    assert(out@ =~= old(out)@ + quoted(s@));
}

/// The compact text of a number.
pub open spec fn number_text(n: Number) -> Seq<char> {
    match n {
        Number::Int(i) => int_text(i as int),
        Number::Float(t) => t@,
    }
}

/// Appends a number: an integer in decimal, a float as its text.
pub fn write_number(n: &Number, out: &mut String)
    ensures
        final(out)@ == old(out)@ + number_text(*n),
{
    match n {
        Number::Int(i) => push_int(out, *i),
        Number::Float(t) => out.append(t.as_str()),
    }
}

/// Appends the compact text of `v`.
pub fn write_compact(v: &Value, out: &mut String)
    ensures
        final(out)@ == old(out)@ + compact(v.model()),
    decreases v,
{
    let ghost o = out@;
    match v {
        Value::Null => {
            out.push('n');
            out.push('u');
            out.push('l');
            out.push('l');
        },
        Value::Bool(b) => {
            if *b {
                out.push('t');
                out.push('r');
                out.push('u');
                out.push('e');
            } else {
                out.push('f');
                out.push('a');
                out.push('l');
                out.push('s');
                out.push('e');
            }
        },
        Value::Number(n) => write_number(n, out),
        Value::String(s) => write_string(s.as_str(), out),
        Value::Array(items) => {
            let ghost m = items_model(items@);
            proof {
                lemma_items_model(items@);
            }
            out.push('[');
            let mut i: usize = 0;
            assert(m.subrange(0, 0) =~= Seq::<JValue>::empty());
            while i < items.len()
                invariant
                    i <= items@.len(),
                    m == items_model(items@),
                    m.len() == items@.len(),
                    forall|k: int| 0 <= k < items@.len() ==> #[trigger] m[k] == items@[k].model(),
                    out@ == o + seq!['['] + compact_items(m.subrange(0, i as int)),
                    *v == Value::Array(*items),
                decreases items@.len() - i,
            {
                if i > 0 {
                    out.push(',');
                }
                proof {
                    assert(decreases_to!(*v => (*v)->Array_0));
                    vstd::std_specs::vec::axiom_vec_index_decreases(*items, i as int);
                    assert(decreases_to!(*v => items[i as int]));
                }
                write_compact(&items[i], out);
                proof {
                    let t = m.subrange(0, i + 1);
                    assert(t.drop_last() == m.subrange(0, i as int));
                    assert(t[t.len() - 1] == items@[i as int].model());
                }
                i = i + 1;
            }
            assert(m.subrange(0, i as int) == m);
            out.push(']');
        },
        Value::Object(members) => {
            let ghost m = members_model(members@);
            proof {
                lemma_members_model(members@);
            }
            out.push('{');
            let mut i: usize = 0;
            assert(m.subrange(0, 0) =~= Seq::<(Seq<char>, JValue)>::empty());
            while i < members.len()
                invariant
                    i <= members@.len(),
                    m == members_model(members@),
                    m.len() == members@.len(),
                    forall|k: int|
                        0 <= k < members@.len() ==> #[trigger] m[k] == (
                            members@[k].0@,
                            members@[k].1.model(),
                        ),
                    out@ == o + seq!['{'] + compact_members(m.subrange(0, i as int)),
                    *v == Value::Object(*members),
                decreases members@.len() - i,
            {
                if i > 0 {
                    out.push(',');
                }
                let (k, item) = &members[i];
                proof {
                    assert(decreases_to!(*v => (*v)->Object_0));
                    vstd::std_specs::vec::axiom_vec_index_decreases(*members, i as int);
                    assert(decreases_to!(members[i as int] => members[i as int].1));
                    assert(decreases_to!(*v => members[i as int].1));
                }
                write_string(k.as_str(), out);
                out.push(':');
                write_compact(item, out);
                proof {
                    let t = m.subrange(0, i + 1);
                    assert(t.drop_last() == m.subrange(0, i as int));
                    assert(t[t.len() - 1] == m[i as int]);
                }
                i = i + 1;
            }
            assert(m.subrange(0, i as int) == m);
            out.push('}');
        },
    }
    assert(out@ =~= o + compact(v.model()));
}

pub proof fn lemma_items_height(items: Seq<JValue>)
    ensures
        forall|k: int| 0 <= k < items.len() ==> height(#[trigger] items[k]) <= items_height(items),
    decreases items.len(),
{
    if items.len() > 0 {
        lemma_items_height(items.drop_last());
        assert forall|k: int| 0 <= k < items.len() implies height(#[trigger] items[k])
            <= items_height(items) by {
            if k < items.len() - 1 {
                assert(items[k] == items.drop_last()[k]);
            }
        }
    }
}

pub proof fn lemma_members_height(members: Seq<(Seq<char>, JValue)>)
    ensures
        forall|k: int|
            0 <= k < members.len() ==> height(#[trigger] members[k].1) <= members_height(members),
    decreases members.len(),
{
    if members.len() > 0 {
        lemma_members_height(members.drop_last());
        assert forall|k: int| 0 <= k < members.len() implies height(#[trigger] members[k].1)
            <= members_height(members) by {
            if k < members.len() - 1 {
                assert(members[k] == members.drop_last()[k]);
            }
        }
    }
}

/// Appends `indent * level` spaces.
pub fn push_indent(out: &mut String, indent: usize, level: usize)
    ensures
        final(out)@ == old(out)@ + spaces(indent * level),
{
    let ghost o = out@;
    let mut l: usize = 0;
    assert(spaces(0) =~= Seq::<char>::empty());
    assert(o + spaces(0) =~= o);
    while l < level
        invariant
            l <= level,
            out@ == o + spaces(indent * l),
        decreases level - l,
    {
        let mut k: usize = 0;
        assert(indent * l + 0 == indent * l);
        while k < indent
            invariant
                k <= indent,
                l < level,
                out@ == o + spaces(indent * l + k),
            decreases indent - k,
        {
            out.push(' ');
            assert(spaces(indent * l + k).push(' ') =~= spaces(indent * l + k + 1));
            k = k + 1;
        }
        assert(indent * l + indent == indent * (l + 1)) by (nonlinear_arith);
        l = l + 1;
    }
}

/// Appends the indented text of `v` at nesting `level`.
pub fn write_pretty(v: &Value, indent: usize, level: usize, out: &mut String)
    requires
        level + height(v.model()) <= usize::MAX,
    ensures
        final(out)@ == old(out)@ + pretty(v.model(), indent as int, level as int),
    decreases v,
{
    let ghost o = out@;
    match v {
        Value::Array(items) => {
            if items.len() == 0 {
                write_compact(v, out);
                return;
            }
            let ghost m = items_model(items@);
            proof {
                lemma_items_model(items@);
                lemma_items_height(m);
            }
            out.push('[');
            out.push('\n');
            let mut i: usize = 0;
            assert(m.subrange(0, 0) =~= Seq::<JValue>::empty());
            while i < items.len()
                invariant
                    i <= items@.len(),
                    m == items_model(items@),
                    m.len() == items@.len(),
                    forall|k: int| 0 <= k < items@.len() ==> #[trigger] m[k] == items@[k].model(),
                    forall|k: int| 0 <= k < m.len() ==> height(#[trigger] m[k]) <= items_height(m),
                    level + 1 + items_height(m) <= usize::MAX,
                    out@ == o + seq!['[', '\n'] + pretty_items(
                        m.subrange(0, i as int),
                        indent as int,
                        level + 1,
                    ),
                    *v == Value::Array(*items),
                decreases items@.len() - i,
            {
                if i > 0 {
                    out.push(',');
                    out.push('\n');
                }
                push_indent(out, indent, level + 1);
                proof {
                    assert(decreases_to!(*v => (*v)->Array_0));
                    vstd::std_specs::vec::axiom_vec_index_decreases(*items, i as int);
                    assert(height(m[i as int]) <= items_height(m));
                }
                write_pretty(&items[i], indent, level + 1, out);
                proof {
                    let t = m.subrange(0, i + 1);
                    assert(t.drop_last() == m.subrange(0, i as int));
                    assert(t[t.len() - 1] == items@[i as int].model());
                }
                i = i + 1;
            }
            assert(m.subrange(0, i as int) == m);
            out.push('\n');
            push_indent(out, indent, level);
            out.push(']');
        },
        Value::Object(members) => {
            if members.len() == 0 {
                write_compact(v, out);
                return;
            }
            let ghost m = members_model(members@);
            proof {
                lemma_members_model(members@);
                lemma_members_height(m);
            }
            out.push('{');
            out.push('\n');
            let mut i: usize = 0;
            assert(m.subrange(0, 0) =~= Seq::<(Seq<char>, JValue)>::empty());
            while i < members.len()
                invariant
                    i <= members@.len(),
                    m == members_model(members@),
                    m.len() == members@.len(),
                    forall|k: int|
                        0 <= k < members@.len() ==> #[trigger] m[k] == (
                            members@[k].0@,
                            members@[k].1.model(),
                        ),
                    forall|k: int|
                        0 <= k < m.len() ==> height(#[trigger] m[k].1) <= members_height(m),
                    level + 1 + members_height(m) <= usize::MAX,
                    out@ == o + seq!['{', '\n'] + pretty_members(
                        m.subrange(0, i as int),
                        indent as int,
                        level + 1,
                    ),
                    *v == Value::Object(*members),
                decreases members@.len() - i,
            {
                if i > 0 {
                    out.push(',');
                    out.push('\n');
                }
                push_indent(out, indent, level + 1);
                let (k, item) = &members[i];
                proof {
                    assert(decreases_to!(*v => (*v)->Object_0));
                    vstd::std_specs::vec::axiom_vec_index_decreases(*members, i as int);
                    assert(decreases_to!(members[i as int] => members[i as int].1));
                    assert(height(m[i as int].1) <= members_height(m));
                }
                write_string(k.as_str(), out);
                out.push(':');
                out.push(' ');
                write_pretty(item, indent, level + 1, out);
                proof {
                    let t = m.subrange(0, i + 1);
                    assert(t.drop_last() == m.subrange(0, i as int));
                    assert(t[t.len() - 1] == m[i as int]);
                }
                i = i + 1;
            }
            assert(m.subrange(0, i as int) == m);
            out.push('\n');
            push_indent(out, indent, level);
            out.push('}');
        },
        _ => {
            write_compact(v, out);
        },
    }
    assert(out@ =~= o + pretty(v.model(), indent as int, level as int));
}

impl Value {
    /// Compact serialization, no whitespace.
    pub fn to_string(&self) -> (r: String)
        ensures
            r@ == compact(self.model()),
    {
        let mut out = String::new();
        write_compact(self, &mut out);
        assert(out@ =~= compact(self.model()));
        out
    }

    /// Serialization with newlines and `indent` spaces per nesting level.
    pub fn pretty(&self, indent: usize) -> (r: String)
        requires
            height(self.model()) <= usize::MAX,
        ensures
            r@ == pretty(self.model(), indent as int, 0),
    {
        let mut out = String::new();
        write_pretty(self, indent, 0, &mut out);
        assert(out@ =~= pretty(self.model(), indent as int, 0));
        out
    }
}

} // verus!
