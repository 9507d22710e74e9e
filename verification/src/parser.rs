//! The recursive-descent parser, proved to follow `grammar.rs`.
use vstd::prelude::*;
use vstd::utf8::encode_utf8;

use crate::error::{
    ParseError, clamp, col_of, is_error_at, lemma_line_start_bounds, lemma_newlines_bound, line_of,
    line_start,
};
use crate::grammar::{
    FloatRule, MAX_DEPTH, MSG_ARRAY_SEP, MSG_COLON, MSG_CONTROL, MSG_EXPECTED_VALUE,
    MSG_INVALID_ESCAPE, MSG_INVALID_HEX, MSG_INVALID_LITERAL, MSG_INVALID_NUMBER, MSG_KEY,
    MSG_OBJECT_SEP, MSG_OUT_OF_RANGE, MSG_TOO_DEEP, MSG_TRAILING, MSG_UNPAIRED, MSG_UNTERMINATED,
    at, decimal, digit_at, starts_value, digit_val, digits_end, fits_i64, hex_val, is_digit, lemma_digits_end,
    lemma_skip_ws, lex_number, lexeme_int, p_array, p_elements, p_escape, p_hex4, p_hex_digits,
    p_literal, p_members, p_number, p_object, p_string, p_string_rest, p_text, p_value, skip_ws,
    strip_bom,
};
use crate::text::{char_width, lemma_encode_concat, lemma_encode_push};
use crate::value::{JValue, Number, Value, items_model, members_model};

verus! {

/// `f` answers every lexeme, and answers lexemes with the same text alike.
pub open spec fn float_rule_ok<F: Fn(&str) -> Option<String>>(f: F) -> bool {
    &&& forall|x: &str| #[trigger] f.requires((x,))
    &&& forall|x: &str, y: &str, o1: Option<String>, o2: Option<String>|
        x@ == y@ && #[trigger] f.ensures((x,), o1) && #[trigger] f.ensures((y,), o2) ==> opt_text(
            o1,
        ) == opt_text(o2)
}

pub open spec fn opt_text(o: Option<String>) -> Option<Seq<char>> {
    match o {
        Some(s) => Some(s@),
        None => None,
    }
}

/// The float rule that `f` computes, as a function of the lexeme's text.
pub open spec fn float_rule<F: Fn(&str) -> Option<String>>(f: F) -> FloatRule {
    |lex: Seq<char>|
        {
            let w = choose|x: &str, o: Option<String>| x@ == lex && #[trigger] f.ensures((x,), o);
            opt_text(w.1)
        }
}

/// A text has at least as many bytes as `char`s.
pub proof fn lemma_chars_le_bytes(s: Seq<char>)
    ensures
        s.len() <= encode_utf8(s).len(),
    decreases s.len(),
{
    if s.len() > 0 {
        lemma_chars_le_bytes(s.drop_last());
        assert(s == s.drop_last().push(s.last()));
        lemma_encode_push(s.drop_last(), s.last());
        vstd::utf8::char_is_scalar(s.last());
    }
}

/// `lex` is `-`? followed by one or more decimal digits.
pub open spec fn is_int_lexeme(lex: Seq<char>) -> bool {
    &&& int_digits(lex).len() > 0
    &&& forall|k: int| 0 <= k < int_digits(lex).len() ==> is_digit(#[trigger] int_digits(lex)[k])
}

/// The digits of an integral lexeme, without its sign.
pub open spec fn int_digits(lex: Seq<char>) -> Seq<char> {
    if lex.len() > 0 && lex[0] == '-' {
        lex.drop_first()
    } else {
        lex
    }
}

/// Taking more digits never makes the value smaller.
pub proof fn lemma_decimal_prefix_mono(ds: Seq<char>, k: int, m: int)
    requires
        0 <= k <= m <= ds.len(),
        forall|u: int| 0 <= u < ds.len() ==> is_digit(#[trigger] ds[u]),
    ensures
        decimal(ds.subrange(0, k)) <= decimal(ds.subrange(0, m)),
        0 <= decimal(ds.subrange(0, k)),
    decreases m,
{
    if k < m {
        lemma_decimal_prefix_mono(ds, k, m - 1);
        assert(ds.subrange(0, m).drop_last() == ds.subrange(0, m - 1));
        assert(is_digit(ds[m - 1]));
    } else if k > 0 {
        lemma_decimal_prefix_mono(ds, k - 1, k - 1);
        assert(ds.subrange(0, k).drop_last() == ds.subrange(0, k - 1));
        assert(is_digit(ds[k - 1]));
    }
}

/// The `i64` an integral lexeme `chars[start..end]` denotes, or `None` when
/// it does not fit.
pub fn int_of_lexeme(chars: &Vec<char>, start: usize, end: usize) -> (r: Option<i64>)
    requires
        start < end <= chars@.len(),
        is_int_lexeme(chars@.subrange(start as int, end as int)),
    ensures
        ({
            let v = lexeme_int(chars@.subrange(start as int, end as int));
            r == if fits_i64(v) {
                Some(v as i64)
            } else {
                None::<i64>
            }
        }),
{
    let ghost lex = chars@.subrange(start as int, end as int);
    let neg = chars[start] == '-';
    let d0: usize = if neg { start + 1 } else { start };
    let ghost ds = chars@.subrange(d0 as int, end as int);
    assert(lex[0] == chars@[start as int]);
    assert(ds == int_digits(lex));
    assert(ds.len() > 0);
    let limit: u64 = if neg { 9223372036854775808u64 } else { 9223372036854775807u64 };
    let mut mag: u64 = 0;
    let mut k: usize = d0;
    assert(ds.subrange(0, 0) =~= Seq::<char>::empty());
    while k < end
        invariant
            d0 <= k <= end <= chars@.len(),
            ds == chars@.subrange(d0 as int, end as int),
            lex == chars@.subrange(start as int, end as int),
            ds == int_digits(lex),
            neg == (lex.len() > 0 && lex[0] == '-'),
            forall|u: int| 0 <= u < ds.len() ==> is_digit(#[trigger] ds[u]),
            mag == decimal(ds.subrange(0, k - d0)),
            mag <= limit,
            limit == if neg {
                9223372036854775808u64
            } else {
                9223372036854775807u64
            },
        decreases end - k,
    {
        let c = chars[k];
        assert(c == ds[k - d0]);
        assert(is_digit(ds[k - d0]));
        let d = (c as u32 - '0' as u32) as u64;
        assert(d <= 9);
        assert(ds.subrange(0, k - d0 + 1).drop_last() == ds.subrange(0, k - d0));
        if mag > (limit - d) / 10 {
            proof {
                assert(mag * 10 + d > limit) by (nonlinear_arith)
                    requires
                        mag > (limit - d) / 10,
                        d <= 9,
                        limit >= 9,
                ;
                let pre = ds.subrange(0, k - d0 + 1);
                assert(pre.last() == c);
                assert(decimal(pre) == decimal(pre.drop_last()) * 10 + digit_val(pre.last()));
                assert(decimal(pre) > limit);
                lemma_decimal_prefix_mono(ds, k - d0 + 1, ds.len() as int);
                assert(ds.subrange(0, ds.len() as int) == ds);
                assert(decimal(ds) > limit);
                assert(ds == int_digits(lex));
            }
            return None;
        }
        assert(mag * 10 + d <= limit) by (nonlinear_arith)
            requires
                mag <= (limit - d) / 10,
                d <= 9,
                limit >= 9,
        ;
        proof {
            let pre = ds.subrange(0, k - d0 + 1);
            assert(pre.last() == c);
            assert(decimal(pre) == decimal(pre.drop_last()) * 10 + digit_val(pre.last()));
        }
        mag = mag * 10 + d;
        k = k + 1;
    }
    assert(ds.subrange(0, ds.len() as int) == ds);
    if neg {
        if mag == 9223372036854775808u64 {
            Some(i64::MIN)
        } else {
            Some(-(mag as i64))
        }
    } else {
        Some(mag as i64)
    }
}

/// A parser over one JSON text.
pub struct Parser<'a, F> {
    /// The text after one optional leading U+FEFF, one `char` per element.
    chars: Vec<char>,
    pos: usize,
    depth: usize,
    float: &'a F,
}

impl<'a, F: Fn(&str) -> Option<String>> Parser<'a, F> {
    /// The text being parsed.
    pub closed spec fn text(&self) -> Seq<char> {
        self.chars@
    }

    /// The current position in `text()`.
    pub closed spec fn at(&self) -> int {
        self.pos as int
    }

    /// The current nesting depth.
    pub closed spec fn level(&self) -> int {
        self.depth as int
    }

    /// The float rule in use.
    pub closed spec fn rule(&self) -> FloatRule {
        float_rule(*self.float)
    }

    pub closed spec fn wf(&self) -> bool {
        &&& self.pos <= self.chars@.len()
        &&& encode_utf8(self.chars@).len() < usize::MAX
        &&& self.chars@.len() < usize::MAX
        &&& float_rule_ok(*self.float)
    }

    /// Everything but the position and depth is as in `old`.
    pub open spec fn same_input(&self, old: &Self) -> bool {
        &&& self.text() == old.text()
        &&& self.rule() == old.rule()
        &&& self.wf()
    }

    /// A parser at the start of `text`, after one leading U+FEFF if any.
    pub fn new(text: &str, float: &'a F) -> (p: Self)
        requires
            float_rule_ok(*float),
            encode_utf8(text@).len() < usize::MAX,
        ensures
            p.wf(),
            p.text() == strip_bom(text@),
            p.at() == 0,
            p.level() == 0,
            p.rule() == float_rule(*float),
    {
        let mut chars: Vec<char> = Vec::new();
        for c in it: text.chars()
            invariant
                chars@ == it.seq().take(it.index() as int),
        {
            chars.push(c);
        }
        assert(chars@ == text@);
        if chars.len() > 0 && chars[0] == '\u{feff}' {
            chars.remove(0);
            proof {
                assert(text@ =~= seq![text@[0]] + text@.drop_first());
                lemma_encode_concat(seq![text@[0]], text@.drop_first());
            }
        }
        proof {
            lemma_chars_le_bytes(chars@);
        }
        Parser { chars, pos: 0, depth: 0, float }
    }

    /// The text being parsed, one `char` per element.
    pub fn bytes(&self) -> (b: &[char])
        ensures
            b@ == self.text(),
    {
        self.chars.as_slice()
    }

    /// The character at the current position, if any.
    pub fn peek(&self) -> (c: Option<char>)
        requires
            self.wf(),
        ensures
            c == at(self.text(), self.at()),
    {
        if self.pos < self.chars.len() {
            Some(self.chars[self.pos])
        } else {
            None
        }
    }

    /// An error with `msg` at the current position.
    pub fn err(&self, msg: &'static str) -> (e: ParseError)
        requires
            self.wf(),
        ensures
            is_error_at(e, self.text(), self.at(), msg),
    {
        self.err_at(self.pos, msg)
    }

    /// An error with `msg` at position `pos`: its line, and its byte column
    /// within that line. A position past the end is counted from the end.
    pub fn err_at(&self, pos: usize, msg: &'static str) -> (e: ParseError)
        requires
            self.wf(),
            pos <= self.text().len() || col_of(self.text(), pos as int) <= usize::MAX,
        ensures
            is_error_at(e, self.text(), pos as int, msg),
    {
        let ghost s = self.chars@;
        let end: usize = if pos < self.chars.len() {
            pos
        } else {
            self.chars.len()
        };
        let mut line: usize = 1;
        let mut col: usize = 0;
        let mut k: usize = 0;
        while k < end
            invariant
                self.wf(),
                s == self.chars@,
                end <= s.len(),
                end == clamp(s, pos as int),
                k <= end,
                line == line_of(s, k as int),
                col == encode_utf8(s.subrange(line_start(s, k as int), k as int)).len(),
            decreases end - k,
        {
            proof {
                lemma_line_start_bounds(s, k as int);
                let ls = line_start(s, k as int);
                assert(s.subrange(0, k + 1) == s.subrange(0, k as int).push(s[k as int]));
                assert(s.subrange(0, k + 1).drop_last() == s.subrange(0, k as int));
                lemma_newlines_bound(s.subrange(0, k as int));
                lemma_chars_le_bytes(s);
                assert(s.subrange(ls, k + 1) == s.subrange(ls, k as int).push(s[k as int]));
                lemma_encode_push(s.subrange(ls, k as int), s[k as int]);
                assert(s == s.subrange(0, ls) + s.subrange(ls, k + 1) + s.subrange(k + 1, s.len() as int));
                lemma_encode_concat(s.subrange(0, ls), s.subrange(ls, k + 1));
                lemma_encode_concat(s.subrange(0, ls) + s.subrange(ls, k + 1), s.subrange(k + 1, s.len() as int));
            }
            if self.chars[k] == '\n' {
                line = line + 1;
                col = 0;
                proof {
                    assert(s.subrange(k + 1, k + 1) == Seq::<char>::empty());
                    assert(encode_utf8(Seq::<char>::empty()) == Seq::<u8>::empty());
                }
            } else {
                col = col + char_width(self.chars[k]);
            }
            k = k + 1;
        }
        proof {
            lemma_line_start_bounds(s, end as int);
            let ls = line_start(s, end as int);
            assert(s == s.subrange(0, ls) + s.subrange(ls, end as int) + s.subrange(end as int, s.len() as int));
            lemma_encode_concat(s.subrange(0, ls), s.subrange(ls, end as int));
            lemma_encode_concat(s.subrange(0, ls) + s.subrange(ls, end as int), s.subrange(end as int, s.len() as int));
        }
        let col = col + (pos - end);
        ParseError { line, col: col + 1, msg }
    }

    /// Moves past JSON whitespace.
    pub fn skip_ws(&mut self)
        requires
            old(self).wf(),
        ensures
            final(self).same_input(old(self)),
            final(self).level() == old(self).level(),
            final(self).at() == skip_ws(old(self).text(), old(self).at()),
    {
        let ghost start = self.pos as int;
        while self.pos < self.chars.len() && (self.chars[self.pos] == ' ' || self.chars[self.pos]
            == '\t' || self.chars[self.pos] == '\n' || self.chars[self.pos] == '\r')
            invariant
                self.same_input(old(self)),
                self.depth == old(self).depth,
                skip_ws(self.chars@, start) == skip_ws(self.chars@, self.pos as int),
            decreases self.chars@.len() - self.pos,
        {
            self.pos = self.pos + 1;
        }
    }
    /// Reads the four hex digits of a `\u` escape.
    pub fn hex4(&mut self) -> (r: Result<u32, ParseError>)
        requires
            old(self).wf(),
        ensures
            final(self).same_input(old(self)),
            final(self).level() == old(self).level(),
            match p_hex4(old(self).text(), old(self).at()) {
                Ok((v, k)) => r == Ok::<u32, ParseError>(v as u32) && final(self).at() == k && 0
                    <= v < 0x10000 && k == old(self).at() + 4,
                Err((p, m)) => r matches Err(e) && is_error_at(e, old(self).text(), p, m) && final(self).at() == p,
            },
    {
        let ghost s = self.chars@;
        let ghost k0 = self.pos as int;
        let mut v: u32 = 0;
        let mut t: usize = 0;
        while t < 4
            invariant
                self.same_input(old(self)),
                self.depth == old(self).depth,
                s == self.chars@,
                k0 == old(self).pos,
                t <= 4,
                self.pos == k0 + t,
                v < (if t == 0 {
                    1int
                } else if t == 1 {
                    16int
                } else if t == 2 {
                    256int
                } else if t == 3 {
                    4096int
                } else {
                    65536int
                }),
                p_hex4(s, k0) == p_hex_digits(s, self.pos as int, (4 - t) as nat, v as int),
            decreases 4 - t,
        {
            let d: u32 = match self.peek() {
                Some(c) => {
                    if '0' <= c && c <= '9' {
                        (c as u32) - ('0' as u32)
                    } else if 'a' <= c && c <= 'f' {
                        (c as u32) - ('a' as u32) + 10
                    } else if 'A' <= c && c <= 'F' {
                        (c as u32) - ('A' as u32) + 10
                    } else {
                        return Err(self.err(MSG_INVALID_HEX));
                    }
                },
                None => {
                    return Err(self.err(MSG_INVALID_HEX));
                },
            };
            assert(d as int == hex_val(s[self.pos as int]));
            v = v * 16 + d;
            self.pos = self.pos + 1;
            t = t + 1;
        }
        Ok(v)
    }

    /// Reads the escape after a backslash, appending the character it
    /// stands for to `s`.
    pub fn parse_escape(&mut self, s: &mut String) -> (r: Result<(), ParseError>)
        requires
            old(self).wf(),
        ensures
            final(self).same_input(old(self)),
            final(self).level() == old(self).level(),
            match p_escape(old(self).text(), old(self).at()) {
                Ok((c, k)) => r is Ok && final(s)@ == old(s)@.push(c) && final(self).at() == k
                    && old(self).at() < k <= old(self).text().len(),
                Err((p, m)) => r matches Err(e) && is_error_at(e, old(self).text(), p, m) && final(s)@ == old(s)@ && final(self).at() == p,
            },
    {
        let c = match self.peek() {
            None => {
                return Err(self.err(MSG_UNTERMINATED));
            },
            Some(c) => c,
        };
        if c == 'u' {
            self.pos = self.pos + 1;
            let hi = self.hex4()?;
            let cp: u32 = if 0xD800 <= hi && hi <= 0xDBFF {
                if self.pos + 1 < self.chars.len() && self.chars[self.pos] == '\\' && self.chars[self.pos
                    + 1] == 'u' {
                    self.pos = self.pos + 2;
                    let lo = self.hex4()?;
                    if !(0xDC00 <= lo && lo <= 0xDFFF) {
                        return Err(self.err(MSG_UNPAIRED));
                    }
                    0x10000 + (hi - 0xD800) * 0x400 + (lo - 0xDC00)
                } else {
                    return Err(self.err(MSG_UNPAIRED));
                }
            } else if 0xDC00 <= hi && hi <= 0xDFFF {
                return Err(self.err(MSG_UNPAIRED));
            } else {
                hi
            };
            match core::char::from_u32(cp) {
                Some(ch) => {
                    proof {
                        vstd::utf8::char_u32_cast(ch, cp);
                    }
                    s.push(ch);
                    Ok(())
                },
                None => Err(self.err(MSG_UNPAIRED)),
            }
        } else {
            let e = if c == '"' {
                '"'
            } else if c == '\\' {
                '\\'
            } else if c == '/' {
                '/'
            } else if c == 'b' {
                '\u{8}'
            } else if c == 'f' {
                '\u{c}'
            } else if c == 'n' {
                '\n'
            } else if c == 'r' {
                '\r'
            } else if c == 't' {
                '\t'
            } else {
                return Err(self.err(MSG_INVALID_ESCAPE));
            };
            s.push(e);
            self.pos = self.pos + 1;
            Ok(())
        }
    }

    /// Reads a string literal whose opening quote is at the current position.
    pub fn parse_string(&mut self) -> (r: Result<String, ParseError>)
        requires
            old(self).wf(),
            at(old(self).text(), old(self).at()) == Some('"'),
        ensures
            final(self).same_input(old(self)),
            final(self).level() == old(self).level(),
            match p_string(old(self).text(), old(self).at()) {
                Ok((t, j)) => r matches Ok(x) && x@ == t && final(self).at() == j && old(self).at()
                    < j <= old(self).text().len(),
                Err((p, m)) => r matches Err(e) && is_error_at(e, old(self).text(), p, m) && final(self).at() == p,
            },
    {
        let ghost s = self.chars@;
        let ghost i0 = self.pos as int;
        self.pos = self.pos + 1;
        let mut out = String::new();
        loop
            invariant
                self.same_input(old(self)),
                self.depth == old(self).depth,
                s == self.chars@,
                i0 == old(self).pos,
                i0 < self.pos <= s.len(),
                p_string(s, i0) == p_string_rest(s, self.pos as int, out@),
            decreases s.len() - self.pos,
        {
            match self.peek() {
                None => {
                    return Err(self.err(MSG_UNTERMINATED));
                },
                Some(c) => {
                    if c == '"' {
                        self.pos = self.pos + 1;
                        return Ok(out);
                    } else if c == '\\' {
                        self.pos = self.pos + 1;
                        self.parse_escape(&mut out)?;
                    } else if (c as u32) < 0x20 {
                        return Err(self.err(MSG_CONTROL));
                    } else {
                        out.push(c);
                        self.pos = self.pos + 1;
                    }
                },
            }
        }
    }

    /// Steps one level deeper, failing past `MAX_DEPTH`.
    pub fn enter(&mut self) -> (r: Result<(), ParseError>)
        requires
            old(self).wf(),
            old(self).level() < usize::MAX,
        ensures
            final(self).same_input(old(self)),
            final(self).at() == old(self).at(),
            final(self).level() == old(self).level() + 1,
            old(self).level() + 1 > MAX_DEPTH ==> (r matches Err(e) && is_error_at(
                e,
                old(self).text(),
                old(self).at(),
                MSG_TOO_DEEP,
            )),
            old(self).level() + 1 <= MAX_DEPTH ==> r is Ok && final(self).level() == old(self).level() + 1,
    {
        self.depth = self.depth + 1;
        if self.depth > MAX_DEPTH {
            return Err(self.err(MSG_TOO_DEEP));
        }
        Ok(())
    }

    /// Reads the literal `lit`, giving `v` for it.
    pub fn literal(&mut self, lit: &[char], v: Value) -> (r: Result<Value, ParseError>)
        requires
            old(self).wf(),
        ensures
            final(self).same_input(old(self)),
            final(self).level() == old(self).level(),
            match p_literal(old(self).text(), old(self).at(), lit@, v.model()) {
                Ok((m, k)) => r matches Ok(x) && x.model() == m && final(self).at() == k,
                Err((p, m)) => r matches Err(e) && is_error_at(e, old(self).text(), p, m) && final(self).at() == old(self).at(),
            },
    {
        let ghost s = self.chars@;
        if lit.len() <= self.chars.len() - self.pos {
            let mut t: usize = 0;
            while t < lit.len() && self.chars[self.pos + t] == lit[t]
                invariant
                    self.wf(),
                    s == self.chars@,
                    t <= lit.len(),
                    self.pos + lit.len() <= s.len(),
                    forall|u: int| 0 <= u < t ==> s[self.pos + u] == lit@[u],
                decreases lit.len() - t,
            {
                t = t + 1;
            }
            if t == lit.len() {
                assert(s.subrange(self.pos as int, self.pos + lit.len()) =~= lit@);
                self.pos = self.pos + lit.len();
                return Ok(v);
            }
            assert(s.subrange(self.pos as int, self.pos + lit.len())[t as int] != lit@[t as int]);
        }
        Err(self.err(MSG_INVALID_LITERAL))
    }
    /// Whether the character at the current position is `c`.
    pub fn next_is(&self, c: char) -> (b: bool)
        requires
            self.wf(),
        ensures
            b == (at(self.text(), self.at()) == Some(c)),
    {
        self.pos < self.chars.len() && self.chars[self.pos] == c
    }

    /// Whether the character at the current position is a decimal digit.
    pub fn next_is_digit(&self) -> (b: bool)
        requires
            self.wf(),
        ensures
            b == digit_at(self.text(), self.at()),
    {
        self.pos < self.chars.len() && '0' <= self.chars[self.pos] && self.chars[self.pos] <= '9'
    }

    /// Moves past a run of decimal digits.
    pub fn skip_digits(&mut self)
        requires
            old(self).wf(),
        ensures
            final(self).same_input(old(self)),
            final(self).level() == old(self).level(),
            final(self).at() == digits_end(old(self).text(), old(self).at()),
            old(self).at() <= final(self).at(),
    {
        let ghost start = self.pos as int;
        proof {
            lemma_digits_end(self.chars@, start);
        }
        while self.next_is_digit()
            invariant
                self.same_input(old(self)),
                self.depth == old(self).depth,
                digits_end(self.chars@, start) == digits_end(self.chars@, self.pos as int),
            decreases self.chars@.len() - self.pos,
        {
            self.pos = self.pos + 1;
        }
    }

    /// Reads a number: an `Int` when the lexeme is integral and fits `i64`,
    /// otherwise the float rule's text for the lexeme.
    pub fn parse_number(&mut self) -> (r: Result<Value, ParseError>)
        requires
            old(self).wf(),
        ensures
            final(self).same_input(old(self)),
            final(self).level() == old(self).level(),
            match p_number(old(self).text(), old(self).at(), old(self).rule()) {
                Ok((v, j)) => r matches Ok(x) && x.model() == v && final(self).at() == j && old(self).at() < j <= old(self).text().len(),
                Err((p, m)) => r matches Err(e) && is_error_at(e, old(self).text(), p, m),
            },
    {
        let ghost s = self.chars@;
        let start = self.pos;
        if self.next_is('-') {
            self.pos = self.pos + 1;
        }
        if self.next_is('0') {
            self.pos = self.pos + 1;
        } else if self.next_is_digit() {
            self.skip_digits();
        } else {
            return Err(self.err_at(start, MSG_INVALID_NUMBER));
        }
        let mut is_float = false;
        if self.next_is('.') {
            is_float = true;
            self.pos = self.pos + 1;
            if !self.next_is_digit() {
                return Err(self.err_at(start, MSG_INVALID_NUMBER));
            }
            self.skip_digits();
        }
        if self.next_is('e') || self.next_is('E') {
            is_float = true;
            self.pos = self.pos + 1;
            if self.next_is('+') || self.next_is('-') {
                self.pos = self.pos + 1;
            }
            if !self.next_is_digit() {
                return Err(self.err_at(start, MSG_INVALID_NUMBER));
            }
            self.skip_digits();
        }
        assert(lex_number(s, start as int) == Some((self.pos as int, is_float)));
        proof {
            let a = if at(s, start as int) == Some('-') { start + 1 } else { start as int };
            lemma_digits_end(s, a);
            let lex = s.subrange(start as int, self.pos as int);
            if !is_float {
                let ds = int_digits(lex);
                assert(lex[0] == s[start as int]);
                assert forall|k: int| 0 <= k < ds.len() implies is_digit(#[trigger] ds[k]) by {
                    assert(ds[k] == s[a + k]);
                }
            }
        }
        if !is_float {
            if let Some(i) = int_of_lexeme(&self.chars, start, self.pos) {
                return Ok(Value::Number(Number::Int(i)));
            }
        }
        let mut lex = String::new();
        let mut k = start;
        while k < self.pos
            invariant
                self.wf(),
                s == self.chars@,
                start <= k <= self.pos <= s.len(),
                lex@ == s.subrange(start as int, k as int),
            decreases self.pos - k,
        {
            lex.push(self.chars[k]);
            k = k + 1;
            assert(lex@ == s.subrange(start as int, k as int));
        }
        let x = lex.as_str();
        let out = (self.float)(x);
        proof {
            let f = *self.float;
            let w = choose|y: &str, o: Option<String>| y@ == x@ && #[trigger] f.ensures((y,), o);
            assert(f.ensures((x,), out));
            assert(opt_text(w.1) == opt_text(out));
        }
        match out {
            Some(t) => Ok(Value::Number(Number::Float(t))),
            None => Err(self.err_at(start, MSG_OUT_OF_RANGE)),
        }
    }
    /// Reads any JSON value at the current position.
    pub fn parse_value(&mut self) -> (r: Result<Value, ParseError>)
        requires
            old(self).wf(),
            old(self).level() < usize::MAX,
        ensures
            final(self).same_input(old(self)),
            match p_value(old(self).text(), old(self).at(), old(self).level(), old(self).rule()) {
                Ok((v, j)) => r matches Ok(x) && x.model() == v && final(self).at() == j && final(self).level() == old(self).level() && old(self).at() < j <= old(self).text().len(),
                Err((p, m)) => r matches Err(e) && is_error_at(e, old(self).text(), p, m),
            },
            !(at(old(self).text(), old(self).at()) matches Some(c) && starts_value(c)) ==> (final(self).at() == old(self).at() && final(self).level() == old(self).level()),
        decreases old(self).text().len() - old(self).at(), 1int,
    {
        let c = match self.peek() {
            None => {
                return Err(self.err(MSG_EXPECTED_VALUE));
            },
            Some(c) => c,
        };
        if c == '{' {
            self.parse_object()
        } else if c == '[' {
            self.parse_array()
        } else if c == '"' {
            let t = self.parse_string()?;
            Ok(Value::String(t))
        } else if c == 't' {
            self.literal(&['t', 'r', 'u', 'e'], Value::Bool(true))
        } else if c == 'f' {
            self.literal(&['f', 'a', 'l', 's', 'e'], Value::Bool(false))
        } else if c == 'n' {
            self.literal(&['n', 'u', 'l', 'l'], Value::Null)
        } else if c == '-' || ('0' <= c && c <= '9') {
            self.parse_number()
        } else {
            Err(self.err(MSG_EXPECTED_VALUE))
        }
    }

    /// Reads an array whose `[` is at the current position.
    pub fn parse_array(&mut self) -> (r: Result<Value, ParseError>)
        requires
            old(self).wf(),
            old(self).level() < usize::MAX,
            at(old(self).text(), old(self).at()) == Some('['),
        ensures
            final(self).same_input(old(self)),
            match p_array(old(self).text(), old(self).at(), old(self).level(), old(self).rule()) {
                Ok((v, j)) => r matches Ok(x) && x.model() == v && final(self).at() == j && final(self).level() == old(self).level() && old(self).at() < j <= old(self).text().len(),
                Err((p, m)) => r matches Err(e) && is_error_at(e, old(self).text(), p, m),
            },
            r matches Ok(x) ==> (x is Array && final(self).at() >= 1 && final(self).text()[final(self).at() - 1] == ']'),
            old(self).level() + 1 > MAX_DEPTH ==> (final(self).at() == old(self).at() && final(self).level() == old(self).level() + 1),
        decreases old(self).text().len() - old(self).at(), 0int,
    {
        let ghost s = self.chars@;
        let ghost i0 = self.pos as int;
        let ghost d0 = self.depth as int;
        self.enter()?;
        self.pos = self.pos + 1;
        let mut items: Vec<Value> = Vec::new();
        self.skip_ws();
        proof {
            lemma_skip_ws(s, i0 + 1);
        }
        if self.next_is(']') {
            self.pos = self.pos + 1;
            self.depth = self.depth - 1;
            return Ok(Value::Array(items));
        }
        assert(items_model(items@) == Seq::<JValue>::empty());
        loop
            invariant
                self.same_input(old(self)),
                s == self.chars@,
                i0 == old(self).pos,
                d0 == old(self).depth,
                self.depth == d0 + 1,
                d0 + 1 <= MAX_DEPTH,
                i0 < self.pos <= s.len(),
                p_array(s, i0, d0, self.rule()) == p_elements(
                    s,
                    self.pos as int,
                    d0 + 1,
                    self.rule(),
                    items_model(items@),
                ),
            decreases s.len() - self.pos,
        {
            let ghost j = self.pos as int;
            let v = self.parse_value()?;
            let ghost k = self.pos as int;
            proof {
                assert(items@.push(v).drop_last() == items@);
            }
            items.push(v);
            self.skip_ws();
            proof {
                lemma_skip_ws(s, k);
            }
            if self.next_is(',') {
                self.pos = self.pos + 1;
                let ghost b = self.pos as int;
                self.skip_ws();
                proof {
                    lemma_skip_ws(s, b);
                }
            } else if self.next_is(']') {
                self.pos = self.pos + 1;
                self.depth = self.depth - 1;
                return Ok(Value::Array(items));
            } else {
                return Err(self.err(MSG_ARRAY_SEP));
            }
        }
    }

    /// Reads an object whose `{` is at the current position.
    pub fn parse_object(&mut self) -> (r: Result<Value, ParseError>)
        requires
            old(self).wf(),
            old(self).level() < usize::MAX,
            at(old(self).text(), old(self).at()) == Some('{'),
        ensures
            final(self).same_input(old(self)),
            match p_object(old(self).text(), old(self).at(), old(self).level(), old(self).rule()) {
                Ok((v, j)) => r matches Ok(x) && x.model() == v && final(self).at() == j && final(self).level() == old(self).level() && old(self).at() < j <= old(self).text().len(),
                Err((p, m)) => r matches Err(e) && is_error_at(e, old(self).text(), p, m),
            },
            r matches Ok(x) ==> (x is Object && final(self).at() >= 1 && final(self).text()[final(self).at() - 1] == '}'),
            old(self).level() + 1 > MAX_DEPTH ==> (final(self).at() == old(self).at() && final(self).level() == old(self).level() + 1),
        decreases old(self).text().len() - old(self).at(), 0int,
    {
        let ghost s = self.chars@;
        let ghost i0 = self.pos as int;
        let ghost d0 = self.depth as int;
        self.enter()?;
        self.pos = self.pos + 1;
        let mut members: Vec<(String, Value)> = Vec::new();
        self.skip_ws();
        proof {
            lemma_skip_ws(s, i0 + 1);
        }
        if self.next_is('}') {
            self.pos = self.pos + 1;
            self.depth = self.depth - 1;
            return Ok(Value::Object(members));
        }
        assert(members_model(members@) == Seq::<(Seq<char>, JValue)>::empty());
        loop
            invariant
                self.same_input(old(self)),
                s == self.chars@,
                i0 == old(self).pos,
                d0 == old(self).depth,
                self.depth == d0 + 1,
                d0 + 1 <= MAX_DEPTH,
                i0 < self.pos <= s.len(),
                p_object(s, i0, d0, self.rule()) == p_members(
                    s,
                    self.pos as int,
                    d0 + 1,
                    self.rule(),
                    members_model(members@),
                ),
            decreases s.len() - self.pos,
        {
            let ghost j = self.pos as int;
            if !self.next_is('"') {
                return Err(self.err(MSG_KEY));
            }
            let key = self.parse_string()?;
            let ghost k = self.pos as int;
            self.skip_ws();
            proof {
                lemma_skip_ws(s, k);
            }
            if !self.next_is(':') {
                return Err(self.err(MSG_COLON));
            }
            self.pos = self.pos + 1;
            let ghost b = self.pos as int;
            self.skip_ws();
            proof {
                lemma_skip_ws(s, b);
            }
            let v = self.parse_value()?;
            let ghost k4 = self.pos as int;
            proof {
                assert(members@.push((key, v)).drop_last() == members@);
            }
            members.push((key, v));
            self.skip_ws();
            proof {
                lemma_skip_ws(s, k4);
            }
            if self.next_is(',') {
                self.pos = self.pos + 1;
                let ghost b = self.pos as int;
                self.skip_ws();
                proof {
                    lemma_skip_ws(s, b);
                }
            } else if self.next_is('}') {
                self.pos = self.pos + 1;
                self.depth = self.depth - 1;
                return Ok(Value::Object(members));
            } else {
                return Err(self.err(MSG_OBJECT_SEP));
            }
        }
    }
}

/// Parses a complete JSON text into a [`Value`].
///
/// The whole input must be one JSON value plus optional whitespace (and one
/// optional leading U+FEFF); anything after it is an error. Each number whose
/// lexeme has a fraction or exponent, or is an integer outside `i64`, is
/// handed to `float`: `Some(text)` keeps `text` for it, `None` rejects the
/// input with "number out of range" at the number.
pub fn parse<F: Fn(&str) -> Option<String>>(text: &str, float: &F) -> (r: Result<Value, ParseError>)
    requires
        float_rule_ok(*float),
        encode_utf8(text@).len() < usize::MAX,
    ensures
        match p_text(text@, float_rule(*float)) {
            Ok(v) => r matches Ok(x) && x.model() == v,
            Err((p, m)) => r matches Err(e) && is_error_at(e, strip_bom(text@), p, m),
        },
{
    let mut p = Parser::new(text, float);
    let ghost s = p.text();
    proof {
        lemma_skip_ws(s, 0);
    }
    p.skip_ws();
    let v = p.parse_value()?;
    let ghost j = p.at();
    p.skip_ws();
    proof {
        lemma_skip_ws(s, j);
    }
    if p.pos < p.chars.len() {
        return Err(p.err(MSG_TRAILING));
    }
    Ok(v)
}

} // verus!
