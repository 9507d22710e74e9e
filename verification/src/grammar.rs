//! The JSON grammar as spec functions over the text's `char`s.
//!
//! Each `p_*` function reads one syntactic unit starting at a position and
//! yields either the value read with the position just after it, or the
//! position and message of the first failure, exactly as the parser in
//! `parser.rs` reports it.
//!
//! Where a definition recurses at a later position it first checks that
//! the position did advance (`j < k <= s.len()`). Those checks always hold,
//! since every unit read is at least one character long; they are there so
//! that the definitions visibly terminate.
use vstd::prelude::*;

use crate::value::JValue;

verus! {

/// Maximum nesting depth of arrays/objects the parser accepts.
pub const MAX_DEPTH: usize = 128;

pub const MSG_EXPECTED_VALUE: &'static str = "expected a value";
pub const MSG_INVALID_LITERAL: &'static str = "invalid literal";
pub const MSG_INVALID_NUMBER: &'static str = "invalid number";
pub const MSG_OUT_OF_RANGE: &'static str = "number out of range";
pub const MSG_UNTERMINATED: &'static str = "unterminated string";
pub const MSG_CONTROL: &'static str = "control character in string";
pub const MSG_INVALID_ESCAPE: &'static str = "invalid escape";
pub const MSG_INVALID_HEX: &'static str = "invalid \\u escape";
pub const MSG_UNPAIRED: &'static str = "unpaired surrogate";
pub const MSG_TOO_DEEP: &'static str = "nesting too deep";
pub const MSG_ARRAY_SEP: &'static str = "expected ',' or ']'";
pub const MSG_OBJECT_SEP: &'static str = "expected ',' or '}'";
pub const MSG_KEY: &'static str = "expected a string key";
pub const MSG_COLON: &'static str = "expected ':'";
pub const MSG_TRAILING: &'static str = "unexpected trailing characters";

/// What reading a unit gives: the thing read and the position after it, or
/// the position and message of the failure.
pub type Read<T> = Result<(T, int), (int, &'static str)>;

/// How a float lexeme is turned into the text stored for it: `Some(text)`, or
/// `None` when the number is out of the float range.
pub type FloatRule = spec_fn(Seq<char>) -> Option<Seq<char>>;

pub open spec fn at(s: Seq<char>, i: int) -> Option<char> {
    if 0 <= i < s.len() {
        Some(s[i])
    } else {
        None
    }
}

pub open spec fn is_ws(c: char) -> bool {
    c == ' ' || c == '\t' || c == '\n' || c == '\r'
}

pub open spec fn is_digit(c: char) -> bool {
    '0' <= c && c <= '9'
}

pub open spec fn digit_at(s: Seq<char>, i: int) -> bool {
    0 <= i < s.len() && is_digit(s[i])
}

/// The first position at or after `i` that is not JSON whitespace.
pub open spec fn skip_ws(s: Seq<char>, i: int) -> int
    decreases s.len() - i,
{
    if 0 <= i < s.len() && is_ws(s[i]) {
        skip_ws(s, i + 1)
    } else {
        i
    }
}

/// The first position at or after `i` that is not a decimal digit.
pub open spec fn digits_end(s: Seq<char>, i: int) -> int
    decreases s.len() - i,
{
    if digit_at(s, i) {
        digits_end(s, i + 1)
    } else {
        i
    }
}

pub proof fn lemma_skip_ws(s: Seq<char>, i: int)
    requires
        0 <= i <= s.len(),
    ensures
        i <= skip_ws(s, i) <= s.len(),
        forall|u: int| i <= u < skip_ws(s, i) ==> is_ws(#[trigger] s[u]),
        skip_ws(s, i) < s.len() ==> !is_ws(s[skip_ws(s, i)]),
    decreases s.len() - i,
{
    if i < s.len() && is_ws(s[i]) {
        lemma_skip_ws(s, i + 1);
    }
}

pub proof fn lemma_digits_end(s: Seq<char>, i: int)
    requires
        0 <= i <= s.len(),
    ensures
        i <= digits_end(s, i) <= s.len(),
        forall|u: int| i <= u < digits_end(s, i) ==> is_digit(#[trigger] s[u]),
        !digit_at(s, digits_end(s, i)),
    decreases s.len() - i,
{
    if digit_at(s, i) {
        lemma_digits_end(s, i + 1);
    }
}

/// The extent of the number lexeme at `i` (RFC 8259 `number`): its end and
/// whether it has a fraction or an exponent; `None` when malformed.
pub open spec fn lex_number(s: Seq<char>, i: int) -> Option<(int, bool)> {
    let a = if at(s, i) == Some('-') { i + 1 } else { i };
    if !digit_at(s, a) {
        None
    } else {
        let b = if s[a] == '0' { a + 1 } else { digits_end(s, a) };
        if at(s, b) == Some('.') && !digit_at(s, b + 1) {
            None
        } else {
            let c = if at(s, b) == Some('.') { digits_end(s, b + 1) } else { b };
            let frac = at(s, b) == Some('.');
            if at(s, c) == Some('e') || at(s, c) == Some('E') {
                let e1 = if at(s, c + 1) == Some('+') || at(s, c + 1) == Some('-') {
                    c + 2
                } else {
                    c + 1
                };
                if digit_at(s, e1) {
                    Some((digits_end(s, e1), true))
                } else {
                    None
                }
            } else {
                Some((c, frac))
            }
        }
    }
}

pub open spec fn digit_val(c: char) -> int {
    (c as u32) - ('0' as u32)
}

/// The value of a run of decimal digits.
pub open spec fn decimal(ds: Seq<char>) -> int
    decreases ds.len(),
{
    if ds.len() == 0 {
        0
    } else {
        decimal(ds.drop_last()) * 10 + digit_val(ds.last())
    }
}

/// The integer an integral lexeme (`-`? digits) denotes.
pub open spec fn lexeme_int(lex: Seq<char>) -> int {
    if lex.len() > 0 && lex[0] == '-' {
        -decimal(lex.drop_first())
    } else {
        decimal(lex)
    }
}

pub open spec fn fits_i64(v: int) -> bool {
    i64::MIN <= v <= i64::MAX
}

pub open spec fn p_number(s: Seq<char>, i: int, rule: FloatRule) -> Read<JValue> {
    match lex_number(s, i) {
        None => Err((i, MSG_INVALID_NUMBER)),
        Some((e, is_float)) => {
            let lex = s.subrange(i, e);
            if !is_float && fits_i64(lexeme_int(lex)) {
                Ok((JValue::Int(lexeme_int(lex) as i64), e))
            } else {
                match rule(lex) {
                    Some(t) => Ok((JValue::Float(t), e)),
                    None => Err((i, MSG_OUT_OF_RANGE)),
                }
            }
        },
    }
}

pub open spec fn p_literal(s: Seq<char>, i: int, lit: Seq<char>, v: JValue) -> Read<JValue> {
    if 0 <= i && i + lit.len() <= s.len() && s.subrange(i, i + lit.len()) == lit {
        Ok((v, i + lit.len()))
    } else {
        Err((i, MSG_INVALID_LITERAL))
    }
}

pub open spec fn is_hex(c: char) -> bool {
    ('0' <= c && c <= '9') || ('a' <= c && c <= 'f') || ('A' <= c && c <= 'F')
}

pub open spec fn hex_val(c: char) -> int {
    if '0' <= c && c <= '9' {
        (c as u32) - ('0' as u32)
    } else if 'a' <= c && c <= 'f' {
        (c as u32) - ('a' as u32) + 10
    } else {
        (c as u32) - ('A' as u32) + 10
    }
}

/// Reads `n` hex digits at `k`, accumulating onto `acc`.
pub open spec fn p_hex_digits(s: Seq<char>, k: int, n: nat, acc: int) -> Read<int>
    decreases n,
{
    if n == 0 {
        Ok((acc, k))
    } else if 0 <= k < s.len() && is_hex(s[k]) {
        p_hex_digits(s, k + 1, (n - 1) as nat, acc * 16 + hex_val(s[k]))
    } else {
        Err((k, MSG_INVALID_HEX))
    }
}

/// The four hex digits of a `\u` escape.
pub open spec fn p_hex4(s: Seq<char>, k: int) -> Read<int> {
    p_hex_digits(s, k, 4, 0)
}

pub open spec fn is_high_surrogate(v: int) -> bool {
    0xD800 <= v <= 0xDBFF
}

pub open spec fn is_low_surrogate(v: int) -> bool {
    0xDC00 <= v <= 0xDFFF
}

/// The character with code point `v`.
pub open spec fn code_char(v: int) -> char {
    (v as u32) as char
}

/// The character a single-character escape stands for, by the letter after `\`.
pub open spec fn short_escape(c: char) -> Option<char> {
    if c == '"' {
        Some('"')
    } else if c == '\\' {
        Some('\\')
    } else if c == '/' {
        Some('/')
    } else if c == 'b' {
        Some('\u{8}')
    } else if c == 'f' {
        Some('\u{c}')
    } else if c == 'n' {
        Some('\n')
    } else if c == 'r' {
        Some('\r')
    } else if c == 't' {
        Some('\t')
    } else {
        None
    }
}

/// The escape whose backslash stands just before `k`.
pub open spec fn p_escape(s: Seq<char>, k: int) -> Read<char> {
    match at(s, k) {
        None => Err((k, MSG_UNTERMINATED)),
        Some(c) => if c == 'u' {
            match p_hex4(s, k + 1) {
                Err(e) => Err(e),
                Ok((hi, k2)) => if is_high_surrogate(hi) {
                    if at(s, k2) == Some('\\') && at(s, k2 + 1) == Some('u') {
                        match p_hex4(s, k2 + 2) {
                            Err(e) => Err(e),
                            Ok((lo, k3)) => if is_low_surrogate(lo) {
                                Ok((code_char(0x10000 + (hi - 0xD800) * 0x400 + (lo - 0xDC00)), k3))
                            } else {
                                Err((k3, MSG_UNPAIRED))
                            },
                        }
                    } else {
                        Err((k2, MSG_UNPAIRED))
                    }
                } else if is_low_surrogate(hi) {
                    Err((k2, MSG_UNPAIRED))
                } else {
                    Ok((code_char(hi), k2))
                },
            }
        } else {
            match short_escape(c) {
                Some(e) => Ok((e, k + 1)),
                None => Err((k, MSG_INVALID_ESCAPE)),
            }
        },
    }
}

/// The rest of a string literal from `j`, with `acc` the characters read so far.
pub open spec fn p_string_rest(s: Seq<char>, j: int, acc: Seq<char>) -> Read<Seq<char>>
    decreases s.len() - j,
{
    if j < 0 || j >= s.len() {
        Err((j, MSG_UNTERMINATED))
    } else if s[j] == '"' {
        Ok((acc, j + 1))
    } else if s[j] == '\\' {
        match p_escape(s, j + 1) {
            Err(e) => Err(e),
            Ok((c, k)) => if j < k <= s.len() {
                p_string_rest(s, k, acc.push(c))
            } else {
                Err((k, MSG_INVALID_ESCAPE))
            },
        }
    } else if (s[j] as u32) < 0x20 {
        Err((j, MSG_CONTROL))
    } else {
        p_string_rest(s, j + 1, acc.push(s[j]))
    }
}

/// A string literal whose opening quote is at `i`.
pub open spec fn p_string(s: Seq<char>, i: int) -> Read<Seq<char>> {
    p_string_rest(s, i + 1, Seq::empty())
}

/// The characters a value can start with.
pub open spec fn starts_value(c: char) -> bool {
    c == 'n' || c == 't' || c == 'f' || c == '-' || is_digit(c) || c == '"' || c == '[' || c
        == '{'
}

/// Any JSON value at `i`, at nesting depth `d`.
pub open spec fn p_value(s: Seq<char>, i: int, d: int, rule: FloatRule) -> Read<JValue>
    decreases s.len() - i, 1int,
{
    match at(s, i) {
        None => Err((i, MSG_EXPECTED_VALUE)),
        Some(c) => if c == '{' {
            p_object(s, i, d, rule)
        } else if c == '[' {
            p_array(s, i, d, rule)
        } else if c == '"' {
            match p_string(s, i) {
                Ok((t, j)) => Ok((JValue::Str(t), j)),
                Err(e) => Err(e),
            }
        } else if c == 't' {
            p_literal(s, i, seq!['t', 'r', 'u', 'e'], JValue::Bool(true))
        } else if c == 'f' {
            p_literal(s, i, seq!['f', 'a', 'l', 's', 'e'], JValue::Bool(false))
        } else if c == 'n' {
            p_literal(s, i, seq!['n', 'u', 'l', 'l'], JValue::Null)
        } else if c == '-' || is_digit(c) {
            p_number(s, i, rule)
        } else {
            Err((i, MSG_EXPECTED_VALUE))
        },
    }
}

/// An array whose `[` is at `i`.
pub open spec fn p_array(s: Seq<char>, i: int, d: int, rule: FloatRule) -> Read<JValue>
    decreases s.len() - i, 0int,
{
    if d + 1 > MAX_DEPTH {
        Err((i, MSG_TOO_DEEP))
    } else if 0 <= i < s.len() {
        let j = skip_ws(s, i + 1);
        if at(s, j) == Some(']') {
            Ok((JValue::Array(Seq::empty()), j + 1))
        } else if i < j <= s.len() {
            p_elements(s, j, d + 1, rule, Seq::empty())
        } else {
            Err((j, MSG_EXPECTED_VALUE))
        }
    } else {
        Err((i, MSG_EXPECTED_VALUE))
    }
}

/// The elements of an array from `j` on, `acc` being those read so far.
pub open spec fn p_elements(s: Seq<char>, j: int, d: int, rule: FloatRule, acc: Seq<JValue>) -> Read<JValue>
    decreases s.len() - j, 2int,
{
    match p_value(s, j, d, rule) {
        Err(e) => Err(e),
        Ok((v, k)) => {
            let k2 = skip_ws(s, k);
            if at(s, k2) == Some(',') {
                let k3 = skip_ws(s, k2 + 1);
                if j < k3 <= s.len() {
                    p_elements(s, k3, d, rule, acc.push(v))
                } else {
                    Err((k3, MSG_EXPECTED_VALUE))
                }
            } else if at(s, k2) == Some(']') {
                Ok((JValue::Array(acc.push(v)), k2 + 1))
            } else {
                Err((k2, MSG_ARRAY_SEP))
            }
        },
    }
}

/// An object whose `{` is at `i`.
pub open spec fn p_object(s: Seq<char>, i: int, d: int, rule: FloatRule) -> Read<JValue>
    decreases s.len() - i, 0int,
{
    if d + 1 > MAX_DEPTH {
        Err((i, MSG_TOO_DEEP))
    } else if 0 <= i < s.len() {
        let j = skip_ws(s, i + 1);
        if at(s, j) == Some('}') {
            Ok((JValue::Object(Seq::empty()), j + 1))
        } else if i < j <= s.len() {
            p_members(s, j, d + 1, rule, Seq::empty())
        } else {
            Err((j, MSG_KEY))
        }
    } else {
        Err((i, MSG_EXPECTED_VALUE))
    }
}

/// The members of an object from `j` on, `acc` being those read so far.
pub open spec fn p_members(
    s: Seq<char>,
    j: int,
    d: int,
    rule: FloatRule,
    acc: Seq<(Seq<char>, JValue)>,
) -> Read<JValue>
    decreases s.len() - j, 2int,
{
    if at(s, j) != Some('"') {
        Err((j, MSG_KEY))
    } else {
        match p_string(s, j) {
            Err(e) => Err(e),
            Ok((key, k)) => {
                let k2 = skip_ws(s, k);
                if at(s, k2) != Some(':') {
                    Err((k2, MSG_COLON))
                } else {
                    let k3 = skip_ws(s, k2 + 1);
                    if j < k3 <= s.len() {
                        match p_value(s, k3, d, rule) {
                            Err(e) => Err(e),
                            Ok((v, k4)) => {
                                let k5 = skip_ws(s, k4);
                                if at(s, k5) == Some(',') {
                                    let k6 = skip_ws(s, k5 + 1);
                                    if k3 < k6 <= s.len() {
                                        p_members(s, k6, d, rule, acc.push((key, v)))
                                    } else {
                                        Err((k6, MSG_KEY))
                                    }
                                } else if at(s, k5) == Some('}') {
                                    Ok((JValue::Object(acc.push((key, v))), k5 + 1))
                                } else {
                                    Err((k5, MSG_OBJECT_SEP))
                                }
                            },
                        }
                    } else {
                        Err((k3, MSG_EXPECTED_VALUE))
                    }
                }
            },
        }
    }
}

/// The text the parser works on: the input without one leading U+FEFF.
pub open spec fn strip_bom(text: Seq<char>) -> Seq<char> {
    if text.len() > 0 && text[0] == '\u{feff}' {
        text.drop_first()
    } else {
        text
    }
}

/// A whole JSON text: one value between optional whitespace. The result is
/// the value, or the position in `strip_bom(text)` and message of the failure.
pub open spec fn p_text(text: Seq<char>, rule: FloatRule) -> Result<JValue, (int, &'static str)> {
    let s = strip_bom(text);
    match p_value(s, skip_ws(s, 0), 0, rule) {
        Err(e) => Err(e),
        Ok((v, j)) => {
            let k = skip_ws(s, j);
            if k < s.len() {
                Err((k, MSG_TRAILING))
            } else {
                Ok(v)
            }
        },
    }
}

} // verus!
