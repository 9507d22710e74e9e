//! What each operation is for, stated over all inputs: the number lexemes
//! the grammar takes, how string text is escaped and read back, which member
//! a lookup finds, and what text a float keeps.
use vstd::prelude::*;

use crate::grammar::{
    FloatRule, MSG_INVALID_ESCAPE, MSG_OUT_OF_RANGE, at, decimal, digit_at, digits_end, fits_i64,
    is_digit, lemma_digits_end, lex_number, lexeme_int, p_escape, p_text, skip_ws, strip_bom,
};
use crate::serialize::{compact, escape_char, escape_text, fraction_kept};
use crate::value::{JValue, lookup};

verus! {

/// Every character of `ds` is a decimal digit.
pub open spec fn all_digits(ds: Seq<char>) -> bool {
    forall|u: int| 0 <= u < ds.len() ==> is_digit(#[trigger] ds[u])
}

/// The optional minus sign of a number.
pub open spec fn sign_part(neg: bool) -> Seq<char> {
    if neg {
        seq!['-']
    } else {
        Seq::empty()
    }
}

/// The optional fraction of a number: `.` and its digits.
pub open spec fn frac_part(frac: Option<Seq<char>>) -> Seq<char> {
    match frac {
        Some(f) => seq!['.'] + f,
        None => Seq::empty(),
    }
}

/// The optional exponent of a number: its letter, its optional sign, its digits.
pub open spec fn exp_part(exp: Option<(char, Option<char>, Seq<char>)>) -> Seq<char> {
    match exp {
        Some((e, sign, ds)) => seq![e] + match sign {
            Some(c) => seq![c],
            None => Seq::empty(),
        } + ds,
        None => Seq::empty(),
    }
}

/// The RFC 8259 number `-? int frac? exp?` built from its parts.
pub open spec fn number_lexeme(
    neg: bool,
    int_digits: Seq<char>,
    frac: Option<Seq<char>>,
    exp: Option<(char, Option<char>, Seq<char>)>,
) -> Seq<char> {
    sign_part(neg) + int_digits + frac_part(frac) + exp_part(exp)
}

/// The parts form a well-formed RFC 8259 number: the integer part is `0` or
/// digits without a leading zero, a fraction has at least one digit, and an
/// exponent is `e` or `E`, an optional `+` or `-`, and at least one digit.
pub open spec fn number_parts_ok(
    int_digits: Seq<char>,
    frac: Option<Seq<char>>,
    exp: Option<(char, Option<char>, Seq<char>)>,
) -> bool {
    &&& int_digits.len() > 0 && all_digits(int_digits)
    &&& (int_digits[0] == '0' ==> int_digits.len() == 1)
    &&& (frac matches Some(f) ==> f.len() > 0 && all_digits(f))
    &&& (exp matches Some((e, sign, ds)) ==> (e == 'e' || e == 'E') && (sign matches Some(c) ==> (c
        == '+' || c == '-')) && ds.len() > 0 && all_digits(ds))
}

/// A run of digits at `a` followed by a non-digit ends where the run ends.
proof fn lemma_digit_run(s: Seq<char>, a: int, n: int)
    requires
        0 <= a,
        0 <= n,
        a + n <= s.len(),
        forall|u: int| a <= u < a + n ==> is_digit(#[trigger] s[u]),
        !digit_at(s, a + n),
    ensures
        digits_end(s, a) == a + n,
    decreases n,
{
    if n > 0 {
        lemma_digit_run(s, a + 1, n - 1);
    }
}

/// Every RFC 8259 number lexeme is read whole, whatever follows it that
/// cannot continue a number: its sign, integer part, fraction and exponent
/// (with `+`, `-` or no sign) all belong to it, and it counts as a float
/// exactly when it has a fraction or an exponent.
#[verifier::rlimit(40)]
pub proof fn law_number_lexeme_read_whole(
    neg: bool,
    int_digits: Seq<char>,
    frac: Option<Seq<char>>,
    exp: Option<(char, Option<char>, Seq<char>)>,
    rest: Seq<char>,
)
    requires
        number_parts_ok(int_digits, frac, exp),
        !(rest.len() > 0 && (is_digit(rest[0]) || rest[0] == '.' || rest[0] == 'e' || rest[0]
            == 'E')),
    ensures
        lex_number(number_lexeme(neg, int_digits, frac, exp) + rest, 0) == Some(
            (number_lexeme(neg, int_digits, frac, exp).len() as int, frac is Some || exp is Some),
        ),
{
    let sp = sign_part(neg);
    let fp = frac_part(frac);
    let ep = exp_part(exp);
    let lex = number_lexeme(neg, int_digits, frac, exp);
    let s = lex + rest;
    let a = sp.len() as int;
    let b = a + int_digits.len();
    let c = b + fp.len();
    let n = lex.len() as int;
    assert(lex == sp + int_digits + fp + ep);
    assert(n == c + ep.len());
    assert forall|u: int| 0 <= u < n implies s[u] == lex[u] by {}
    assert forall|k: int| 0 <= k < rest.len() implies s[n + k] == rest[k] by {}
    assert forall|u: int| 0 <= u < int_digits.len() implies lex[a + u] == int_digits[u] by {}
    assert forall|u: int| 0 <= u < fp.len() implies lex[b + u] == fp[u] by {}
    assert forall|u: int| 0 <= u < ep.len() implies lex[c + u] == ep[u] by {}
    if neg {
        assert(s[0] == '-');
    } else {
        assert(int_digits[0] == lex[0]);
        assert(s[0] != '-');
    }
    // what stands right after the number cannot continue it
    let after_ok = !digit_at(s, n) && at(s, n) != Some('.') && at(s, n) != Some('e') && at(s, n)
        != Some('E');
    assert(after_ok) by {
        if n < s.len() {
            assert(s[n + 0] == rest[0]);
        }
    }
    assert(digit_at(s, a)) by {
        assert(s[a] == int_digits[0]);
    }
    // the integer part
    if int_digits[0] == '0' {
        assert(s[a] == '0');
    } else {
        assert(s[a] != '0');
        assert forall|u: int| a <= u < b implies is_digit(#[trigger] s[u]) by {
            assert(s[u] == int_digits[u - a]);
        }
        assert(!digit_at(s, b)) by {
            if fp.len() > 0 {
                assert(s[b] == fp[0]);
            } else if ep.len() > 0 {
                assert(s[b] == ep[0]);
            }
        }
        lemma_digit_run(s, a, int_digits.len() as int);
    }
    // the fraction
    match frac {
        Some(f) => {
            assert(s[b] == '.') by {
                assert(fp[0] == '.');
            }
            assert(digit_at(s, b + 1)) by {
                assert(s[b + 1] == fp[1]);
                assert(fp[1] == f[0]);
            }
            assert forall|u: int| b + 1 <= u < c implies is_digit(#[trigger] s[u]) by {
                assert(s[u] == fp[u - b]);
                assert(fp[u - b] == f[u - b - 1]);
            }
            assert(!digit_at(s, c)) by {
                if ep.len() > 0 {
                    assert(s[c] == ep[0]);
                }
            }
            lemma_digit_run(s, b + 1, f.len() as int);
        },
        None => {
            assert(at(s, b) != Some('.')) by {
                if ep.len() > 0 {
                    assert(s[b] == ep[0]);
                }
            }
        },
    }
    // the exponent
    match exp {
        Some((e, sign, ds)) => {
            let sg = match sign {
                Some(x) => seq![x],
                None => Seq::<char>::empty(),
            };
            assert(ep == seq![e] + sg + ds);
            assert(s[c] == e) by {
                assert(ep[0] == e);
            }
            let e1 = c + 1 + sg.len();
            match sign {
                Some(x) => {
                    assert(s[c + 1] == x) by {
                        assert(ep[1] == x);
                    }
                },
                None => {
                    assert(s[c + 1] == ds[0]) by {
                        assert(ep[1] == ds[0]);
                    }
                },
            }
            assert forall|u: int| e1 <= u < n implies is_digit(#[trigger] s[u]) by {
                assert(s[u] == ep[u - c]);
                assert(ep[u - c] == ds[u - e1]);
            }
            assert(digit_at(s, e1)) by {
                assert(s[e1 + 0] == ds[0]) by {
                    assert(ep[e1 - c] == ds[0]);
                }
            }
            lemma_digit_run(s, e1, ds.len() as int);
        },
        None => {},
    }
}

/// The integer an integral number lexeme denotes.
pub open spec fn signed_decimal(neg: bool, int_digits: Seq<char>) -> int {
    if neg {
        -decimal(int_digits)
    } else {
        decimal(int_digits)
    }
}

/// A whole text that is one RFC 8259 number parses to that number: an
/// integral one that fits `i64` to that integer; any other (one with a
/// fraction or an exponent, whatever the exponent's sign, or an integer
/// outside `i64`) to the float text the rule gives for the whole lexeme, or
/// "number out of range" at its start when the rule rejects it.
pub proof fn law_number_text(
    neg: bool,
    int_digits: Seq<char>,
    frac: Option<Seq<char>>,
    exp: Option<(char, Option<char>, Seq<char>)>,
    rule: FloatRule,
)
    requires
        number_parts_ok(int_digits, frac, exp),
    ensures
        ({
            let lex = number_lexeme(neg, int_digits, frac, exp);
            let v = signed_decimal(neg, int_digits);
            if frac is None && exp is None && fits_i64(v) {
                p_text(lex, rule) == Ok::<JValue, (int, &'static str)>(JValue::Int(v as i64))
            } else {
                p_text(lex, rule) == match rule(lex) {
                    Some(t) => Ok::<JValue, (int, &'static str)>(JValue::Float(t)),
                    None => Err((0, MSG_OUT_OF_RANGE)),
                }
            }
        }),
{
    let lex = number_lexeme(neg, int_digits, frac, exp);
    let sp = sign_part(neg);
    let n = lex.len() as int;
    law_number_lexeme_read_whole(neg, int_digits, frac, exp, Seq::empty());
    assert(lex + Seq::<char>::empty() == lex);
    assert(lex == sp + int_digits + frac_part(frac) + exp_part(exp));
    if neg {
        assert(lex[0] == '-');
    } else {
        assert(lex[0] == int_digits[0]);
    }
    assert(strip_bom(lex) == lex);
    assert(skip_ws(lex, 0) == 0);
    assert(skip_ws(lex, n) == n);
    assert(lex.subrange(0, n) == lex);
    if frac is None && exp is None {
        assert(frac_part(frac) == Seq::<char>::empty());
        assert(exp_part(exp) == Seq::<char>::empty());
        if neg {
            assert(lex.drop_first() =~= int_digits);
        } else {
            assert(lex =~= int_digits);
        }
        assert(lexeme_int(lex) == signed_decimal(neg, int_digits));
    }
}

/// The characters a string literal cannot hold as themselves: the quote,
/// the backslash and the control characters below U+0020.
pub open spec fn needs_escape(c: char) -> bool {
    c == '"' || c == '\\' || (c as u32) < 0x20
}

/// The letters that may follow a backslash in a string literal.
pub open spec fn escape_letter(c: char) -> bool {
    c == '"' || c == '\\' || c == '/' || c == 'b' || c == 'f' || c == 'n' || c == 'r' || c == 't'
        || c == 'u'
}

/// A character that needs no escape is written as itself; one that does is
/// written as a backslash and one of the escape letters.
pub proof fn law_escape_char(c: char)
    ensures
        !needs_escape(c) ==> escape_char(c) == seq![c],
        needs_escape(c) ==> escape_char(c).len() >= 2 && escape_char(c)[0] == '\\'
            && escape_letter(escape_char(c)[1]),
{
}

/// A string none of whose characters needs an escape is written between
/// quotes exactly as it is.
pub proof fn law_plain_string_as_is(cs: Seq<char>)
    requires
        forall|u: int| 0 <= u < cs.len() ==> !needs_escape(#[trigger] cs[u]),
    ensures
        escape_text(cs) == cs,
        compact(JValue::Str(cs)) == seq!['"'] + cs + seq!['"'],
    decreases cs.len(),
{
    if cs.len() > 0 {
        law_plain_string_as_is(cs.drop_last());
        law_escape_char(cs.last());
        assert(cs.drop_last().push(cs.last()) =~= cs);
    }
}

/// A backslash followed by anything but an escape letter is "invalid
/// escape" at that character.
pub proof fn law_unknown_escape_rejected(s: Seq<char>, k: int)
    requires
        0 <= k < s.len(),
        !escape_letter(s[k]),
    ensures
        p_escape(s, k) == Err::<(char, int), (int, &'static str)>((k, MSG_INVALID_ESCAPE)),
{
}

/// Member lookup finds the last member whose name is exactly `key`, and
/// nothing when no member has that name.
pub proof fn law_lookup_last_exact(members: Seq<(Seq<char>, JValue)>, key: Seq<char>)
    ensures
        forall|i: int|
            0 <= i < members.len() && #[trigger] members[i].0 == key && (forall|j: int|
                i < j < members.len() ==> #[trigger] members[j].0 != key) ==> lookup(members, key)
                == Some(members[i].1),
        (forall|i: int| 0 <= i < members.len() ==> #[trigger] members[i].0 != key) ==> lookup(
            members,
            key,
        ) is None,
    decreases members.len(),
{
    if members.len() > 0 {
        let init = members.drop_last();
        law_lookup_last_exact(init, key);
        let n = members.len() - 1;
        assert forall|i: int|
            0 <= i < members.len() && #[trigger] members[i].0 == key && (forall|j: int|
                i < j < members.len() ==> #[trigger] members[j].0 != key) implies lookup(
            members,
            key,
        ) == Some(members[i].1) by {
            if i < n {
                assert(members[n].0 != key);
                assert(init[i] == members[i]);
                assert forall|j: int| i < j < init.len() implies #[trigger] init[j].0 != key by {
                    assert(init[j] == members[j]);
                }
            }
        }
        if forall|i: int| 0 <= i < members.len() ==> #[trigger] members[i].0 != key {
            assert(members[n].0 != key);
            assert forall|i: int| 0 <= i < init.len() implies #[trigger] init[i].0 != key by {
                assert(init[i] == members[i]);
            }
        }
    }
}

/// The text kept for a float is the shortest text itself when it has a
/// `.`, whatever its sign, and that text followed by `.0` when it has none.
pub proof fn law_fraction_kept(t: Seq<char>)
    ensures
        t.contains('.') ==> fraction_kept(t) == t,
        !t.contains('.') ==> fraction_kept(t) == t + seq!['.', '0'],
        fraction_kept(t).contains('.'),
{
    if !t.contains('.') {
        let r = t + seq!['.', '0'];
        assert(r[t.len() as int] == '.');
    }
}

/// On decimal texts: one with a fraction, of either sign, is kept as it is;
/// an integral one gains the fraction `.0`, so it reads back as a float.
pub proof fn law_fraction_kept_decimal(neg: bool, int_digits: Seq<char>, frac: Option<Seq<char>>)
    requires
        number_parts_ok(int_digits, frac, None),
    ensures
        fraction_kept(number_lexeme(neg, int_digits, frac, None)) == number_lexeme(
            neg,
            int_digits,
            Some(
                match frac {
                    Some(f) => f,
                    None => seq!['0'],
                },
            ),
            None,
        ),
{
    let lex = number_lexeme(neg, int_digits, frac, None);
    let sp = sign_part(neg);
    let b = (sp.len() + int_digits.len()) as int;
    assert(exp_part(None) == Seq::<char>::empty());
    assert(lex == sp + int_digits + frac_part(frac) + exp_part(None));
    match frac {
        Some(f) => {
            assert(lex[b] == '.');
        },
        None => {
            assert forall|u: int| 0 <= u < lex.len() implies lex[u] != '.' by {
                if u >= sp.len() {
                    assert(lex[u] == int_digits[u - sp.len()]);
                }
            }
            assert(number_lexeme(neg, int_digits, Some(seq!['0']), None) =~= lex + seq!['.', '0']);
        },
    }
}

/// Whatever the grammar reads as a number is an RFC 8259 number lexeme:
/// the text it spans splits into a sign, an integer part, a fraction and an
/// exponent that are well formed, and it counts as a float exactly when a
/// fraction or an exponent is there.
#[verifier::rlimit(50)]
pub proof fn law_number_read_is_lexeme(s: Seq<char>, i: int)
    requires
        0 <= i <= s.len(),
    ensures
        lex_number(s, i) matches Some((e, is_float)) ==> exists|
            neg: bool,
            int_digits: Seq<char>,
            frac: Option<Seq<char>>,
            exp: Option<(char, Option<char>, Seq<char>)>,
        |
            #![trigger number_lexeme(neg, int_digits, frac, exp)]
            number_parts_ok(int_digits, frac, exp) && s.subrange(i, e) == number_lexeme(
                neg,
                int_digits,
                frac,
                exp,
            ) && is_float == (frac is Some || exp is Some),
{
    if let Some((e, is_float)) = lex_number(s, i) {
        let neg = at(s, i) == Some('-');
        let a = if neg { i + 1 } else { i };
        let b = if s[a] == '0' { a + 1 } else { digits_end(s, a) };
        lemma_digits_end(s, a);
        let int_digits = s.subrange(a, b);
        assert(all_digits(int_digits)) by {
            assert forall|u: int| 0 <= u < int_digits.len() implies is_digit(#[trigger] int_digits[u]) by {
                assert(int_digits[u] == s[a + u]);
            }
        }
        assert(int_digits[0] == s[a]);
        let has_frac = at(s, b) == Some('.');
        let c = if has_frac { digits_end(s, b + 1) } else { b };
        if has_frac {
            lemma_digits_end(s, b + 1);
        }
        let frac = if has_frac { Some(s.subrange(b + 1, c)) } else { None };
        let fp = frac_part(frac);
        if has_frac {
            let f = s.subrange(b + 1, c);
            assert forall|u: int| 0 <= u < f.len() implies is_digit(#[trigger] f[u]) by {
                assert(f[u] == s[b + 1 + u]);
            }
            assert(fp =~= s.subrange(b, c));
        } else {
            assert(fp =~= s.subrange(b, c));
        }
        let has_exp = at(s, c) == Some('e') || at(s, c) == Some('E');
        let signed = has_exp && (at(s, c + 1) == Some('+') || at(s, c + 1) == Some('-'));
        let e1 = if signed { c + 2 } else { c + 1 };
        let exp: Option<(char, Option<char>, Seq<char>)> = if has_exp {
            Some((s[c], if signed { Some(s[c + 1]) } else { None }, s.subrange(e1, e)))
        } else {
            None
        };
        let ep = exp_part(exp);
        if has_exp {
            lemma_digits_end(s, e1);
            let ds = s.subrange(e1, e);
            assert forall|u: int| 0 <= u < ds.len() implies is_digit(#[trigger] ds[u]) by {
                assert(ds[u] == s[e1 + u]);
            }
            assert(ep =~= s.subrange(c, e));
        } else {
            assert(ep =~= s.subrange(c, e));
        }
        assert(sign_part(neg) =~= s.subrange(i, a));
        assert(s.subrange(i, e) =~= s.subrange(i, a) + s.subrange(a, b) + s.subrange(b, c)
            + s.subrange(c, e));
        assert(number_parts_ok(int_digits, frac, exp));
        assert(s.subrange(i, e) == number_lexeme(neg, int_digits, frac, exp));
    }
}

} // verus!
