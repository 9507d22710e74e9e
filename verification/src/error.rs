//! Parse errors and where they point.
use vstd::prelude::*;
use vstd::utf8::encode_utf8;

use crate::text::{digits_of, push_digits};

verus! {

/// A parse failure, locating the offending character in the input.
#[derive(Debug, Clone, PartialEq)]
pub struct ParseError {
    /// 1-based line number.
    pub line: usize,
    /// 1-based byte column within the line.
    pub col: usize,
    /// What went wrong.
    pub msg: &'static str,
}

/// The number of line feeds in `s`.
pub open spec fn newlines(s: Seq<char>) -> nat
    decreases s.len(),
{
    if s.len() == 0 {
        0
    } else {
        newlines(s.drop_last()) + if s.last() == '\n' {
            1nat
        } else {
            0nat
        }
    }
}

/// Where the line holding position `p` starts: just after the last line
/// feed before `p`, or 0.
pub open spec fn line_start(s: Seq<char>, p: int) -> int
    decreases p,
{
    if p <= 0 {
        0
    } else if s[p - 1] == '\n' {
        p
    } else {
        line_start(s, p - 1)
    }
}

/// Position `p`, or the end of `s` for a position past it.
pub open spec fn clamp(s: Seq<char>, p: int) -> int {
    if p < s.len() {
        p
    } else {
        s.len() as int
    }
}

/// The 1-based line of position `p`: one more than the line feeds before
/// it (before the end of `s`, for a position past it).
pub open spec fn line_of(s: Seq<char>, p: int) -> int {
    1 + newlines(s.subrange(0, clamp(s, p))) as int
}

/// The 1-based column of position `p`, counted in bytes of the UTF-8 text
/// from the start of its line; a position past the end counts one more per
/// step beyond it.
pub open spec fn col_of(s: Seq<char>, p: int) -> int {
    let e = clamp(s, p);
    encode_utf8(s.subrange(line_start(s, e), e)).len() as int + (p - e) + 1
}

/// `e` reports `msg` at position `p` of `s`.
pub open spec fn is_error_at(e: ParseError, s: Seq<char>, p: int, msg: &'static str) -> bool {
    &&& e.line == line_of(s, p)
    &&& e.col == col_of(s, p)
    &&& e.msg == msg
}

pub proof fn lemma_line_start_bounds(s: Seq<char>, p: int)
    ensures
        p <= 0 ==> line_start(s, p) == 0,
        p > 0 ==> 0 <= line_start(s, p) <= p,
    decreases p,
{
    if p > 0 && s[p - 1] != '\n' {
        lemma_line_start_bounds(s, p - 1);
    }
}

pub proof fn lemma_newlines_bound(s: Seq<char>)
    ensures
        newlines(s) <= s.len(),
    decreases s.len(),
{
    if s.len() > 0 {
        lemma_newlines_bound(s.drop_last());
    }
}

impl ParseError {
    /// The error as text: `line L, column C: message`.
    pub fn to_string(&self) -> (r: String)
        ensures
            r@ == "line "@ + digits_of(self.line as nat) + ", column "@ + digits_of(
                self.col as nat,
            ) + ": "@ + self.msg@,
    {
        let mut out = String::new();
        out.append("line ");
        push_digits(&mut out, self.line as u64);
        out.append(", column ");
        push_digits(&mut out, self.col as u64);
        out.append(": ");
        out.append(self.msg);
        out
    }
}

} // verus!
