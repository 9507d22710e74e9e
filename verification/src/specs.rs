//! Contracts for the few std functions the library calls that vstd leaves
//! unspecified. Verus takes these on trust; each states only what std's
//! documentation says of the function.
use vstd::prelude::*;

verus! {

/// `String::push` appends the given char to the end of the string.
pub assume_specification[ std::string::String::push ](s: &mut std::string::String, ch: char)
    ensures
        final(s)@ == old(s)@.push(ch),
;

/// `char::from_u32` gives the char whose code point is `i`, or `None` when
/// `i` is not a Unicode scalar value (above U+10FFFF or a surrogate).
pub assume_specification[ core::char::from_u32 ](i: u32) -> (r: Option<char>)
    ensures
        r is Some <==> (i <= 0x10FFFF && !(0xD800 <= i <= 0xDFFF)),
        r matches Some(c) ==> c as u32 == i,
;

} // verus!
