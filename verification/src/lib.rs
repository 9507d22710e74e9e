//! Minimal RFC 8259 JSON parsing and serialization, verified.
//!
//! A small [`Value`] enum, a strict parser with line/column errors, and
//! compact and pretty serialization. Floats are held as text: the parser
//! hands each non-integral (or out-of-`i64`) number lexeme to a float rule
//! supplied by the caller, which gives the text to keep or rejects the number
//! as out of range.

pub mod error;
pub mod grammar;
pub mod laws;
pub mod parser;
pub mod printable;
pub mod roundtrip;
pub mod serialize;
pub mod specs;
pub mod text;
pub mod value;

pub use error::ParseError;
pub use grammar::MAX_DEPTH;
pub use parser::{Parser, parse};
pub use serialize::with_fraction;
pub use value::{JValue, Number, Value};
