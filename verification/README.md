# json

Minimal RFC 8259 JSON parsing and serialization, written in Verus and
proved against a specification of the grammar and of the text each value
serializes to.

## Layout

- `src/grammar.rs`: the JSON grammar as spec functions over the text's
  characters: what each unit reads, or where and why reading fails.
- `src/parser.rs`: the recursive-descent parser and `parse`, proved to
  follow the grammar exactly, error positions and messages included.
- `src/error.rs`: `ParseError`, with its line and byte column specified.
- `src/value.rs`: `Value`, `Number`, their model `JValue`, the accessors
  and `get` (the last member of a name wins).
- `src/serialize.rs`: compact and indented serialization and their specs.
- `src/roundtrip.rs`: parsing the compact or indented text of a value gives
  the value back (when its float texts are ones the float rule keeps as
  they are); parsed values are nested at most `MAX_DEPTH` deep; a parsed
  value reparses to itself after one serialization, for a float rule that
  keeps its own texts as they are (`rule_stable`); one leading U+FEFF is
  skipped and a second is not.
- `src/printable.rs`: the compact text holds no control characters.
- `src/text.rs`: decimal digits and UTF-8 widths.
- `src/specs.rs`: contracts for the two std functions vstd leaves open.
- `app/`: the `json` command-line tool, and floating point.

## Floats

Verified code here holds no floating-point values. A float is kept as text:
`parse` takes a float rule from its caller, a function from a number lexeme
to the text to keep (or `None` when the number is out of range), and the
serializers write that text as it is. The command-line tool's rule keeps
the shortest round-trip text of the nearest `f64`, with `.0` on integral
floats.
