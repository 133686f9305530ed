# smallish

A lightweight syntax for configuration and scripting: short instructions
such as `Print msg="hello"` or `SetMinMax 20 60`, read into Rust values
with serde.

The library is written in Verus. Every function under `src/` carries a
contract over a mathematical model of the input bytes, and Verus proves
that the code meets it:

- `src/de/grammar.rs` states the token grammar (whitespace, comments,
  identifiers, numbers, characters, strings, byte strings) as spec
  functions on byte sequences;
- `src/de/token.rs` is the tokenizer, proved to return exactly the token
  the grammar gives at each position;
- `src/de/parse.rs` is the event parser, a state machine over a
  caller-supplied stack, with its step function stated in spec and laws
  such as "errors repeat" and "every input yields finitely many events";
- `src/types/escaped.rs` and `src/types/str.rs` hold strings whose escapes
  are checked lazily, and unescape them into a caller's buffer;
- `src/types/location.rs` and `src/de/location.rs` track line, column and
  offset of values in the source;
- `src/de/deserialize.rs` holds the decisions of the serde deserializer:
  what each kind of request reads, converts or rejects.

`app/` wires the library to serde (`from_str`, `from_slice` and the
`serde::Deserializer` impl), formats errors with thiserror, and parses
floating-point literals, which the verified part keeps as text.

The parser, tokenizer and deserializer work without allocating: they
read from borrowed input and keep their nesting stack in a buffer the
caller supplies. A few conveniences do allocate and so need `std`:
`Escaped::fragments` returns its fragments in a `Vec`, and
`FormatIter::join` and both `display_with` methods build a `String`.

Run `tests/` to see the library on concrete inputs.
