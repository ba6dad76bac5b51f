# pdfox

A reader for the object syntax of PDF files, written in Verus and proved
against mathematical specifications.

- `src/lexer`: bytes to tokens. `spec.rs` defines, byte by byte, what the
  next token at a position is (`lex_next`); `mod.rs` is the lexer, whose
  `next` is proved to return exactly that.
- `src/parser`: tokens to objects, with up to two tokens of lookahead.
  `spec.rs` defines parsing over a state made of the lexer's position and the
  queue of tokens read ahead; `Parser::parse_object` is proved against it.
- `src/reader`: the end of a file. `find_startxref` finds the offset after
  `startxref`; `XRefTable::parse` reads the cross-reference table and the
  trailer dictionary; `PdfDocument::from_bytes` combines them.
- `src/laws.rs`: properties over all inputs: reading a token consumes input,
  the end of input is stable and comes exactly when only white space and
  comments are left, white space and comments change nothing, signed digit
  runs lex as integers,
  lookahead leaves every later token unchanged, parsing an object consumes
  input, and two objects separated by a line feed parse one after the other
  (`parser/prefix.rs` and `parser/shift.rs` hold the proofs for the last).
- Entry points ending in `_checked` take any input and return `None` exactly
  where the unchecked ones require otherwise: where a number's integer part,
  an object number or a stream's end would overflow.
- `app/`: the parts left outside verification: error types that print
  themselves (with `thiserror`) and the conversion of reals to `f64`.

Reals are kept as written (sign, integer part, fractional digits), so that
no floating-point arithmetic enters the verified library.
