# rusty_json

A JSON loader in two stages, each verified with Verus against a mathematical model:

- `src/lexer.rs` splits text into tokens (`tokenize`), tracking line and column for errors.
- `src/parser.rs` reads tokens as a document (`parse_tokens`): an object or an array, nested
  at most `MAX_DEPTH` deep, with nothing after it.
- `src/json.rs` puts the two together (`load_json`) and judges test files by name
  (`test_file`).
- `src/spelling.rs` states what the parser gives back for the tokens that spell a document,
  and what it never gives.
- `src/float_text.rs` decides which number texts Rust's `f64` parser accepts; numbers are kept
  as text, since the library holds no floating-point values.
- `src/messages.rs` writes the messages that describe errors, and the tokens in them.
- `src/escapes.rs` states how a string is escaped, and proves that the lexer reads the
  escaped text back as the string.
- `src/spacing.rs` proves that white space put between tokens changes no token, and that
  tokens written out as text are read back.
- `src/writing.rs` proves that a document written out as text is read back as itself.
- `src/chars.rs` holds the character classes: white space and control characters are stated
  and checked; which characters are letters comes from `char::is_alphabetic`, trusted and
  named.
- `src/json.rs` also holds the trimming of a file's text and the decimal numerals that
  positions are printed with.

`app/` is the command-line test runner and the Python module; it reads files and turns
numbers into `f64`.
