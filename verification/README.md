# scoped_css

Scoped CSS for Rust macros: a style sheet written inside `css!( ... )`
is parsed from the macro's tokens, every class and id gets a scoped name
(`cl_<prefix>_<n>`, `id_<prefix>_<n>`), and the style sheet is written back
out under those names.

- `src/` is the library, verified with Verus. The parsers work on a plain
  model of the macro's tokens (`tokens.rs`); each parser's meaning is a spec
  function, and the combinators (`util.rs`) are generic over the
  `TokenParser` trait. `names.rs` collects names and builds the scoped ones,
  `stylesheet.rs` writes the CSS, `scoped.rs` puts the pipeline together and
  states its laws.
- `app/` holds the macro side: converting a `proc_macro2` token stream into
  the model, hashing the input into a prefix, and generating code with
  `quote`.
- `tests/` runs the library on token streams lexed by `proc_macro2`.
