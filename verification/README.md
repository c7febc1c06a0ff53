# pdxscript

A verified library for PDXScript game-definition files and CWTools config syntax, written in
Verus. Callers provide decoded UTF-8 strings; the library does no file I/O and knows no game
semantics.

- `src/script/` reads and writes game scripts: a byte-level tokenizer (`lexer`), a parser with
  documented repairs and a verbatim fallback for conditional regions (`parser`), checked
  constructors (`ast`), textual numeral and token rules (`representable`), the canonical writer
  (`serialize`), traversal and location stripping (`walk`), the proof that a conditional
  region reads the same wherever it stands (`region_read`), the proof that written documents with
  nested bodies, structured conditional regions and verbatim regions read back unchanged
  (`roundtrip`), and the proof that writing what was read is a fixpoint of reading and writing
  (`fixpoint`). Verbatim regions at the top level need nothing beyond the writer's own check; one
  inside a body must read back alone at the depth where it stands, which only the nesting limit
  can prevent.
- `src/cwt.rs` reads CWT rule files into nodes, annotations and ordered diagnostics.
- `src/source.rs` holds spans, errors, and the scanner and cursor both readers share;
  `src/text.rs` holds UTF-8 helpers.
- Every public function states its result exactly over spec functions on byte sequences; laws
  that relate several functions are public proof functions named `law_*`.
- `app/` holds what is not verified: serde copies of the syntax trees, the floating-point numeral
  projections, and the normalized JSON view used to compare readers.
