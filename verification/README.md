# structmd

A structured document format whose syntax is borrowed from markdown, with a
schema language, a validator and structured error output. The library is
written in Verus: every function carries a contract, and Verus proves it.

## Layout

- `src/text.rs` — character-level helpers (trimming, splitting, line breaking,
  decimal rendering, recognizers for integer, float and cron fields) with
  their specifications.
- `src/parse.rs` — the document parser. Its meaning is the spec function
  `spec_parse`, a fold of a line-by-line state machine; `parse` is proved
  equal to it, and `lemma_parse_shape` proves how headings nest.
- `src/schema.rs` — schema types and the schema loader: fenced-block
  extraction, `types`/`table` declarations, grammar tokenizing and resolution
  of productions into a tree (`load_schema_spec`). Laws: map read-after-write
  and key order, scoped declarations staying with their production.
- `src/validate.rs` — the validator (`validate_spec`), with the laws that an
  empty error list means the document conforms, that errors come out in line
  order, and that each error carries a fix.
- `src/linter.rs` — the validator as the command-line linter calls it.
- `src/errors.rs` — error formatting as markdown tables or sections.
- `app/main.rs` — the `structmd-lint` command line: argument parsing, file
  reading, printing and exit codes.
- `tests/` — scenario tests.
