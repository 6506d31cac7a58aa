# json_core

A diagnostics-grade JSON engine: a recovering lexer and parser that report
every problem of a document in one pass (stable codes, byte spans, hints),
in strict JSON or JSONC mode, with a duplicate-key policy and a depth limit.

The library in `src/` is verified with Verus:

- `lexer`, `parser`: the executable engine. Each public function is specified
  against the models in `lex_spec` and `parse_spec`, which say token by token
  and event by event what a run produces.
- `tree`, `tree_law`: value trees built from the parser's events, and the
  proof that a parse always yields one.
- `line_index`, `report`: line/column lookup and the JSON diagnostics report,
  with its length-prefixed frame.
- `grammar`: the JSON grammar on bytes and the limits (depth, unique keys).
  `conformance` and `acceptance` prove that whatever strict mode accepts is
  JSON text within the limits, as long as the run stays below the diagnostic
  cap (past it, an error may go unkept); `completeness` and `validity` prove
  that such text is always accepted.
- `depth_law`: a parse never has more containers open than the depth limit.
- `policy_law`: the duplicate-key policy changes severities only, and by
  default every repeated key of a JSON text is warned about.
- `laws`, `events_law`: diagnostics are capped, sorted and complete; the
  events of every run describe exactly one value.
- `keep_lex`, `keep_parse`: a validation (no string decoding) and a full
  parse agree on whether a document has an error, as long as both runs stay
  below the diagnostic cap; `scan_law`, `sync_parse`: on valid UTF-8 with
  no backslash before a byte beyond ASCII, they report the same diagnostics
  one for one, however many.
- `report_law`: the diagnostics report is itself JSON text, by the grammar
  above, whenever the diagnostic codes need no escaping; `report_accept`:
  strict validation accepts it, when the depth limit leaves room for it.
- `codes_law`: every diagnostic of every run carries one of the stable codes,
  so the report of any run reads back as JSON that validation accepts.
- `esc_law`: the string literal the report writes for any text parses back
  as exactly that text, with no error.
- `token_law`: tokens come in order, never overlap, and the end of input
  stays put; `lines_law`: line and column grow with the offset, and each of
  `\n`, `\r\n` and a lone `\r` ends exactly one line.
- `wide`, `precision`: decimal numerals of any length, and the integer
  precision warning for every integer a double cannot hold.

`app/` holds what stays outside the proofs: the sink interface (its numbers
are doubles), the replay of events into a sink, and the C ABI used from WASM.
