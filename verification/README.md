# tk-mdpos

Turns a receipt template — a string that can live in a database row — into ESC/POS bytes
for an Epson-compatible thermal printer, or into a monospace or HTML preview of the same
layout. The library is sans-IO and verified with Verus: every public function states what
it returns, and the properties the design rests on are proved as lemmas.

```text
template string --parse--> blocks --layout(Profile)--> Vec<Op> --emit--> bytes | text | HTML
```

## Layout

- `src/parse.rs` — template text to blocks: directives, column rows, inline markup.
- `src/layout.rs` — blocks to ops against a profile: wrapping, column positions in dots,
  magnification, the device-state mirror, the closing cut.
- `src/stream.rs` — what every laid-out op stream keeps.
- `src/emit/` — the three backends: `escpos`, `preview` (monospace), `html`.
- `src/pipeline.rs` — `render`, `preview`, `preview_html`, `to_ops`, and the laws that
  tie the backends together.
- `src/grammar.rs` — what the template grammar promises: `{raw}` is hex pairs, edge
  whitespace never matters, escaped values read back as themselves, a row splits into one
  cell more than its unescaped pipes and joins back, and directives are range-checked.
- `src/lines.rs` — every template error names its source line.
- `src/profile.rs`, `src/qr.rs`, `src/ir.rs`, `src/error.rs` — printer profile, QR
  symbol geometry, the op type, errors and their messages.
- `src/width.rs`, `src/text.rs` — display width (`unicode-width`) and character helpers.
- `src/ffi.rs`, `src/cli.rs`, `src/page.rs` — the decisions behind the C ABI and the
  command line: status codes and messages, argument reading, the watch pages.
- `app/` — the command-line program and the C ABI shim: files, standard streams, raw
  pointers, panic containment, and the serde copy of `Profile`.
- `tests/` — examples and regression tests.

Run Verus on `src/lib.rs` to verify the library; the tests run with the real
`unicode-width` linked.

`Deserialize` for `Profile` lives only in `app/`, on the copy in `app/profile_de.rs`,
converted with `From` both ways: a serde derive cannot stand on a verified type, so
library users who want a profile from a configuration file convert from that copy. The
version string that the C ABI hands out is written in `app/ffi.rs` as a literal, kept
equal to the package version by hand.
