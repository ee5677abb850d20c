# jsonl_peek

A library for looking into JSONL files, and the `jsonl-peek` command around it:
`head`, `sample`, `stats` and `schema`.

The library is written in Verus. Its functions state in contracts what they
return, and the contracts are proved.

- `src/lines.rs` splits input into lines, `src/record.rs` says what a line
  holds.
- `src/json/` holds JSON values, the grammar of texts, reading and writing, and
  the proof that what is written is read back.
- `src/path.rs` parses field paths and follows them.
- `src/hist.rs` is a log-bucketed histogram, `src/rng.rs` a pseudorandom
  generator with reservoir sampling.
- `src/stats.rs` and `src/schema.rs` are the two passes over an input;
  `src/tally.rs` and `src/catalog.rs` are the bounded tables under them.
- `src/sample.rs` picks lines, `src/cli.rs` reads command lines, `src/report.rs`
  lays out reports.
- `src/text.rs` and `src/number.rs` are about UTF-8 text and decimal numbers.
  `text::decode` is the one function whose contract is believed: it calls
  `std::str::from_utf8`.

`app/` reads files, prints, and does what needs floating point. `tests/` runs
the library on examples.
