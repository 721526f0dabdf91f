# specific

The verified core of the `spec` terminal editor, written in Verus.

- `src/` is the library. Verus proves the contract of every function in it,
  except the few `#[verifier::external_body]` wrappers around calls into
  `std`, `unicode-width`, `unicode-segmentation` and `serde_json`, whose
  contracts are trusted and say in their doc comments what they claim:
  - `text`: UTF-8 lengths and encoding, lossy decoding, character classes,
    and the calls into `unicode-width` and `unicode-segmentation`.
  - `syntax`: highlight types and their colours, and syntax configurations.
  - `row`: how a row is rendered (tab stops, terminal widths, the byte and
    column index maps), how it is syntax highlighted, and how it is drawn
    and clipped to terminal columns.
  - `markdown`: lightweight Markdown colouring of streamed shell output
    (fences, headings, lists, emphasis, code, links) and grapheme clipping.
  - `output`: the bounded, terminal-safe decoding of a job's output bytes
    into lines.
  - `spec_session`: numbering, naming and framing of spec snapshots.
  - `args`: the command line.
- `tests/` runs the library on concrete inputs.
- `app/` holds what is not verified: the program's entry point, terminal
  and process handling through `libc`, the worker thread that reads a job's
  output, and the file writes of spec snapshots.

Verify with `verus` on `src/lib.rs`; the tests run with `cargo test`.
