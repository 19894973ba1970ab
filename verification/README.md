# code_bundler

Bundles a folder of source files into one portable text file and recreates
the files from such a bundle, optionally rewriting single lines on the way.
The library is written in Verus: every function in `src/` carries a contract
that the verifier proves.

## Layout

- `src/text.rs` – the character model shared by everything else: Unicode
  whitespace, trimming, decimal numbers, UTF-8 byte lengths.
- `src/compression/` – the optional whitespace compaction (`brace` for
  C-like languages, `python` for Python), with the laws that it changes only
  whitespace and keeps every word apart (`words.rs`).
- `src/extractor.rs` – writing a bundle: binary detection, text decoding,
  the order of the files and the bundle text itself.
- `src/embedder.rs` – reading a bundle in either format, path safety,
  duplicate and file/folder checks, and the error messages.
- `src/modification.rs` – modification files, line spans and line endings,
  and applying modifications to the files of a bundle.
- `src/round_trip.rs` – reading back a written bundle gives its files back;
  every file read has a safe path of its own.
- `src/record_order.rs` – the order of modification records does not matter.
- `src/order.rs` – the character order of text and a stable sort by it.
- `src/prompt.rs` – parsing the answers to the interactive questions.
- `app/` – the interactive program: prompts (`rustyline`), walking the
  folder with `.gitignore` rules (`ignore`), and all file I/O.
- `tests/` – tests of the library on concrete values.
