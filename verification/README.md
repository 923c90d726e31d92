# journal_rs

Read, search, export and edit the local Apple Journal store, with the library's logic
verified by Verus.

- `src/` is the verified library: selection of entries (date windows, journals, text),
  journal membership and name decoding, the Markdown dialect used for entry bodies,
  pagination for the MCP tools, statistics, terminal reports, export file names and
  documents, asset metadata decisions, the asset ordering of an entry, and the guards and
  plans of every write (which fields an edit changes, which assets an added media set
  becomes, in what order, and with which kind). Each public function states its result in `ensures`; the laws
  that relate several functions are public proof functions (`lemma_*`).
- `app/` is the `journal-rs` program around it: argument parsing, SQLite access, the macOS
  bridge for RTF, the MCP server, files, clocks and local time.
- `tests/` runs the library on concrete values.

Floating-point values (dates in store seconds, coordinates, durations) stay in `app/`; the
library orders instants by integer keys that order exactly as the store's values do.
